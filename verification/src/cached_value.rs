//! Values that expire a given time after they were made or last changed.

use vstd::prelude::*;
use std::collections::VecDeque;
use std::ops::{Deref, DerefMut};
use std::time::{Duration, Instant};
use crate::trusted::duration_nanos;

verus! {

/// A value that expires once it has stood unchanged for longer than its
/// lifetime.
pub struct CachedValue<T> {
    data: T,
    renewed: Instant,
    lifetime: Duration,
}

/// The mathematical value of a [`CachedValue`]: what it holds, and its
/// lifetime in nanoseconds.  The time of its last renewal is no part of it.
pub struct CachedValueView<T> {
    pub data: T,
    pub lifetime: u128,
}

impl<T> CachedValueView<T> {
    /// Whether the value has expired when `elapsed` nanoseconds have passed
    /// since it was made or renewed: when that is more than its lifetime.
    pub open spec fn expired_after(self, elapsed: u128) -> bool {
        self.lifetime < elapsed
    }

    /// Whether `expired` is what the value answers after some time.
    pub open spec fn may_answer(self, expired: bool) -> bool {
        exists|elapsed: u128| expired == #[trigger] self.expired_after(elapsed)
    }
}

/// Whether each flag of `expired` is what the value at its place answers
/// after some time.
pub open spec fn may_answer_all<T>(values: Seq<CachedValue<T>>, expired: Seq<bool>) -> bool {
    &&& expired.len() == values.len()
    &&& forall|k: int| 0 <= k < values.len() ==> (#[trigger] values[k])@.may_answer(expired[k])
}

impl<T> View for CachedValue<T> {
    type V = CachedValueView<T>;

    closed spec fn view(&self) -> CachedValueView<T> {
        CachedValueView { data: self.data, lifetime: duration_nanos(self.lifetime) }
    }
}

impl<T> CachedValue<T> {
    /// The reading of the clock at which the value was made or last renewed.
    pub closed spec fn renewed_at(&self) -> Instant {
        self.renewed
    }

    /// A value that has just been made and lives for `lifetime`.
    pub fn new(data: T, lifetime: Duration) -> (value: CachedValue<T>)
        ensures
            value@ == (CachedValueView { data, lifetime: duration_nanos(lifetime) }),
    {
        CachedValue { data, renewed: Instant::now(), lifetime }
    }

    /// Whether the value has expired when `elapsed` has passed since it was
    /// made or renewed.
    pub fn expired_after(&self, elapsed: Duration) -> (expired: bool)
        ensures
            expired == self@.expired_after(duration_nanos(elapsed)),
    {
        self.lifetime.as_nanos() < elapsed.as_nanos()
    }

    /// Whether the value has expired by now.  The clock decides how much time
    /// has passed; the answer is that of `expired_after` for that time.
    pub fn has_expired(&self) -> (expired: bool)
        ensures
            self@.may_answer(expired),
    {
        let elapsed = self.renewed.elapsed();
        let expired = self.expired_after(elapsed);
        assert(expired == self@.expired_after(duration_nanos(elapsed)));
        expired
    }

    /// The reading of the clock at which the value was made or last renewed.
    pub fn renewed(&self) -> (reading: Instant)
        ensures
            reading == self.renewed_at(),
    {
        self.renewed
    }

    /// Starts the lifetime of the value anew.  The clock gives the reading
    /// from which the lifetime runs; what the value holds and how long it
    /// lives stay as they are.
    pub fn renew(&mut self)
        ensures
            final(self)@ == old(self)@,
    {
        self.renew_at(Instant::now());
    }

    /// Lets the lifetime of the value run from `reading` on.  What the value
    /// holds and how long it lives stay as they are.
    pub fn renew_at(&mut self, reading: Instant)
        ensures
            final(self)@ == old(self)@,
            final(self).renewed_at() == reading,
    {
        self.renewed = reading;
    }
}

impl<T> Deref for CachedValue<T> {
    type Target = T;

    fn deref(&self) -> (data: &T)
        ensures
            *data == self@.data,
    {
        &self.data
    }
}

/// Access for change starts the lifetime of the value anew.
impl<T> DerefMut for CachedValue<T> {
    fn deref_mut(&mut self) -> (data: &mut T)
        ensures
            *data == old(self)@.data,
            final(self)@ == (CachedValueView { data: *final(data), lifetime: old(self)@.lifetime }),
    {
        self.renew_at(Instant::now());
        &mut self.data
    }
}

/// What is left of `values` when each value whose flag in `expired` is set
/// is taken out: the others, in their order.
pub open spec fn kept<T>(values: Seq<T>, expired: Seq<bool>) -> Seq<T>
    decreases values.len(),
{
    if values.len() == 0 || expired.len() == 0 {
        Seq::empty()
    } else if expired[0] {
        kept(values.drop_first(), expired.drop_first())
    } else {
        seq![values[0]] + kept(values.drop_first(), expired.drop_first())
    }
}

/// One value more at the front is kept or not as its flag says.
pub proof fn lemma_kept_front<T>(value: T, values: Seq<T>, flag: bool, expired: Seq<bool>)
    ensures
        kept(seq![value] + values, seq![flag] + expired) == if flag {
            kept(values, expired)
        } else {
            seq![value] + kept(values, expired)
        },
{
    assert((seq![value] + values).drop_first() =~= values);
    assert((seq![flag] + expired).drop_first() =~= expired);
}

/// Whether `held` is what is left of `values` when the values from place
/// `from` on have been sifted by their flags in `expired`.
pub open spec fn sifted<T>(values: Seq<T>, from: int, expired: Seq<bool>, held: Seq<T>) -> bool {
    &&& 0 <= from <= values.len() == expired.len()
    &&& held == values.take(from) + kept(values.skip(from), expired.skip(from))
}

/// Before any value has been sifted, all are held.
pub proof fn lemma_sift_start<T>(values: Seq<T>, expired: Seq<bool>)
    requires
        values.len() == expired.len(),
    ensures
        sifted(values, values.len() as int, expired, values),
{
    assert(values.take(values.len() as int) + kept(
        values.skip(values.len() as int),
        expired.skip(values.len() as int),
    ) =~= values);
}

/// The value before the ones that have been sifted is taken out if its flag
/// is set.
pub proof fn lemma_sift_step<T>(values: Seq<T>, i: int, expired: Seq<bool>, held: Seq<T>)
    requires
        0 <= i < values.len(),
        sifted(values, i + 1, expired, held),
    ensures
        i < held.len(),
        held[i] == values[i],
        sifted(values, i, expired, if expired[i] {
            held.remove(i)
        } else {
            held
        }),
{
    let rest = kept(values.skip(i + 1), expired.skip(i + 1));
    lemma_kept_front(values[i], values.skip(i + 1), expired[i], expired.skip(i + 1));
    assert(values.skip(i) =~= seq![values[i]] + values.skip(i + 1));
    assert(expired.skip(i) =~= seq![expired[i]] + expired.skip(i + 1));
    assert(values.take(i + 1) =~= values.take(i).push(values[i]));
    assert((values.take(i + 1) + rest).remove(i) =~= values.take(i) + rest);
    assert(values.take(i + 1) + rest =~= values.take(i) + (seq![values[i]] + rest));
}

/// When every value has been sifted, what is held is what was kept.
pub proof fn lemma_sift_end<T>(values: Seq<T>, expired: Seq<bool>, held: Seq<T>)
    requires
        sifted(values, 0, expired, held),
    ensures
        held == kept(values, expired),
{
    assert(values.skip(0) =~= values);
    assert(expired.skip(0) =~= expired);
    assert(values.take(0) + kept(values, expired) =~= kept(values, expired));
}

/// Takes out of `values` each value whose flag in `expired` is set, and keeps
/// the others in their order.
pub fn remove_flagged<T>(values: &mut Vec<T>, expired: &Vec<bool>)
    requires
        old(values)@.len() == expired@.len(),
    ensures
        final(values)@ == kept(old(values)@, expired@),
{
    let ghost before = values@;
    let mut i: usize = values.len();
    proof {
        lemma_sift_start(before, expired@);
    }
    while i > 0
        invariant
            i <= before.len(),
            sifted(before, i as int, expired@, values@),
        decreases i,
    {
        i = i - 1;
        proof {
            lemma_sift_step(before, i as int, expired@, values@);
        }
        if expired[i] {
            let _ = values.remove(i);
        }
    }
    proof {
        lemma_sift_end(before, expired@, values@);
    }
}

/// Takes out of `values` each value whose flag in `expired` is set, and keeps
/// the others in their order.
pub fn remove_flagged_deque<T>(values: &mut VecDeque<T>, expired: &Vec<bool>)
    requires
        old(values)@.len() == expired@.len(),
    ensures
        final(values)@ == kept(old(values)@, expired@),
{
    let ghost before = values@;
    let mut i: usize = values.len();
    proof {
        lemma_sift_start(before, expired@);
    }
    while i > 0
        invariant
            i <= before.len(),
            sifted(before, i as int, expired@, values@),
        decreases i,
    {
        i = i - 1;
        proof {
            lemma_sift_step(before, i as int, expired@, values@);
        }
        if expired[i] {
            let _ = values.remove(i);
        }
    }
    proof {
        lemma_sift_end(before, expired@, values@);
    }
}

/// A collection of cached values that can drop those that have expired.
pub trait CacheContainer {
    /// Drops the values that have expired by now and keeps the others in
    /// their order.
    fn remove_expired(&mut self);
}

impl<T> CacheContainer for Vec<CachedValue<T>> {
    /// Asks every value once whether it has expired, and takes out those
    /// that have.
    fn remove_expired(&mut self)
        ensures
            exists|expired: Seq<bool>|
                may_answer_all(old(self)@, expired) && final(self)@ == #[trigger] kept(
                    old(self)@,
                    expired,
                ),
    {
        let mut expired: Vec<bool> = Vec::new();
        let mut i: usize = 0;
        while i < self.len()
            invariant
                i <= self@.len(),
                self@ == old(self)@,
                may_answer_all(self@.take(i as int), expired@),
            decreases self@.len() - i,
        {
            let gone = self[i].has_expired();
            proof {
                let flags = expired@.push(gone);
                assert forall|k: int| 0 <= k <= i implies (#[trigger] self@.take(i + 1)[k])@.may_answer(
                    flags[k],
                ) by {
                    if k < i {
                        assert(self@.take(i as int)[k]@.may_answer(expired@[k]));
                    }
                }
            }
            expired.push(gone);
            i = i + 1;
        }
        assert(self@.take(self@.len() as int) =~= self@);
        remove_flagged(self, &expired);
    }
}

impl<T> CacheContainer for VecDeque<CachedValue<T>> {
    /// Asks every value once whether it has expired, and takes out those
    /// that have.
    fn remove_expired(&mut self)
        ensures
            exists|expired: Seq<bool>|
                may_answer_all(old(self)@, expired) && final(self)@ == #[trigger] kept(
                    old(self)@,
                    expired,
                ),
    {
        let mut expired: Vec<bool> = Vec::new();
        let mut i: usize = 0;
        while i < self.len()
            invariant
                i <= self@.len(),
                self@ == old(self)@,
                may_answer_all(self@.take(i as int), expired@),
            decreases self@.len() - i,
        {
            let gone = self[i].has_expired();
            proof {
                let flags = expired@.push(gone);
                assert forall|k: int| 0 <= k <= i implies (#[trigger] self@.take(i + 1)[k])@.may_answer(
                    flags[k],
                ) by {
                    if k < i {
                        assert(self@.take(i as int)[k]@.may_answer(expired@[k]));
                    }
                }
            }
            expired.push(gone);
            i = i + 1;
        }
        assert(self@.take(self@.len() as int) =~= self@);
        remove_flagged_deque(self, &expired);
    }
}

} // verus!
