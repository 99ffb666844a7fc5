//! A character cursor: a position in an immutable buffer of characters.
//!
//! Copying a cursor is a copy of one reference and one index, so a parser can
//! probe ahead on a copy and commit on the original only when the probe
//! succeeded.

use vstd::prelude::*;
use vstd::slice::slice_subrange;

verus! {

/// A position in a buffer of characters.  Its view is the text that has not
/// been consumed yet.
#[derive(Clone, Copy, Debug)]
pub struct Cursor<'a> {
    text: &'a [char],
    pos: usize,
}

impl<'a> View for Cursor<'a> {
    type V = Seq<char>;

    closed spec fn view(&self) -> Seq<char> {
        self.text@.skip(self.pos as int)
    }
}

impl<'a> Cursor<'a> {
    #[verifier::type_invariant]
    spec fn in_bounds(self) -> bool {
        self.pos <= self.text@.len()
    }

    /// A cursor at the start of `text`.
    pub fn new(text: &'a [char]) -> (cursor: Cursor<'a>)
        ensures
            cursor@ == text@,
    {
        Cursor { text, pos: 0 }
    }

    /// The number of characters that are left.
    pub fn len(&self) -> (n: usize)
        ensures
            n == self@.len(),
    {
        proof {
            use_type_invariant(self);
        }
        self.text.len() - self.pos
    }

    /// The character `offset` places ahead, if the text reaches that far.
    /// The cursor does not move.
    pub fn peek_at(&self, offset: usize) -> (c: Option<char>)
        ensures
            c == (if offset < self@.len() {
                Some(self@[offset as int])
            } else {
                None
            }),
    {
        proof {
            use_type_invariant(self);
        }
        if offset < self.text.len() - self.pos {
            Some(self.text[self.pos + offset])
        } else {
            None
        }
    }

    /// The next character, if any.  The cursor does not move.
    pub fn peek(&self) -> (c: Option<char>)
        ensures
            c == (if self@.len() > 0 {
                Some(self@[0])
            } else {
                None
            }),
    {
        self.peek_at(0)
    }

    /// Takes the next character off the text.  At the end of the text the
    /// cursor stays where it is.
    pub fn next(&mut self) -> (c: Option<char>)
        ensures
            old(self)@.len() > 0 ==> c == Some(old(self)@[0]) && final(self)@ == old(self)@.drop_first(),
            old(self)@.len() == 0 ==> c is None && final(self)@ == old(self)@,
    {
        proof {
            use_type_invariant(&*self);
        }
        if self.pos < self.text.len() {
            let c = self.text[self.pos];
            self.pos = self.pos + 1;
            Some(c)
        } else {
            None
        }
    }

    /// The text from `from` to `to` characters ahead, as a string.  The
    /// cursor does not move.
    pub fn slice_text(&self, from: usize, to: usize) -> (text: String)
        requires
            from <= to <= self@.len(),
        ensures
            text@ == self@.subrange(from as int, to as int),
    {
        let mut text = String::new();
        let mut i: usize = from;
        while i < to
            invariant
                from <= i <= to <= self@.len(),
                text@ == self@.subrange(from as int, i as int),
            decreases to - i,
        {
            match self.peek_at(i) {
                Some(c) => {
                    text.push(c);
                },
                None => {},
            }
            i = i + 1;
        }
        text
    }

    /// Moves `n` characters ahead, or to the end of the text where fewer are
    /// left.
    pub fn advance(&mut self, n: usize)
        ensures
            n <= old(self)@.len() ==> final(self)@ == old(self)@.skip(n as int),
            n > old(self)@.len() ==> final(self)@ == Seq::<char>::empty(),
    {
        proof {
            use_type_invariant(&*self);
        }
        if n <= self.text.len() - self.pos {
            self.pos = self.pos + n;
        } else {
            self.pos = self.text.len();
        }
    }
}

/// The classes of characters that the parsers scan runs of.
#[derive(Clone, Copy, Debug)]
pub enum CharClass {
    /// Space, tab, carriage return and line feed.
    Blank,
    /// The ASCII digits `0` to `9`.
    Digit,
    /// The characters with the Unicode property `White_Space`.
    WhiteSpace,
}

/// Whether the character with the code `code` has the Unicode property
/// `White_Space`.
pub open spec fn is_white_space_code(code: u32) -> bool {
    ||| 0x09 <= code <= 0x0D
    ||| code == 0x20
    ||| code == 0x85
    ||| code == 0xA0
    ||| code == 0x1680
    ||| 0x2000 <= code <= 0x200A
    ||| code == 0x2028
    ||| code == 0x2029
    ||| code == 0x202F
    ||| code == 0x205F
    ||| code == 0x3000
}

impl CharClass {
    /// Whether `c` belongs to the class.
    pub open spec fn contains(self, c: char) -> bool {
        match self {
            CharClass::Blank => c == ' ' || c == '\t' || c == '\r' || c == '\n',
            CharClass::Digit => '0' <= c && c <= '9',
            CharClass::WhiteSpace => is_white_space_code(c as u32),
        }
    }

    /// Whether `c` belongs to the class.
    pub fn holds(self, c: char) -> (b: bool)
        ensures
            b == self.contains(c),
    {
        match self {
            CharClass::Blank => c == ' ' || c == '\t' || c == '\r' || c == '\n',
            CharClass::Digit => '0' <= c && c <= '9',
            CharClass::WhiteSpace => {
                let code = c as u32;
                (0x09 <= code && code <= 0x0D) || code == 0x20 || code == 0x85 || code == 0xA0
                    || code == 0x1680 || (0x2000 <= code && code <= 0x200A) || code == 0x2028
                    || code == 0x2029 || code == 0x202F || code == 0x205F || code == 0x3000
            },
        }
    }
}

/// The length of the longest prefix of `s` whose characters all belong to
/// `class`.
pub open spec fn run_len(s: Seq<char>, class: CharClass) -> nat
    decreases s.len(),
{
    if s.len() > 0 && class.contains(s[0]) {
        1 + run_len(s.drop_first(), class)
    } else {
        0
    }
}

/// A run lies within the text, holds only characters of its class, and ends
/// at the end of the text or before a character that is not of the class.
pub proof fn lemma_run_len(s: Seq<char>, class: CharClass)
    ensures
        run_len(s, class) <= s.len(),
        forall|i: int| 0 <= i < run_len(s, class) ==> class.contains(#[trigger] s[i]),
        run_len(s, class) < s.len() ==> !class.contains(s[run_len(s, class) as int]),
    decreases s.len(),
{
    if s.len() > 0 && class.contains(s[0]) {
        let tail = s.drop_first();
        lemma_run_len(tail, class);
        assert forall|i: int| 0 <= i < run_len(s, class) implies class.contains(#[trigger] s[i]) by {
            if i > 0 {
                assert(s[i] == tail[i - 1]);
            }
        }
        if run_len(s, class) < s.len() {
            assert(s[run_len(s, class) as int] == tail[run_len(tail, class) as int]);
        }
    }
}

/// The run of `class` at the start of `s` is the only prefix that holds
/// characters of the class alone and cannot be made longer.
pub proof fn lemma_run_len_is(s: Seq<char>, class: CharClass, n: nat)
    requires
        n <= s.len(),
        forall|i: int| 0 <= i < n ==> class.contains(#[trigger] s[i]),
        n < s.len() ==> !class.contains(s[n as int]),
    ensures
        run_len(s, class) == n,
    decreases s.len(),
{
    if n > 0 {
        let tail = s.drop_first();
        assert(class.contains(s[0]));
        assert forall|i: int| 0 <= i < n - 1 implies class.contains(#[trigger] tail[i]) by {
            assert(tail[i] == s[i + 1]);
        }
        if n - 1 < tail.len() {
            assert(tail[n - 1] == s[n as int]);
        }
        lemma_run_len_is(tail, class, (n - 1) as nat);
    }
}

/// The length of the run of `class` that starts `start` characters ahead of
/// the cursor.  The cursor does not move.
pub fn scan_run(cursor: &Cursor, start: usize, class: CharClass) -> (n: usize)
    requires
        start <= cursor@.len(),
    ensures
        n == run_len(cursor@.skip(start as int), class),
        start + n <= cursor@.len(),
        start + n <= usize::MAX,
{
    let ghost rest = cursor@.skip(start as int);
    let total = cursor.len();
    let mut n: usize = 0;
    while start + n < total
        invariant
            total == cursor@.len(),
            start + n <= total,
            rest == cursor@.skip(start as int),
            forall|i: int| 0 <= i < n ==> class.contains(#[trigger] rest[i]),
        decreases total - start - n,
    {
        match cursor.peek_at(start + n) {
            Some(c) => {
                if !class.holds(c) {
                    proof {
                        lemma_run_len_is(rest, class, n as nat);
                    }
                    return n;
                }
            },
            None => {},
        }
        n = n + 1;
    }
    proof {
        lemma_run_len_is(rest, class, n as nat);
    }
    n
}

/// Whether the text at the cursor begins with `needle`, and if so, how many
/// characters `needle` has.  The cursor does not move.
pub fn match_len(haystack: &Cursor, needle: &str) -> (len: Option<usize>)
    ensures
        len is Some == needle@.is_prefix_of(haystack@),
        len matches Some(n) ==> n == needle@.len(),
{
    broadcast use vstd::string::group_string_axioms;

    let total = haystack.len();
    let mut n: usize = 0;
    for c in it: needle.chars()
        invariant
            it.seq() == needle@,
            n == it.index(),
            n <= total == haystack@.len(),
            forall|k: int| 0 <= k < n ==> haystack@[k] == needle@[k],
    {
        match haystack.peek_at(n) {
            Some(h) => {
                if h != c {
                    return None;
                }
            },
            None => {
                return None;
            },
        }
        n = n + 1;
    }
    assert(needle@ =~= haystack@.subrange(0, needle@.len() as int));
    Some(n)
}

/// Whether the text at the cursor begins with `needle`, whatever follows it.
/// The cursor does not move.
pub fn starts_with(haystack: &Cursor, needle: &str) -> (found: bool)
    ensures
        found == needle@.is_prefix_of(haystack@),
{
    match_len(haystack, needle).is_some()
}

/// Moves the cursor past `needle` where the text at the cursor begins with
/// it, and leaves the cursor alone where it does not.
pub fn matches_with(haystack: &mut Cursor, needle: &str) -> (found: bool)
    ensures
        found == needle@.is_prefix_of(old(haystack)@),
        found ==> final(haystack)@ == old(haystack)@.skip(needle@.len() as int),
        !found ==> final(haystack)@ == old(haystack)@,
{
    match match_len(haystack, needle) {
        Some(n) => {
            haystack.advance(n);
            true
        },
        None => false,
    }
}

/// Moves the cursor past the blanks (space, tab, carriage return, line feed)
/// at its position and returns how many there were.
pub fn consume_whitespaces(it: &mut Cursor) -> (skip: usize)
    ensures
        skip == run_len(old(it)@, CharClass::Blank),
        final(it)@ == old(it)@.skip(skip as int),
{
    assert(it@.skip(0) =~= it@);
    let skip = scan_run(it, 0, CharClass::Blank);
    it.advance(skip);
    skip
}

/// Takes all that is left of the text and returns it as a string.
pub fn collect_iterator(it: &mut Cursor) -> (rest: String)
    ensures
        rest@ == old(it)@,
        final(it)@ == Seq::<char>::empty(),
{
    let total = it.len();
    let rest = it.slice_text(0, total);
    assert(it@.subrange(0, total as int) =~= it@);
    it.advance(total);
    assert(old(it)@.skip(total as int) =~= Seq::<char>::empty());
    rest
}

/// The text without the white space at its start and at its end.
pub open spec fn trim(s: Seq<char>) -> Seq<char> {
    let start = run_len(s, CharClass::WhiteSpace) as int;
    let end = s.len() - run_len(s.reverse(), CharClass::WhiteSpace);
    if start < end {
        s.subrange(start, end)
    } else {
        Seq::empty()
    }
}

/// The part of `text` between the white space at its start and the white
/// space at its end.
pub fn trimmed<'a>(text: &'a [char]) -> (line: &'a [char])
    ensures
        line@ == trim(text@),
{
    let ghost mirror = text@.reverse();
    let total = text.len();
    let mut start: usize = 0;
    while start < total && CharClass::WhiteSpace.holds(text[start])
        invariant
            start <= total == text@.len(),
            forall|i: int| 0 <= i < start ==> CharClass::WhiteSpace.contains(#[trigger] text@[i]),
        decreases total - start,
    {
        start = start + 1;
    }
    let mut end: usize = total;
    while end > 0 && CharClass::WhiteSpace.holds(text[end - 1])
        invariant
            end <= total == text@.len(),
            mirror == text@.reverse(),
            forall|i: int| 0 <= i < total - end ==> CharClass::WhiteSpace.contains(#[trigger] mirror[i]),
        decreases end,
    {
        end = end - 1;
        assert(mirror[total - end - 1] == text@[end as int]);
    }
    proof {
        lemma_run_len_is(text@, CharClass::WhiteSpace, start as nat);
        if end > 0 {
            assert(mirror[total - end] == text@[end - 1]);
        }
        lemma_run_len_is(mirror, CharClass::WhiteSpace, (total - end) as nat);
    }
    if start < end {
        slice_subrange(text, start, end)
    } else {
        assert(text@.subrange(0, 0) =~= Seq::<char>::empty());
        slice_subrange(text, 0, 0)
    }
}

/// The characters of `s`, one by one, as a buffer that a [`Cursor`] can walk.
pub fn to_chars(s: &str) -> (buffer: Vec<char>)
    ensures
        buffer@ == s@,
{
    broadcast use vstd::string::group_string_axioms;

    let mut buffer: Vec<char> = Vec::new();
    for c in it: s.chars()
        invariant
            it.seq() == s@,
            buffer@ == s@.take(it.index()),
    {
        buffer.push(c);
    }
    buffer
}

} // verus!
