//! The grammar of the commands as a text that can be shown to a user.
//!
//! The grammar stands between two fences in the documentation header of the
//! command compiler.  It is cut out of a copy of that header, so that what a
//! user is sent is what the documentation says.

use vstd::prelude::*;
use crate::cursor::{match_len, to_chars, Cursor};

verus! {

/// The number of lines of a source text that are looked at.
pub const MAX_HEADER_LINES: usize = 100;

/// The number of bytes of the marker that begins a line of documentation:
/// two slashes, an exclamation mark and a space.
pub const MARKER_LEN: usize = 4;

/// The line that opens and closes the block of the grammar.
pub open spec fn fence() -> Seq<char> {
    "//! ```"@
}

/// The lines of a text.  A line ends before a line feed or at the end of the
/// text, so a text with `n` line feeds has `n + 1` lines.  `current` is what
/// has been read of the line that `rest` goes on with.
pub open spec fn lines_from(current: Seq<char>, rest: Seq<char>) -> Seq<Seq<char>>
    decreases rest.len(),
{
    if rest.len() == 0 {
        seq![current]
    } else if rest[0] == '\n' {
        seq![current] + lines_from(Seq::empty(), rest.drop_first())
    } else {
        lines_from(current.push(rest[0]), rest.drop_first())
    }
}

/// The lines of `text`.
pub open spec fn lines(text: Seq<char>) -> Seq<Seq<char>> {
    lines_from(Seq::empty(), text)
}

/// The number of bytes that write the character `c` in UTF-8.
pub open spec fn utf8_len(c: char) -> nat {
    if (c as u32) < 0x80 {
        1
    } else if (c as u32) < 0x800 {
        2
    } else if (c as u32) < 0x1_0000 {
        3
    } else {
        4
    }
}

/// The number of bytes that write `text` in UTF-8.
pub open spec fn utf8_size(text: Seq<char>) -> nat
    decreases text.len(),
{
    if text.len() == 0 {
        0
    } else {
        utf8_size(text.drop_last()) + utf8_len(text.last())
    }
}

/// Whether the first `n` characters of `line` are what the marker covers:
/// the shortest start of the line that takes as many bytes as the marker, or
/// more; all of the line where it takes fewer.
pub open spec fn is_marker_chars(line: Seq<char>, n: int) -> bool {
    &&& 0 <= n <= line.len()
    &&& utf8_size(line.take(n)) >= MARKER_LEN || n == line.len()
    &&& forall|m: int| 0 <= m < n ==> utf8_size(#[trigger] line.take(m)) < MARKER_LEN
}

/// The number of characters of `line` that the marker covers.
pub open spec fn marker_chars(line: Seq<char>) -> int {
    choose|n: int| is_marker_chars(line, n)
}

/// Whether `line` can be cut behind the marker: it has a character boundary
/// at its fourth byte.
pub open spec fn has_marker_boundary(line: Seq<char>) -> bool {
    utf8_size(line.take(marker_chars(line))) == MARKER_LEN
}

/// A line without the bytes of the marker of documentation at its start,
/// with a line feed at its end: the line loses the shortest run of
/// characters at its start that take four bytes.  A line without a character
/// boundary at its fourth byte loses the character that lies across it too,
/// and a line of fewer bytes loses all its characters.
pub open spec fn grammar_line(line: Seq<char>) -> Seq<char> {
    line.skip(marker_chars(line)).push('\n')
}

/// The marker covers one number of characters only.
pub proof fn lemma_marker_chars(line: Seq<char>, n: int)
    requires
        is_marker_chars(line, n),
    ensures
        marker_chars(line) == n,
{
    let chosen = marker_chars(line);
    if chosen < n {
        assert(utf8_size(line.take(chosen)) < MARKER_LEN);
    } else if n < chosen {
        assert(utf8_size(line.take(n)) < MARKER_LEN);
    }
}

/// One character more takes its own bytes more.
pub proof fn lemma_utf8_size_take(text: Seq<char>, n: int)
    requires
        0 <= n < text.len(),
    ensures
        utf8_size(text.take(n + 1)) == utf8_size(text.take(n)) + utf8_len(text[n]),
{
    assert(text.take(n + 1).drop_last() =~= text.take(n));
}

/// A longer start of a text takes more bytes.
pub proof fn lemma_utf8_size_grows(text: Seq<char>, m: int, n: int)
    requires
        0 <= m < n <= text.len(),
    ensures
        utf8_size(text.take(m)) < utf8_size(text.take(n)),
    decreases n - m,
{
    lemma_utf8_size_take(text, n - 1);
    if m < n - 1 {
        lemma_utf8_size_grows(text, m, n - 1);
    }
}

/// Where a start of the line takes just the bytes of the marker, the marker
/// covers that start: the line is cut at its fourth byte.
pub proof fn lemma_marker_boundary(line: Seq<char>, n: int)
    requires
        0 <= n <= line.len(),
        utf8_size(line.take(n)) == MARKER_LEN,
    ensures
        marker_chars(line) == n,
        has_marker_boundary(line),
        grammar_line(line) == line.skip(n).push('\n'),
{
    assert forall|m: int| 0 <= m < n implies utf8_size(#[trigger] line.take(m)) < MARKER_LEN by {
        lemma_utf8_size_grows(line, m, n);
    }
    lemma_marker_chars(line, n);
}

/// On a line that begins with four ASCII characters the marker covers just
/// these four: each of them takes one byte.
pub proof fn lemma_ascii_marker(line: Seq<char>)
    requires
        line.len() >= MARKER_LEN,
        forall|i: int| 0 <= i < MARKER_LEN ==> (#[trigger] line[i] as u32) < 0x80,
    ensures
        marker_chars(line) == MARKER_LEN,
        has_marker_boundary(line),
        grammar_line(line) == line.skip(MARKER_LEN as int).push('\n'),
{
    assert(line.take(0) =~= Seq::<char>::empty());
    lemma_utf8_size_take(line, 0);
    lemma_utf8_size_take(line, 1);
    lemma_utf8_size_take(line, 2);
    lemma_utf8_size_take(line, 3);
    lemma_marker_boundary(line, 4);
}

/// The number of bytes that write the character `c` in UTF-8.
pub fn utf8_len_of(c: char) -> (len: usize)
    ensures
        len == utf8_len(c),
        1 <= len <= 4,
{
    let code = c as u32;
    if code < 0x80 {
        1
    } else if code < 0x800 {
        2
    } else if code < 0x1_0000 {
        3
    } else {
        4
    }
}

/// The number of characters of `line` that the marker covers.
pub fn marker_chars_of(line: &Vec<char>) -> (n: usize)
    ensures
        n == marker_chars(line@),
        n <= line@.len(),
{
    let mut n: usize = 0;
    let mut bytes: usize = 0;
    assert(line@.take(0) =~= Seq::<char>::empty());
    while n < line.len() && bytes < MARKER_LEN
        invariant
            n <= line@.len(),
            bytes == utf8_size(line@.take(n as int)),
            bytes <= 7,
            forall|m: int| 0 <= m < n ==> utf8_size(#[trigger] line@.take(m)) < MARKER_LEN,
        decreases line@.len() - n,
    {
        proof {
            lemma_utf8_size_take(line@, n as int);
        }
        bytes = bytes + utf8_len_of(line[n]);
        n = n + 1;
    }
    proof {
        lemma_marker_chars(line@, n as int);
    }
    n
}

/// The grammar in the lines from place `from` on: nothing up to the first
/// fence, then each line, the fence too, up to the first empty line or the
/// end of the header.  `in_block` says that a fence stands before `from`.
pub open spec fn grammar_from(source: Seq<Seq<char>>, from: int, in_block: bool) -> Seq<char>
    decreases source.len() - from,
{
    if from < 0 || from >= source.len() || from >= MAX_HEADER_LINES {
        Seq::empty()
    } else if !in_block && source[from] != fence() {
        grammar_from(source, from + 1, false)
    } else if source[from].len() == 0 {
        Seq::empty()
    } else {
        grammar_line(source[from]) + grammar_from(source, from + 1, true)
    }
}

/// The grammar that the documentation header of `source` holds.
pub open spec fn spec_grammar(source: Seq<char>) -> Seq<char> {
    grammar_from(lines(source), 0, false)
}

/// The lines that the vectors of `lines` hold.
pub open spec fn line_views(lines: Seq<Vec<char>>) -> Seq<Seq<char>> {
    Seq::new(lines.len(), |i: int| lines[i]@)
}

/// The lines of `text`.
pub fn split_lines(text: &Vec<char>) -> (result: Vec<Vec<char>>)
    ensures
        line_views(result@) == lines(text@),
{
    let mut result: Vec<Vec<char>> = Vec::new();
    let mut current: Vec<char> = Vec::new();
    let mut i: usize = 0;
    assert(text@.skip(0) =~= text@);
    assert(line_views(result@) =~= Seq::<Seq<char>>::empty());
    while i < text.len()
        invariant
            i <= text.len(),
            lines(text@) == line_views(result@) + lines_from(current@, text@.skip(i as int)),
        decreases text.len() - i,
    {
        let c = text[i];
        let ghost rest = text@.skip(i as int);
        assert(rest[0] == c);
        assert(rest.drop_first() =~= text@.skip(i + 1));
        if c == '\n' {
            let ghost before = line_views(result@);
            let ghost line = current@;
            result.push(current);
            current = Vec::new();
            assert(line_views(result@) =~= before.push(line));
            assert(before + (seq![line] + lines_from(Seq::empty(), rest.drop_first()))
                =~= before.push(line) + lines_from(Seq::empty(), rest.drop_first()));
        } else {
            current.push(c);
        }
        i = i + 1;
    }
    let ghost before = line_views(result@);
    let ghost line = current@;
    result.push(current);
    assert(line_views(result@) =~= before.push(line));
    assert(before + seq![line] =~= before.push(line));
    result
}

/// Whether `line` is the fence of the block.
pub fn is_fence(line: &Vec<char>) -> (found: bool)
    ensures
        found == (line@ == fence()),
{
    let cursor = Cursor::new(line.as_slice());
    match match_len(&cursor, "//! ```") {
        Some(n) => {
            assert(fence() =~= line@.subrange(0, n as int));
            if n == line.len() {
                assert(line@.subrange(0, n as int) =~= line@);
                true
            } else {
                false
            }
        },
        None => {
            assert(line@ =~= line@.subrange(0, line@.len() as int));
            false
        },
    }
}

/// Cuts the grammar out of the documentation header of a source text: the
/// lines from the first fence to the first empty line after it, each without
/// the four bytes of the marker of documentation.  Lines behind the first
/// hundred are not looked at.  Every line of the block is meant to have a
/// character boundary at its fourth byte (`has_marker_boundary`); what is made
/// of a line that has none is said at `grammar_line`.
pub fn grammar_block(source: &str) -> (grammar: String)
    ensures
        grammar@ == spec_grammar(source@),
{
    let text = to_chars(source);
    let all = split_lines(&text);
    let mut grammar = String::new();
    let mut in_block = false;
    let mut i: usize = 0;
    while i < all.len() && i < MAX_HEADER_LINES
        invariant
            i <= all.len(),
            spec_grammar(source@) == grammar@ + grammar_from(line_views(all@), i as int, in_block),
        decreases all.len() - i,
    {
        let line = &all[i];
        assert(line_views(all@)[i as int] == line@);
        if !in_block && is_fence(line) {
            in_block = true;
        }
        if in_block {
            if line.len() == 0 {
                assert(grammar@ + Seq::<char>::empty() =~= grammar@);
                return grammar;
            }
            let ghost before = grammar@;
            let start = marker_chars_of(line);
            let mut j: usize = start;
            while j < line.len()
                invariant
                    start <= j <= line.len(),
                    grammar@ == before + line@.subrange(start as int, j as int),
                decreases line.len() - j,
            {
                grammar.push(line[j]);
                j = j + 1;
            }
            grammar.push('\n');
            assert(grammar@ =~= before + grammar_line(line@)) by {
                assert(line@.subrange(start as int, line@.len() as int) =~= line@.skip(
                    start as int,
                ));
            }
            assert((before + grammar_line(line@)) + grammar_from(
                line_views(all@),
                i + 1,
                true,
            ) =~= before + (grammar_line(line@) + grammar_from(line_views(all@), i + 1, true)));
        }
        i = i + 1;
    }
    assert(grammar@ + Seq::<char>::empty() =~= grammar@);
    grammar
}

/// The documentation header of the command compiler, which holds the grammar
/// between two fences, and the empty line that ends it.
pub const GRAMMAR_SOURCE: &'static str = "\
    //! # user_input_compiler\n\
    //!\n\
    //! Parses Input with this Grammar after trimming the Input and ignoring Whitespaces:\n\
    //!\n\
    //! ```\n\
    //! Command         := \"/\" CommandWord\n\
    //! CommandWord     := Status | Subscribe | Cancel | Version | Help | WebCam | Start | Grammar | InvalidSyntax\n\
    //! Status          := \"status\" | \"crowd\"\n\
    //! Subscribe       := \"subscribe\" SensorSelector Duration\n\
    //! SensorSelector  := SensorString OptionalInteger\n\
    //! SensorString    := \"account_balance\" | \"barometer\" | \"beverage_supply\" | \"door_locked\" | \"humidity\" | \"network_connections\" | \"power_consumption\" | \"temperature\" | \"total_member_count\" | \"radiation.alpha\" | \"radiation.beta_gamma\" | \"radiation.beta\" | \"radiation.gamma\" | \"people_now_present\" | \"wind\"\n\
    //! OptionalInteger := Integer | \u{25b}\n\
    //! Integer         := [0-9]*\n\
    //! Duration        := Real TimeSuffix\n\
    //! TimeSuffix      := \"m\" | \"min\" | \"h\" | \"d\"\n\
    //! Real            := Integer \".\" Integer | Integer\n\
    //! Cancel          := \"cancel\"\n\
    //! Version         := \"version\"\n\
    //! Help            := \"help\"\n\
    //! WebCam          := \"webcam\" OptionalInteger\n\
    //! Start           := \"start\"\n\
    //! Grammar         := \"grammar\"\n\
    //! InvalidSyntax   := *\n\
    //! ```\n\
    \n";

/// The grammar of the commands, between its two fences.
pub fn get_grammar_string() -> (grammar: String)
    ensures
        grammar@ == spec_grammar(GRAMMAR_SOURCE@),
{
    grammar_block(GRAMMAR_SOURCE)
}

/// The start of `text` up to the first empty line, that line included, or
/// all of `text` where it has no empty line.  `at_line_start` says that
/// `text` begins a line, and `budget` is the number of lines that are still
/// looked at: what stands behind them is left out.
pub open spec fn header_from(text: Seq<char>, at_line_start: bool, budget: nat) -> Seq<char>
    decreases text.len(),
{
    if text.len() == 0 || budget == 0 {
        Seq::empty()
    } else if text[0] == '\n' {
        if at_line_start {
            seq!['\n']
        } else {
            seq!['\n'] + header_from(text.drop_first(), true, (budget - 1) as nat)
        }
    } else {
        seq![text[0]] + header_from(text.drop_first(), false, budget)
    }
}

/// The number of lines that `get_grammer_string` looks at.
pub const MAX_GRAMMER_LINES: usize = 101;

/// The first block of a source text: its lines up to the first empty line,
/// that line included, and none behind the first hundred and one.
pub fn get_grammer_string(source: &str) -> (grammer: String)
    ensures
        grammer@ == header_from(source@, true, MAX_GRAMMER_LINES as nat),
{
    let text = to_chars(source);
    let mut grammer = String::new();
    let mut at_line_start = true;
    let mut budget: usize = MAX_GRAMMER_LINES;
    let mut i: usize = 0;
    assert(text@.skip(0) =~= text@);
    assert(grammer@ + header_from(text@, true, budget as nat) =~= header_from(
        text@,
        true,
        budget as nat,
    ));
    while i < text.len() && budget > 0
        invariant
            i <= text.len(),
            text@ == source@,
            grammer@ + header_from(text@.skip(i as int), at_line_start, budget as nat)
                == header_from(source@, true, MAX_GRAMMER_LINES as nat),
        decreases text.len() - i,
    {
        let c = text[i];
        let ghost before = grammer@;
        let ghost rest = text@.skip(i as int);
        assert(rest[0] == c);
        assert(rest.drop_first() =~= text@.skip(i + 1));
        grammer.push(c);
        if c == '\n' {
            if at_line_start {
                assert(before + seq![c] =~= grammer@);
                return grammer;
            }
            at_line_start = true;
            budget = budget - 1;
        } else {
            at_line_start = false;
        }
        assert(before + (seq![c] + header_from(rest.drop_first(), at_line_start, budget as nat))
            =~= grammer@ + header_from(rest.drop_first(), at_line_start, budget as nat));
        i = i + 1;
    }
    assert(grammer@ + Seq::<char>::empty() =~= grammer@);
    grammer
}

} // verus!
