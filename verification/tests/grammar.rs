use coredump_bot::grammar::{
    get_grammar_string, get_grammer_string, grammar_block, marker_chars_of, split_lines,
    utf8_len_of, GRAMMAR_SOURCE,
};

#[test]
fn print_grammar_string() {
    let g: String = get_grammar_string();
    println!("alles: {:?}", g);
    assert!(g.is_empty() == false);
    assert_eq!(format!(":= *\n```\n"), g[(g.len() - 9)..]);
}

#[test]
fn grammar_begins_with_the_fence_and_the_first_rule() {
    let g = get_grammar_string();
    assert!(g.starts_with("```\nCommand         := \"/\" CommandWord\n"));
    assert_eq!(20, g.lines().count());
}

#[test]
fn grammar_block_strips_the_marker_and_stops_at_the_empty_line() {
    let source = "//! title\n//!\n//! ```\n//! A := B\n//! ```\n\n//! ```\n//! C := D\n";
    assert_eq!("```\nA := B\n```\n", grammar_block(source));
}

#[test]
fn grammar_block_without_a_fence_is_empty() {
    assert_eq!("", grammar_block("//! A := B\n//! C := D\n"));
    assert_eq!("", grammar_block(""));
}

#[test]
fn grammar_block_of_short_lines() {
    assert_eq!("```\n\nx\n", grammar_block("//! ```\n//!\n//! x"));
}

#[test]
fn grammar_block_looks_at_one_hundred_lines() {
    let mut late = String::new();
    for _ in 0..100 {
        late.push_str("//! text\n");
    }
    late.push_str("//! ```\n//! A := B\n");
    assert_eq!("", grammar_block(&late));

    let mut cut = String::new();
    for _ in 0..98 {
        cut.push_str("//! text\n");
    }
    cut.push_str("//! ```\n//! A := B\n//! C := D\n");
    assert_eq!("```\nA := B\n", grammar_block(&cut));
}

#[test]
fn split_lines_counts_one_line_more_than_line_feeds() {
    let text: Vec<char> = "a\n\nbc\n".chars().collect();
    let lines = split_lines(&text);
    let expected: Vec<Vec<char>> = vec![vec!['a'], vec![], vec!['b', 'c'], vec![]];
    assert_eq!(expected, lines);
    assert_eq!(1, split_lines(&Vec::new()).len());
}

#[test]
fn print_grammer_string() {
    let g: String = get_grammer_string(GRAMMAR_SOURCE);
    println!("alles: {:?}", g);
    assert!(g.is_empty() == false);
}

#[test]
fn grammer_string_is_the_first_block() {
    assert_eq!(GRAMMAR_SOURCE, get_grammer_string(GRAMMAR_SOURCE));
    assert_eq!("a\nb\n\n", get_grammer_string("a\nb\n\nc\n\nd"));
    assert_eq!("\n", get_grammer_string("\na\n"));
    assert_eq!("a\nb", get_grammer_string("a\nb"));
    assert_eq!("", get_grammer_string(""));
    let mut long = String::new();
    for _ in 0..150 {
        long.push_str("x\n");
    }
    assert_eq!(long[..202], get_grammer_string(&long));
}

/// The grammar of a source text, cut at bytes: each line of the block loses
/// its first four bytes.
fn grammar_by_bytes(file: &str) -> String {
    let mut grammar = String::new();
    let mut max_lines_to_read = 100;
    let mut skipping_header = true;
    for line in file.split('\n') {
        if max_lines_to_read > 0 {
            max_lines_to_read -= 1;
        } else {
            break;
        }
        if line == "//! ```" {
            skipping_header = false;
        }
        if skipping_header {
            continue;
        }
        if line == "" {
            return grammar;
        }
        let (_, line) = line.split_at(4);
        grammar = grammar + line + "\n";
    }
    grammar
}

#[test]
fn grammar_block_cuts_at_the_fourth_byte() {
    assert_eq!("```\nx\n", grammar_block("//! ```\n\u{e9}//x"));
    assert_eq!("```\n\u{25b}\n", grammar_block("//! ```\n\u{e9}\u{e9}\u{25b}"));
    assert_eq!("```\n!\n", grammar_block("//! ```\n\u{20ac}/!"));
    assert_eq!("```\n\u{1F61C}\n", grammar_block("//! ```\n\u{1F61C}\u{1F61C}"));
    assert_eq!("```\n//x\n", grammar_block("//! ```\n/\u{20ac}//x"));
    for source in [
        "//! ```\n\u{e9}//x",
        "//! ```\n\u{e9}\u{e9}\u{25b}\n//! b\n\n//! c",
        "//! ```\n\u{20ac}/!\n/\u{20ac}//x\n\u{1F61C}\u{1F61C}\n//! ```\n",
        "//! a\n//! ```\n//! A := \u{25b}\n//! ```\n\nrest",
        "no fence\n\u{e9}",
        GRAMMAR_SOURCE,
    ] {
        assert_eq!(grammar_by_bytes(source), grammar_block(source), "{:?}", source);
    }
    assert_eq!(grammar_by_bytes(GRAMMAR_SOURCE), get_grammar_string());
}

#[test]
fn grammar_block_of_lines_without_a_boundary_at_the_fourth_byte() {
    assert_eq!("```\nx\n", grammar_block("//! ```\n//\u{20ac}x"));
    assert_eq!("```\n\n", grammar_block("//! ```\n/\u{1F61C}"));
    assert_eq!("```\n\n", grammar_block("//! ```\n\u{e9}/"));
    assert_eq!("```\n\n", grammar_block("//! ```\n//!"));
}

#[test]
fn marker_chars_and_bytes_of_characters() {
    let chars = |text: &str| text.chars().collect::<Vec<char>>();
    assert_eq!(4, marker_chars_of(&chars("//! x")));
    assert_eq!(4, marker_chars_of(&chars("//! ")));
    assert_eq!(3, marker_chars_of(&chars("\u{e9}//x")));
    assert_eq!(2, marker_chars_of(&chars("\u{e9}\u{e9}x")));
    assert_eq!(2, marker_chars_of(&chars("\u{20ac}/x")));
    assert_eq!(1, marker_chars_of(&chars("\u{1F61C}x")));
    assert_eq!(3, marker_chars_of(&chars("//\u{20ac}x")));
    assert_eq!(3, marker_chars_of(&chars("//!")));
    assert_eq!(0, marker_chars_of(&chars("")));
    let mut code = 0u32;
    while code <= 0x10FFFF {
        if let Some(c) = char::from_u32(code) {
            assert_eq!(c.len_utf8(), utf8_len_of(c), "{:x}", code);
        }
        code += 1;
    }
}
