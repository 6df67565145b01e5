use isograph_parser::{clean_block_string, get_common_indent, is_not_whitespace, line_is_whitespace};

#[test]
fn a_block_string_dedents() {
    assert_eq!(clean_block_string("hi"), "hi");
    assert_eq!(clean_block_string("\n  hello\n  world\n"), "hello\nworld");
    assert_eq!(clean_block_string("   hi"), "   hi");
    assert_eq!(clean_block_string(r#"foo\"\"\"bar"#), r#"foo\"\"\"bar"#);
}

#[test]
fn the_common_indent_ignores_the_first_line_and_blank_lines() {
    assert_eq!(get_common_indent("first\n    a\n  b\n      \n"), 2);
    assert_eq!(get_common_indent("    only the first line"), 0);
    assert_eq!(get_common_indent(""), 0);
    assert_eq!(get_common_indent("x\n\t\ty"), 2);
}

#[test]
fn whitespace_is_spaces_and_tabs() {
    assert!(!is_not_whitespace(' '));
    assert!(!is_not_whitespace('\t'));
    assert!(is_not_whitespace('\n'));
    assert!(is_not_whitespace('a'));
    assert!(line_is_whitespace(" \t "));
    assert!(line_is_whitespace(""));
    assert!(!line_is_whitespace("  x"));
}

#[test]
fn dedenting_keeps_relative_indentation_and_drops_blank_edges() {
    assert_eq!(
        clean_block_string("\n    first\n      nested\n    last\n   \n"),
        "first\n  nested\nlast"
    );
    assert_eq!(clean_block_string("\r\n  a\r\n  b"), "a\nb");
    assert_eq!(clean_block_string("  \n \n"), "");
    assert_eq!(clean_block_string("head\n  short\n    long"), "head\nshort\n  long");
}

#[test]
fn indenting_every_line_after_the_first_changes_nothing() {
    let source = "first\n  second\n\n    third\n";
    let indented = source.replace('\n', "\n \t");
    assert_eq!(clean_block_string(&indented), clean_block_string(source));
    assert_eq!(clean_block_string(source), "first\nsecond\n\n  third");
}

#[test]
fn blank_lines_at_both_ends_are_dropped_and_inner_ones_kept() {
    assert_eq!(clean_block_string("  \n\n  a\n\n  b\n  \n"), "a\n\nb");
    assert_eq!(clean_block_string(" \n \t\n"), "");
}
