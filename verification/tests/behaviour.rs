use wpl_format::tree::{collect_separator_ranges, find_range_at, infer_closing_indent};
use wpl_format::{format_or_original, format_with_indent, WplFormatError, WplFormatter};

fn chars(s: &str) -> Vec<char> {
    s.chars().collect()
}

fn non_white(s: &str) -> String {
    s.chars().filter(|c| !c.is_whitespace()).collect()
}

fn check_layout(t: &str) {
    assert!(t.is_empty() || t.ends_with('\n'));
    assert!(!t.contains("\n\n\n"));
    assert!(!t.starts_with("\n\n"));
    for line in t.split('\n') {
        assert_eq!(line, line.trim_end());
    }
    if !t.is_empty() {
        let body = &t[..t.len() - 1];
        assert!(!body.ends_with(char::is_whitespace));
    }
}

#[test]
fn error_invalid_raw_string_start() {
    let err = wpl_format::formatter::format("r#x").unwrap_err();
    assert!(matches!(err, WplFormatError::InvalidRawStringStart { line: 1 }));
}

#[test]
fn error_unclosed_raw_string() {
    let err = wpl_format::formatter::format("a\nr#\"abc").unwrap_err();
    assert!(matches!(err, WplFormatError::UnclosedRawString { line: 2 }));
}

#[test]
fn raw_string_is_copied() {
    assert_eq!(wpl_format::formatter::format("x r##\"a \"# b\"##").unwrap(), "x r##\"a \"# b\"##\n");
}

#[test]
fn error_unclosed_annotation() {
    let err = wpl_format::formatter::format("#[tag").unwrap_err();
    assert!(matches!(
        err,
        WplFormatError::UnclosedBracket { open: '[', close: ']', line: 1 }
    ));
}

#[test]
fn error_unclosed_format() {
    let err = wpl_format::formatter::format("chars<abc").unwrap_err();
    assert!(matches!(
        err,
        WplFormatError::UnclosedBracket { open: '<', close: '>', line: 1 }
    ));
}

#[test]
fn error_unclosed_brace_reports_opener() {
    let err = wpl_format::formatter::format("package p {\n(a,b)").unwrap_err();
    assert!(matches!(
        err,
        WplFormatError::UnclosedBracket { open: '{', close: '}', line: 2 }
    ));
}

#[test]
fn error_mismatched_bracket() {
    let err = wpl_format::formatter::format("a\nb\n(x,\ny}").unwrap_err();
    assert!(matches!(
        err,
        WplFormatError::MismatchedBracket { expected: ')', found: '}', line: 4 }
    ));
}

#[test]
fn error_unexpected_closing_without_structure() {
    let f = WplFormatter::new();
    let err = f.format_chars(&chars("a}"), &Vec::new(), false).unwrap_err();
    assert!(matches!(
        err,
        WplFormatError::UnexpectedClosing { close: '}', line: 1 }
    ));
}

#[test]
fn unmatched_closer_takes_inferred_indent() {
    assert_eq!(wpl_format::formatter::format("a {\n(b)\n}\n}").unwrap(), "a {\n    (b)\n}\n}\n");
}

#[test]
fn raw_function_call_is_copied() {
    assert_eq!(
        wpl_format::formatter::format("rule r { (chars:x |kv(\"a\", \"b,c\")) }").unwrap(),
        "rule r {\n    (\n        chars:x | kv(\"a\", \"b,c\")\n    )\n}\n"
    );
}

#[test]
fn annotation_is_single_spaced() {
    assert_eq!(
        wpl_format::formatter::format("#[tag(a: \"1\",\n  b: \"2\")]\npackage p { rule r { (x) } }").unwrap(),
        "#[tag(a: \"1\", b: \"2\")]\npackage p {\n    rule r {\n        (x)\n    }\n}\n"
    );
}

#[test]
fn escaped_comma_stays_on_line() {
    assert_eq!(
        wpl_format::formatter::format("(chars\\,:a, digit:b)").unwrap(),
        "(\n    chars\\,:a,\n    digit:b\n)\n"
    );
}

#[test]
fn quote_format_marker() {
    assert_eq!(
        wpl_format::formatter::format("(chars\":name, digit:b)").unwrap(),
        "(\n    chars\":name,\n    digit:b\n)\n"
    );
}

#[test]
fn blank_lines_collapse() {
    assert_eq!(wpl_format::formatter::format("x \"a\n\n\nb\"").unwrap(), "x \"a\n\nb\"\n");
}

#[test]
fn crlf_line_endings() {
    assert_eq!(
        wpl_format::formatter::format("package p {\r\n(x)\r\n}").unwrap(),
        "package p {\n    (x)\n}\n"
    );
}

#[test]
fn zero_indent_means_one() {
    assert_eq!(format_with_indent("rule p { (x) }", 0).unwrap(), "rule p {\n (x)\n}\n");
}

#[test]
fn default_formatter_is_new() {
    let input = "package demo { rule test { (chars:name,digit:age) } }";
    assert_eq!(
        WplFormatter::default().format(input).unwrap(),
        wpl_format::formatter::format(input).unwrap()
    );
    assert_eq!(
        WplFormatter::with_indent(4).format(input).unwrap(),
        wpl_format::formatter::format(input).unwrap()
    );
}

#[test]
fn fallback_gives_formatted_text_when_possible() {
    assert_eq!(format_or_original("rule p { (x) }"), "rule p {\n    (x)\n}\n");
    let f = WplFormatter::with_indent(2);
    assert_eq!(f.format_or_original("rule p { (x) }"), "rule p {\n  (x)\n}\n");
    assert_eq!(f.format_or_original("p )"), "p\n)\n");
    assert_eq!(f.format_or_original("p {"), "p {");
}

#[test]
fn explicit_separator_ranges() {
    let f = WplFormatter::new();
    assert_eq!(
        f.format_chars(&chars("a{b}c"), &vec![(1, 4)], true).unwrap(),
        "a{b}c\n"
    );
    assert_eq!(
        f.format_chars(&chars("a{b}c"), &Vec::new(), true).unwrap(),
        "a{\n    b\n}\nc\n"
    );
}

#[test]
fn pipes_are_spaced() {
    assert_eq!(
        wpl_format::formatter::format("rule r { |base64/decode|gzip| (chars:d) }").unwrap(),
        "rule r {\n    | base64/decode | gzip | (chars:d)\n}\n"
    );
}

#[test]
fn pattern_separator_with_space() {
    assert_eq!(
        wpl_format::formatter::format("(chars{, }:a,digit:b)").unwrap(),
        "(\n    chars{, }:a,\n    digit:b\n)\n"
    );
}

#[test]
fn declaration_brace_opens_block() {
    assert_eq!(
        wpl_format::formatter::format("rule r{ |a| }").unwrap(),
        "rule r{\n    | a |\n}\n"
    );
}

#[test]
fn line_endings_count_once() {
    let crlf = "package p {\r\n(a, b)\r\n}\r\n";
    let lf = "package p {\n(a, b)\n}\n";
    assert_eq!(
        wpl_format::formatter::format(crlf).unwrap(),
        wpl_format::formatter::format(lf).unwrap()
    );
    let err = wpl_format::formatter::format("a\r\rb\r\n(x,\ry}").unwrap_err();
    assert!(matches!(
        err,
        WplFormatError::MismatchedBracket { expected: ')', found: '}', line: 5 }
    ));
}

#[test]
fn glued_declarations_open_blocks() {
    assert_eq!(
        wpl_format::formatter::format("package p{rule t{(x)}}").unwrap(),
        "package p{\n    rule t{\n        (x)\n    }\n}\n"
    );
}

#[test]
fn braces_in_comments_are_no_separators() {
    let (ranges, _) = collect_separator_ranges(&chars("// a {b}\nchars{b}"));
    assert_eq!(ranges, vec![(14, 17)]);
    assert_eq!(wpl_format::formatter::format("// a {b}").unwrap(), "// a {\n    b\n}\n");
}

#[test]
fn pattern_separator_after_space() {
    assert_eq!(
        wpl_format::formatter::format("(chars {||}:a,digit:b)").unwrap(),
        "(\n    chars {||}:a,\n    digit:b\n)\n"
    );
}

#[test]
fn plugin_brace_opens_block() {
    assert_eq!(
        wpl_format::formatter::format("rule r { plg_pipe(id: k) { @x } }").unwrap(),
        "rule r {\n    plg_pipe(id: k) {\n        @x\n    }\n}\n"
    );
}

#[test]
fn raw_func_block_ignores_name_length() {
    let c = chars("kv(\"(\", a) tail");
    let expected = Some((chars("kv(\"(\", a)"), 10));
    assert_eq!(wpl_format::scan::read_raw_func_block(&c, 0, 2), expected);
    assert_eq!(wpl_format::scan::read_raw_func_block(&c, 0, 7), expected);
    assert_eq!(wpl_format::scan::read_raw_func_block(&chars("kv(a"), 0, 2), None);
}

fn without_leading_spaces(s: &str) -> String {
    s.split('\n')
        .map(|l| l.trim_start_matches(' '))
        .collect::<Vec<_>>()
        .join("\n")
}

#[test]
fn indent_width_changes_only_leading_spaces() {
    let input = "package demo { rule test { (chars:name{||}, digit:age |kv(\"a\")) } }\n}";
    let a = format_with_indent(input, 2).unwrap();
    let b = format_with_indent(input, 4).unwrap();
    assert_ne!(a, b);
    assert_eq!(without_leading_spaces(&a), without_leading_spaces(&b));
    for width in [1, 3, 8] {
        let err = format_with_indent("package p {\n(a,b)", width).unwrap_err();
        assert!(matches!(
            err,
            WplFormatError::UnclosedBracket { open: '{', close: '}', line: 2 }
        ));
    }
}

#[test]
fn error_messages() {
    let cases = vec![
        (WplFormatError::SyntaxError { line: 7, message: "bad token".to_string() }, "line 7: bad token"),
        (WplFormatError::UnclosedString { line: 0 }, "line 0: string literal is not closed"),
        (WplFormatError::InvalidRawStringStart { line: 105 }, "line 105: invalid raw string prefix"),
        (WplFormatError::UnclosedRawString { line: 2 }, "line 2: raw string is not closed"),
        (
            WplFormatError::UnclosedBracket { open: '{', close: '}', line: 12 },
            "line 12: unclosed bracket: { ... }",
        ),
        (
            WplFormatError::MismatchedBracket { expected: ')', found: '}', line: 4 },
            "line 4: mismatched bracket, expected ), found }",
        ),
        (WplFormatError::UnexpectedClosing { close: '}', line: 1 }, "line 1: unexpected closing bracket }"),
    ];
    for (err, text) in cases {
        assert_eq!(err.message(), text);
    }
    let err = wpl_format::formatter::format("package demo {").unwrap_err();
    assert_eq!(err.message(), "line 1: unclosed bracket: { ... }");
    assert_eq!(err.line(), 1);
}

#[test]
fn separator_node_ranges_widen_to_braces() {
    let b = "chars{||}:a".as_bytes().to_vec();
    assert_eq!(wpl_format::tree::expand_separator_range((6, 8), &b), (5, 9));
    assert_eq!(wpl_format::tree::expand_separator_range((1, 3), &b), (1, 3));
    let t = "a\\,b".as_bytes().to_vec();
    assert_eq!(wpl_format::tree::expand_separator_range((1, 3), &t), (1, 3));
}

#[test]
fn byte_offsets_map_to_char_indices() {
    let text = "aé{b}";
    let offsets: Vec<usize> = text.char_indices().map(|(i, _)| i).collect();
    assert_eq!(offsets, vec![0, 1, 3, 4, 5]);
    assert_eq!(wpl_format::tree::byte_to_char_index(&offsets, 3, text.len()), 2);
    assert_eq!(wpl_format::tree::byte_to_char_index(&offsets, 2, text.len()), 2);
    assert_eq!(wpl_format::tree::byte_to_char_index(&offsets, 0, text.len()), 0);
    assert_eq!(wpl_format::tree::byte_to_char_index(&offsets, 6, text.len()), 5);
}

#[test]
fn brace_block_candidates() {
    let b = "a{x}b{ {y}}{".as_bytes().to_vec();
    assert_eq!(wpl_format::tree::brace_blocks(&b), vec![(1, 4), (5, 10)]);
    assert_eq!(wpl_format::tree::brace_blocks(&Vec::new()), Vec::<(usize, usize)>::new());
}

#[test]
fn separator_ranges_found() {
    let c = chars("package demo { rule test { (chars:name{||}, digit:age) } }");
    let (ranges, ok) = collect_separator_ranges(&c);
    assert!(ok);
    assert_eq!(ranges, vec![(38, 42)]);
    assert_eq!(find_range_at(&ranges, 38), Some((38, 42)));
    assert_eq!(find_range_at(&ranges, 40), Some((38, 42)));
    assert_eq!(find_range_at(&ranges, 42), None);
    assert_eq!(find_range_at(&ranges, 3), None);
}

#[test]
fn closing_indent_inference() {
    assert_eq!(infer_closing_indent(&chars("a {\n    (b)\n}\n"), 4), 0);
    assert_eq!(infer_closing_indent(&chars("a {\n    b {\n"), 4), 1);
    assert_eq!(infer_closing_indent(&chars("    #[x]\n"), 4), 0);
    assert_eq!(infer_closing_indent(&chars("x\n  (\n    )\n"), 2), 1);
    assert_eq!(infer_closing_indent(&chars("  x\n"), 4), 0);
    assert_eq!(infer_closing_indent(&chars(""), 4), 0);
}

#[test]
fn formatting_changes_only_white_space() {
    let inputs = [
        "package demo { rule test { (chars:name,digit:age) } }",
        "#[tag(a: \"1\",\n  b: \"2\")]\npackage p { rule r { (x) } }",
        "rule r { |base64/decode|gzip| (chars:d) }",
        "a {\n(b)\n}\n}",
        "x \"a\n\n\nb\"",
        "package p {\r\n(x)\r\n}",
    ];
    for input in inputs {
        let out = wpl_format::formatter::format(input).unwrap();
        assert_eq!(non_white(&out), non_white(input));
    }
}

#[test]
fn formatted_layout() {
    let inputs = [
        "package demo { rule test { (chars:name,digit:age) } }",
        "x \"a  \n\n\n\nb\"   ",
        "a {\n(b)\n}\n}",
        "   ",
        "",
    ];
    for input in inputs {
        check_layout(&wpl_format::formatter::format(input).unwrap());
    }
    assert_eq!(wpl_format::formatter::format("   ").unwrap(), "");
}
