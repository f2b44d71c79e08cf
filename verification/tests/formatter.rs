use wpl_format::{format_or_original, format_with_indent, WplFormatError, WplFormatter};

const NGINX_PARSE_WPL_INPUT: &str = r#"package nginx {
rule nginx {
(
    ip:sip,
    2*_,
    time:timestamp<[,]>,
    chars:request",
    digit:status,
    digit:size,
    chars:referer",
    http/agent",
    _,
)
}
}
"#;

const NGINX_PARSE_WPL_EXPECTED: &str = r#"package nginx {
    rule nginx {
        (
            ip:sip,
            2*_,
            time:timestamp<[,]>,
            chars:request",
            digit:status,
            digit:size,
            chars:referer",
            http/agent",
            _,
        )
    }
}
"#;

#[test]
fn formats_nested_rule() {
    let input = r#"package demo { rule test { (chars:name,digit:age) } }"#;
    let expected = "\
package demo {
    rule test {
        (
            chars:name,
            digit:age
        )
    }
}
";
    assert_eq!(wpl_format::formatter::format(input).unwrap(), expected);
}

#[test]
fn preserves_separator_blocks() {
    let input = r#"package demo { rule test { (chars:name{||}, digit:age) } }"#;
    let expected = "\
package demo {
    rule test {
        (
            chars:name{||},
            digit:age
        )
    }
}
";
    assert_eq!(wpl_format::formatter::format(input).unwrap(), expected);
}

#[test]
fn supports_custom_indent_and_fallback() {
    let input = r#"package demo { rule test { (chars:name) } }"#;
    let formatted = format_with_indent(input, 2).unwrap();
    assert!(formatted.contains("\n  rule test {\n"));
    assert_eq!(format_or_original("package demo {"), "package demo {");
}

#[test]
fn reports_syntax_errors() {
    let err = wpl_format::formatter::format("package demo {").unwrap_err();
    assert!(matches!(err, WplFormatError::UnclosedBracket { .. }));
}

#[test]
fn formats_nginx_parse_sample() {
    assert_eq!(
        wpl_format::formatter::format(NGINX_PARSE_WPL_INPUT).unwrap(),
        NGINX_PARSE_WPL_EXPECTED
    );
}
