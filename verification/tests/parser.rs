use easy_sgr::parse::{parse_raw_string, parse_string, unwrap_string, UnwrappedLiteral};

#[test]
fn passthrough_unchanged() {
    assert_eq!(parse_string("hello world"), Some("hello world".to_string()));
    assert_eq!(parse_string(""), Some("".to_string()));
    assert_eq!(parse_string("no specials: 123 abc!"), Some("no specials: 123 abc!".to_string()));
}

#[test]
fn double_braces_literal() {
    assert_eq!(parse_string("a{{b}}c"), Some("a{{b}}c".to_string()));
    assert_eq!(parse_string("{{+Bold}}"), Some("{{+Bold}}".to_string()));
    assert_eq!(parse_string("{{{{"), Some("{{{{".to_string()));
}

#[test]
fn empty_param_kept() {
    assert_eq!(parse_string("{}"), Some("{}".to_string()));
}

#[test]
fn plain_param_kept() {
    assert_eq!(parse_string("pre {name} post"), Some("pre {name} post".to_string()));
}

#[test]
fn stray_close_brace_kept() {
    assert_eq!(parse_string("a}b"), Some("a}b".to_string()));
    assert_eq!(parse_string("}"), Some("}".to_string()));
}

#[test]
fn style_param() {
    assert_eq!(parse_string("{+Bold}"), Some("\x1b[1m".to_string()));
    assert_eq!(parse_string("{+Reset}"), Some("\x1b[0m".to_string()));
}

#[test]
fn style_chain() {
    assert_eq!(parse_string("{+Bold#RedFg}"), Some("\x1b[1;31m".to_string()));
    assert_eq!(parse_string("{+Bold+Underline#BlueBg}"), Some("\x1b[1;4;44m".to_string()));
}

#[test]
fn add_and_remove_codes() {
    assert_eq!(parse_string("{+Bold}"), Some("\x1b[1m".to_string()));
    assert_eq!(parse_string("{-Bold}"), Some("\x1b[22m".to_string()));
    assert_eq!(parse_string("{-Dim}"), Some("\x1b[22m".to_string()));
    assert_eq!(parse_string("{+Italic}"), Some("\x1b[3m".to_string()));
    assert_eq!(parse_string("{-Italic}"), Some("\x1b[23m".to_string()));
    assert_eq!(parse_string("{-Strikethrough}"), Some("\x1b[29m".to_string()));
}

#[test]
fn indexed_color_hex() {
    assert_eq!(parse_string("{#f[ff]}"), Some("\x1b[38;5;255m".to_string()));
}

#[test]
fn rgb_color_decimal() {
    assert_eq!(parse_string("{#b(0,128,255)}"), Some("\x1b[48;2;0;128;255m".to_string()));
}

#[test]
fn rgb_color_hex() {
    assert_eq!(parse_string("{#f[008000]}"), Some("\x1b[38;2;0;128;0m".to_string()));
}

#[test]
fn indexed_color_decimal() {
    assert_eq!(parse_string("{#f(255)}"), Some("\x1b[38;5;255m".to_string()));
    assert_eq!(parse_string("{#b(7)}"), Some("\x1b[48;5;7m".to_string()));
}

#[test]
fn embedded_value() {
    assert_eq!(
        parse_string("{+Bold#RedFg&name}"),
        Some("\x1b[1;31m{name}\x1b[m".to_string())
    );
}

#[test]
fn value_first_param() {
    assert_eq!(parse_string("{name+Bold}"), Some("\x1b[1m{name}".to_string()));
}

#[test]
fn invalid_keyword_fails() {
    assert_eq!(parse_string("{+NotAStyle}"), None);
    assert_eq!(parse_string("{-Reset}"), None);
    assert_eq!(parse_string("{#NotAColor}"), None);
}

#[test]
fn empty_segment_fails() {
    assert_eq!(parse_string("{+}"), None);
    assert_eq!(parse_string("{+Bold#}"), None);
}

#[test]
fn unterminated_styling_kept_literal() {
    assert_eq!(parse_string("text {+Bold"), Some("text {+Bold".to_string()));
    assert_eq!(parse_string("{name"), Some("{name".to_string()));
    assert_eq!(parse_string("x{"), Some("x{".to_string()));
}

#[test]
fn unclosed_directive_chain_fails() {
    assert_eq!(parse_string("{+Bold#Red"), None);
}

#[test]
fn simple_escapes() {
    assert_eq!(parse_string("a\\nb"), Some("a\nb".to_string()));
    assert_eq!(parse_string("a\\tb"), Some("a\tb".to_string()));
    assert_eq!(parse_string("a\\rb"), Some("a\rb".to_string()));
    assert_eq!(parse_string("a\\0b"), Some("a\0b".to_string()));
    assert_eq!(parse_string("a\\\\b"), Some("a\\b".to_string()));
    assert_eq!(parse_string("a\\'b"), Some("a'b".to_string()));
    assert_eq!(parse_string("a\\\"b"), Some("a\"b".to_string()));
}

#[test]
fn hex_escape() {
    assert_eq!(parse_string("\\x41"), Some("A".to_string()));
    assert_eq!(parse_string("\\x7e"), Some("~".to_string()));
    assert_eq!(parse_string("\\xZ1"), None);
    assert_eq!(parse_string("\\x4"), None);
}

#[test]
fn unicode_escape() {
    assert_eq!(parse_string("\\u{41}"), Some("A".to_string()));
    assert_eq!(parse_string("\\u{1F600}"), Some("\u{1F600}".to_string()));
    assert_eq!(parse_string("\\u{}"), None);
    assert_eq!(parse_string("\\u{D800}"), None);
    assert_eq!(parse_string("\\u{110000}"), None);
    assert_eq!(parse_string("\\uX41"), None);
    assert_eq!(parse_string("\\u{41"), None);
}

#[test]
fn line_continuation() {
    assert_eq!(parse_string("a\\\n   \t b"), Some("ab".to_string()));
    assert_eq!(parse_string("a\\\n"), Some("a".to_string()));
}

#[test]
fn invalid_escape_fails() {
    assert_eq!(parse_string("\\q"), None);
    assert_eq!(parse_string("ab\\"), None);
}

#[test]
fn color_literal_errors() {
    assert_eq!(parse_string("{#f(1,2)}"), None);
    assert_eq!(parse_string("{#f(1,2,3,4)}"), None);
    assert_eq!(parse_string("{#f[abc]}"), None);
    assert_eq!(parse_string("{#f(256)}"), None);
    assert_eq!(parse_string("{#f(12a)}"), None);
    assert_eq!(parse_string("{#f[0q]}"), None);
    assert_eq!(parse_string("{#x(1)}"), None);
}

#[test]
fn unwrap_plain_literal() {
    match unwrap_string("\"abc\"") {
        Some(UnwrappedLiteral::Plain(s)) => assert_eq!(s, "abc"),
        _ => panic!("expected a plain literal"),
    }
    match unwrap_string("\"\"") {
        Some(UnwrappedLiteral::Plain(s)) => assert_eq!(s, ""),
        _ => panic!("expected a plain literal"),
    }
}

#[test]
fn unwrap_raw_literal() {
    match unwrap_string("r##\"abc\"##") {
        Some(UnwrappedLiteral::Raw(s, n)) => {
            assert_eq!(s, "abc");
            assert_eq!(n, 2);
        },
        _ => panic!("expected a raw literal"),
    }
    match unwrap_string("r\"abc\"") {
        Some(UnwrappedLiteral::Raw(s, n)) => {
            assert_eq!(s, "abc");
            assert_eq!(n, 0);
        },
        _ => panic!("expected a raw literal"),
    }
}

#[test]
fn unwrap_invalid_literal() {
    assert!(unwrap_string("abc").is_none());
    assert!(unwrap_string("\"abc").is_none());
    assert!(unwrap_string("abc\"").is_none());
    assert!(unwrap_string("r###").is_none());
    assert!(unwrap_string("r##abc##").is_none());
    assert!(unwrap_string("\"").is_none());
}

#[test]
fn wrap_raw_string() {
    assert_eq!(parse_raw_string("abc", 2), "r##\"abc\"##");
    assert_eq!(parse_raw_string("x", 0), "r\"x\"");
    assert_eq!(parse_raw_string("", 1), "r#\"\"#");
}
