use os_display::unix;
use os_display::windows;
use os_display::{is_bidi, is_separator, is_suspicious_bidi, requires_escape};

#[test]
fn unix_module_functions() {
    assert_eq!(unix::write("foo", true), "'foo'");
    assert_eq!(unix::write("foo", false), "foo");
    assert_eq!(unix::write("foo bar", false), "'foo bar'");
    assert_eq!(unix::write_simple("foo", '\''), "'foo'");
    assert_eq!(unix::write_simple("can't", '"'), "\"can't\"");
    assert_eq!(unix::write_single_escaped("can'\"t"), r#"'can'\''"t'"#);
    assert_eq!(unix::write_single_escaped("'"), r#"\'"#);
    assert_eq!(unix::write_escaped(b"a\nb"), r#"$'a\nb'"#);
    assert_eq!(unix::write_escaped(b"\xFF"), r#"$'\xFF'"#);
    assert_eq!(unix::write_escaped(b"\x00A"), r#"$'\x00'$'A'"#);
}

#[test]
fn windows_module_functions() {
    assert_eq!(windows::write("foo", true, false), "'foo'");
    assert_eq!(windows::write("foo", false, false), "foo");
    assert_eq!(windows::write("-x", false, false), "'-x'");
    assert_eq!(windows::write("-x", false, true), "-x");
    assert_eq!(windows::write_simple("foo", '\''), "'foo'");
    assert_eq!(windows::write_single_escaped("it's"), "'it''s'");
    assert_eq!(windows::write_single_escaped("‘"), "''‘'");
    assert_eq!(windows::write_external_escaped("\\\""), r#"'\\\"'"#);
    let units: Vec<Result<char, u16>> = vec![Ok('x'), Err(0xD800), Ok('\n')];
    assert_eq!(windows::write_escaped(&units, false), r#""x`u{D800}`n""#);
    let dollar: Vec<Result<char, u16>> = vec![Ok('$'), Ok('`')];
    assert_eq!(windows::write_escaped(&dollar, false), r#""`$``""#);
}

#[test]
fn character_classes() {
    assert!(requires_escape('\0'));
    assert!(requires_escape('\x1F'));
    assert!(requires_escape('\x7F'));
    assert!(requires_escape('\u{85}'));
    assert!(requires_escape('\u{2028}'));
    assert!(!requires_escape('a'));
    assert!(!requires_escape('\u{2066}'));

    assert!(is_separator('\u{2028}'));
    assert!(is_separator('\u{2029}'));
    assert!(!is_separator(' '));

    assert!(is_bidi('\u{202A}'));
    assert!(is_bidi('\u{202E}'));
    assert!(is_bidi('\u{2066}'));
    assert!(is_bidi('\u{2069}'));
    assert!(!is_bidi('\u{202F}'));

    // balanced nesting is fine
    assert!(!is_suspicious_bidi("\u{2066}ok\u{2069}"));
    assert!(!is_suspicious_bidi("\u{202A}x\u{202C}"));
    // unpaired closers and openers are suspicious
    assert!(is_suspicious_bidi("\u{2069}"));
    assert!(is_suspicious_bidi("\u{2066}"));
    // a closer of the wrong family is suspicious
    assert!(is_suspicious_bidi("\u{2066}\u{202C}"));
    assert!(is_suspicious_bidi("\u{202A}\u{2069}"));

    assert!(windows::is_whitespace('\u{00A0}'));
    assert!(windows::is_whitespace('\u{2800}'));
    assert!(!windows::is_whitespace('x'));
    assert!(windows::is_separator('\u{3000}'));
    assert!(!windows::is_separator('\t'));
    assert!(windows::is_dash('\u{2014}'));
    assert!(!windows::is_dash('x'));
    assert!(windows::is_single_quote('\u{2019}'));
    assert!(windows::is_double_quote('\u{201C}'));
}
