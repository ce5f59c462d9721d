use os_display::Quoted;

fn nest_bidi(n: usize) -> String {
    let mut out = String::new();
    for _ in 0..n {
        out.push('\u{2066}');
    }
    out.push('a');
    for _ in 0..n {
        out.push('\u{2069}');
    }
    out
}

fn both_always() -> Vec<(&'static str, &'static str)> {
    vec![
        ("foo", "'foo'"),
        ("foo/bar.baz", "'foo/bar.baz'"),
        ("can't", r#""can't""#),
    ]
}

fn both_maybe() -> Vec<(&'static str, &'static str)> {
    vec![
        ("foo", "foo"),
        ("foo bar", "'foo bar'"),
        ("$foo", "'$foo'"),
        ("-", "-"),
        ("a#b", "a#b"),
        ("#ab", "'#ab'"),
        ("a~b", "a~b"),
        ("!", "'!'"),
        ("}", "'}'"),
        ("\u{200B}", "'\u{200B}'"),
        ("\u{200B}a", "'\u{200B}a'"),
        ("a\u{200B}", "a\u{200B}"),
        ("\u{2000}", "'\u{2000}'"),
        ("\u{2800}", "'\u{2800}'"),
        // Odd but safe bidi
        (
            "\u{2067}\u{2066}abc\u{2069}\u{2066}def\u{2069}\u{2069}",
            "'\u{2067}\u{2066}abc\u{2069}\u{2066}def\u{2069}\u{2069}'",
        ),
    ]
}

#[test]
fn unix() {
    let unix_always: Vec<(&str, &str)> = vec![
        ("", "''"),
        (r#"can'"t"#, r#"'can'\''"t'"#),
        (r#"can'$t"#, r#"'can'\''$t'"#),
        ("foo\nb\ta\r\\\0`r", r#"$'foo\nb\ta\r\\\x00`r'"#),
        ("trailing newline\n", r#"$'trailing newline\n'"#),
        ("foo\x02", r#"$'foo\x02'"#),
        (r#"'$''"#, r#"\''$'\'\'"#),
        ("'\"", r#"\''"'"#),
        ("x\0", r#"$'x\x00'"#),
    ];
    let unix_maybe: Vec<(&str, &str)> = vec![
        ("", "''"),
        ("-x", "-x"),
        ("a,b", "a,b"),
        ("a\\b", "'a\\b'"),
        ("\x02AB", "$'\\x02'$'AB'"),
        ("\x02GH", "$'\\x02GH'"),
        ("\t", r#"$'\t'"#),
        ("\r", r#"$'\r'"#),
        ("\u{85}", r#"$'\xC2\x85'"#),
        ("\u{85}a", r#"$'\xC2\x85'$'a'"#),
        ("\u{2028}", r#"$'\xE2\x80\xA8'"#),
        // Dangerous bidi
        (
            "user\u{202E} \u{2066}// Check if admin\u{2069} \u{2066}",
            r#"$'user\xE2\x80\xAE \xE2\x81\xA6// Check if admin\xE2\x81\xA9 \xE2\x81\xA6'"#,
        ),
    ];
    let unix_raw: Vec<(&[u8], &str)> = vec![
        (b"foo\xFF", r#"$'foo\xFF'"#),
        (b"foo\xFFbar", r#"$'foo\xFF'$'bar'"#),
    ];
    for &(orig, expected) in unix_always.iter().chain(both_always().iter()) {
        assert_eq!(Quoted::unix(orig).render(), expected);
    }
    for &(orig, expected) in unix_maybe.iter().chain(both_maybe().iter()) {
        assert_eq!(Quoted::unix(orig).force(false).render(), expected);
    }
    for &(orig, expected) in unix_raw.iter() {
        assert_eq!(Quoted::unix_raw(orig).render(), expected);
    }
    let bidi_ok = nest_bidi(16);
    assert_eq!(
        Quoted::unix(&bidi_ok).render(),
        "'".to_string() + &bidi_ok + "'"
    );
    let bidi_too_deep = nest_bidi(17);
    assert!(Quoted::unix(&bidi_too_deep).render().starts_with('$'));
}

#[test]
fn windows() {
    let windows_always: Vec<(&str, &str)> = vec![
        (r#"foo\bar"#, r#"'foo\bar'"#),
        (r#"can'"t"#, r#"'can''"t'"#),
        (r#"can'$t"#, r#"'can''$t'"#),
        ("foo\nb\ta\r\\\0`r", r#""foo`nb`ta`r\`0``r""#),
        ("foo\x02", r#""foo`u{02}""#),
        (r#"'$''"#, r#"'''$'''''"#),
    ];
    let windows_maybe: Vec<(&str, &str)> = vec![
        ("--%", "'--%'"),
        ("--ok", "--ok"),
        ("—x", "'—x'"),
        ("a,b", "'a,b'"),
        ("a\\b", "a\\b"),
        ("‘", r#""‘""#),
        (r#"‘""#, r#"''‘"'"#),
        ("„\0", r#""`„`0""#),
        ("\t", r#""`t""#),
        ("\r", r#""`r""#),
        ("\u{85}", r#""`u{85}""#),
        ("\u{2028}", r#""`u{2028}""#),
        (
            "user\u{202E} \u{2066}// Check if admin\u{2069} \u{2066}",
            r#""user`u{202E} `u{2066}// Check if admin`u{2069} `u{2066}""#,
        ),
    ];
    let windows_raw: Vec<(&[u16], &str)> = vec![(&[b'x' as u16, 0xD800], r#""x`u{D800}""#)];
    let windows_external: Vec<(&str, &str)> = vec![
        ("", r#"'""'"#),
        (r#"\""#, r#"'\\\"'"#),
        (r#"\\""#, r#"'\\\\\"'"#),
        (r#"\x\""#, r#"'\x\\\"'"#),
        (r#"\x\"'""#, r#"'\x\\\"''\"'"#),
        ("\n\\\"", r#""`n\\\`"""#),
        ("\n\\\\\"", r#""`n\\\\\`"""#),
        ("\n\\x\\\"", r#""`n\x\\\`"""#),
        ("\n\\x\\\"'\"", r#""`n\x\\\`"'\`"""#),
        ("-x:", "'-x:'"),
        ("-x.x", "'-x.x'"),
        ("--%", r#"'"--%"'"#),
        ("--ok", "--ok"),
    ];
    let windows_internal: Vec<(&str, &str)> = vec![
        ("", "''"),
        (r#"can'"t"#, r#"'can''"t'"#),
        ("-x", "'-x'"),
        ("—x", "'—x'"),
        ("‘\"", r#"''‘"'"#),
        ("--%", "'--%'"),
        ("--ok", "--ok"),
    ];
    for &(orig, expected) in windows_always.iter().chain(both_always().iter()) {
        assert_eq!(Quoted::windows(orig).render(), expected);
    }
    for &(orig, expected) in windows_maybe.iter().chain(both_maybe().iter()) {
        assert_eq!(Quoted::windows(orig).force(false).render(), expected);
    }
    for &(orig, expected) in windows_raw.iter() {
        assert_eq!(Quoted::windows_raw(orig).render(), expected);
    }
    for &(orig, expected) in windows_external.iter() {
        assert_eq!(
            Quoted::windows(orig).force(false).external(true).render(),
            expected
        );
    }
    for &(orig, expected) in windows_internal.iter() {
        assert_eq!(
            Quoted::windows(orig).force(false).external(false).render(),
            expected
        );
    }
    let bidi_ok = nest_bidi(16);
    assert_eq!(
        Quoted::windows(&bidi_ok).render(),
        "'".to_string() + &bidi_ok + "'"
    );
    let bidi_too_deep = nest_bidi(17);
    assert!(Quoted::windows(&bidi_too_deep).render().contains('`'));
}

#[test]
fn bidi_nesting_bound() {
    // 16 balanced nested isolates stay quoted but unescaped; 17 force
    // escape-mode.
    let ok = nest_bidi(16);
    assert_eq!(Quoted::unix(&ok).render(), format!("'{}'", ok));
    assert_eq!(Quoted::windows(&ok).render(), format!("'{}'", ok));
    let deep = nest_bidi(17);
    // `a` is a hex digit, so a fresh `'$'` splice keeps it out of the
    // preceding `\xA6` escape.
    assert_eq!(
        Quoted::unix(&deep).render(),
        format!(
            "$'{}'$'a{}'",
            "\\xE2\\x81\\xA6".repeat(17),
            "\\xE2\\x81\\xA9".repeat(17)
        )
    );
    assert_eq!(
        Quoted::windows(&deep).render(),
        format!("\"{}a{}\"", "`u{2066}".repeat(17), "`u{2069}".repeat(17))
    );
}

#[test]
fn quote_starts_with_delimiter() {
    let inputs: Vec<&str> = vec![
        "",
        "foo",
        "can't",
        "'quoted'",
        "'$''",
        "a b",
        "\n",
        "\u{2028}",
        "x\u{202E}y",
        "--%",
        "-x",
        "~home",
    ];
    for &orig in inputs.iter() {
        let u = Quoted::unix(orig).render();
        let first = u.chars().next().unwrap();
        assert!(
            first == '\'' || first == '"' || first == '$' || first == '\\',
            "unix {:?} -> {:?}",
            orig,
            u
        );
        let w = Quoted::windows(orig).render();
        let first = w.chars().next().unwrap();
        assert!(first == '\'' || first == '"', "windows {:?} -> {:?}", orig, w);
    }
    let raw: &[u8] = b"\xFF\xFEbroken";
    let u = Quoted::unix_raw(raw).render();
    assert!(u.starts_with('$'));
    let units: &[u16] = &[0xD800, b'x' as u16];
    let w = Quoted::windows_raw(units).render();
    assert!(w.starts_with('"'));
}

#[test]
fn outputs_never_hold_raw_controls() {
    let inputs: Vec<&str> = vec![
        "plain",
        "a\nb",
        "tab\there",
        "\r\n",
        "\x00\x01\x02\x1F\x7F",
        "\u{85}\u{9F}",
        "line\u{2028}sep",
        "para\u{2029}sep",
        "bidi\u{202E}attack",
        "\u{2066}unclosed",
    ];
    for &orig in inputs.iter() {
        for force in [true, false] {
            let u = Quoted::unix(orig).force(force).render();
            let w = Quoted::windows(orig).force(force).render();
            let we = Quoted::windows(orig).force(force).external(true).render();
            for out in [u, w, we] {
                for c in out.chars() {
                    let v = c as u32;
                    assert!(
                        !(v <= 0x1F || (0x7F..=0x9F).contains(&v) || v == 0x2028 || v == 0x2029),
                        "{:?} -> {:?} holds {:?}",
                        orig,
                        out,
                        c
                    );
                }
            }
        }
    }
    let raw: &[u8] = b"\x00\xFF\n\xC2ok";
    let u = Quoted::unix_raw(raw).render();
    for c in u.chars() {
        let v = c as u32;
        assert!(!(v <= 0x1F || (0x7F..=0x9F).contains(&v) || v == 0x2028 || v == 0x2029));
    }
}

#[test]
fn maybe_quote_bare_identity() {
    let inputs: Vec<&str> = vec!["foo", "foo/bar.baz", "a,b", "-", "a#b", "a~b", "x:1"];
    for &orig in inputs.iter() {
        assert_eq!(Quoted::unix(orig).force(false).render(), orig);
    }
    for &orig in ["foo", "foo/bar.baz", "a\\b", "-", "--ok"].iter() {
        assert_eq!(Quoted::windows(orig).force(false).render(), orig);
    }
}

#[test]
fn raw_invalid_encodings() {
    // A lone invalid byte gets a numeric escape of its own.
    assert_eq!(Quoted::unix_raw(b"\xFF").render(), r#"$'\xFF'"#);
    assert_eq!(Quoted::unix_raw(b"x\xFF").render(), r#"$'x\xFF'"#);
    // Valid raw bytes render like text.
    assert_eq!(Quoted::unix_raw(b"foo").render(), "'foo'");
    // A lone unpaired surrogate gets a code-unit escape.
    assert_eq!(Quoted::windows_raw(&[0xD800]).render(), r#""`u{D800}""#);
    // A well-formed surrogate pair decodes to its character.
    assert_eq!(
        Quoted::windows_raw(&[0xD83D, 0xDE00]).render(),
        "'\u{1F600}'"
    );
    // Valid raw units render like text.
    let units: Vec<u16> = "foo".encode_utf16().collect();
    assert_eq!(Quoted::windows_raw(&units).render(), "'foo'");
}

#[test]
fn empty_inputs() {
    assert_eq!(Quoted::unix("").render(), "''");
    assert_eq!(Quoted::unix("").force(false).render(), "''");
    assert_eq!(Quoted::windows("").render(), "''");
    assert_eq!(Quoted::windows("").external(true).render(), r#"'""'"#);
    assert_eq!(Quoted::unix_raw(b"").render(), "''");
    assert_eq!(Quoted::windows_raw(&[]).render(), "''");
}
