use os_display::decode_utf16;
use os_display::unix::{self, from_utf8_iter};
use os_display::Quoted;

fn chunks(bytes: &[u8]) -> Vec<Result<String, u8>> {
    from_utf8_iter(bytes)
}

fn as_views(chunks: &[Result<String, u8>]) -> Vec<Result<&str, u8>> {
    chunks
        .iter()
        .map(|c| match c {
            Ok(s) => Ok(s.as_str()),
            Err(b) => Err(*b),
        })
        .collect()
}

#[test]
fn test_utf8_iter() {
    let cases: Vec<(&[u8], Vec<Result<&str, u8>>)> = vec![
        (b"", vec![]),
        (b"hello", vec![Ok("hello")]),
        // Immediately invalid
        (b"\xFF", vec![Err(b'\xFF')]),
        // Incomplete UTF-8
        (b"\xC2", vec![Err(b'\xC2')]),
        (b"\xF4\x8F", vec![Err(b'\xF4'), Err(b'\x8F')]),
        (b"\xFF\xFF", vec![Err(b'\xFF'), Err(b'\xFF')]),
        (b"hello\xC2", vec![Ok("hello"), Err(b'\xC2')]),
        (b"\xFFhello", vec![Err(b'\xFF'), Ok("hello")]),
        (
            b"\xFF\xC2hello",
            vec![Err(b'\xFF'), Err(b'\xC2'), Ok("hello")],
        ),
        (b"foo\xFFbar", vec![Ok("foo"), Err(b'\xFF'), Ok("bar")]),
        (
            b"foo\xF4\x8Fbar",
            vec![Ok("foo"), Err(b'\xF4'), Err(b'\x8F'), Ok("bar")],
        ),
        (
            b"foo\xFF\xC2bar",
            vec![Ok("foo"), Err(b'\xFF'), Err(b'\xC2'), Ok("bar")],
        ),
    ];
    for (case, expected) in cases {
        let got = chunks(case);
        assert_eq!(as_views(&got), expected);
    }
}

#[test]
fn chunks_cover_input() {
    // Concatenating each text segment's encoding and each invalid byte
    // yields the input, byte for byte.
    let inputs: Vec<&[u8]> = vec![
        b"",
        b"hello",
        b"\xFF",
        b"foo\xFF\xC2bar",
        b"\xF0\x9F\x98\x80ok\xED\xA0\x80",
        b"\xC2\x85\xE2\x80\xA8",
    ];
    for bytes in inputs {
        let mut rebuilt: Vec<u8> = Vec::new();
        for chunk in chunks(bytes) {
            match chunk {
                Ok(s) => rebuilt.extend_from_slice(s.as_bytes()),
                Err(b) => rebuilt.push(b),
            }
        }
        assert_eq!(rebuilt.as_slice(), bytes);
    }
}

#[test]
fn raw_dispatch_matches_utf8_validity() {
    // Raw bytes render as text exactly when they are valid UTF-8; anything
    // else goes through escape-mode.
    let inputs: Vec<&[u8]> = vec![
        b"",
        b"ok",
        b"\xFF",
        b"a\xC2\x85z",
        // an encoded surrogate is not valid UTF-8
        b"\xED\xA0\x80",
        // the largest scalar is
        b"\xF4\x8F\xBF\xBF",
        // overlong encodings are not
        b"\xC0\x80",
        b"\xE0\x80\x80",
    ];
    for bytes in inputs {
        let rendered = Quoted::unix_raw(bytes).render();
        match std::str::from_utf8(bytes) {
            Ok(s) => assert_eq!(rendered, unix::write(s, true)),
            Err(_) => assert!(rendered.starts_with("$'"), "{:?}", rendered),
        }
    }
}

#[test]
fn utf16_decoding_covers_input() {
    // Re-encoding each decoded character and keeping each unpaired
    // surrogate yields the input, unit for unit.
    let inputs: Vec<Vec<u16>> = vec![
        vec![],
        "plain".encode_utf16().collect(),
        "emoji \u{1F600}!".encode_utf16().collect(),
        vec![0xD800],
        vec![0xDC00, 0xD800, b'x' as u16, 0xD83D, 0xDE00],
    ];
    for units in inputs {
        let mut rebuilt: Vec<u16> = Vec::new();
        for item in decode_utf16(&units) {
            match item {
                Ok(c) => {
                    let mut buf = [0u16; 2];
                    rebuilt.extend_from_slice(c.encode_utf16(&mut buf));
                }
                Err(u) => rebuilt.push(u),
            }
        }
        assert_eq!(rebuilt, units);
    }
}

#[test]
fn utf16_decoding() {
    assert_eq!(decode_utf16(&[]), vec![]);
    assert_eq!(
        decode_utf16(&[b'a' as u16, 0xD800, 0xDC00]),
        vec![Ok('a'), Ok('\u{10000}')]
    );
    assert_eq!(
        decode_utf16(&[0xDC00, 0xD800]),
        vec![Err(0xDC00), Err(0xD800)]
    );
    assert_eq!(
        decode_utf16(&[0xD800, b'x' as u16]),
        vec![Err(0xD800), Ok('x')]
    );
}
