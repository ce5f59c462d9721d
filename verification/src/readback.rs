//! Conservative models of how a POSIX shell reads one quoted word and how
//! PowerShell reads one quoted token, and proofs that the quoted
//! renderings read back as exactly the content they were made from.
//!
//! The models are deliberately strict: anything whose reading differs
//! among shells, or that a shell would expand, split or mangle — an
//! unquoted special character, a raw control character, a hex digit
//! extending a `\xHH` escape — fails to parse. The round-trip proofs show
//! the renderings never produce such text, and that what they do produce
//! denotes the original content.
//!
//! Two renderings stay outside the models and are exercised by tests
//! instead: PowerShell's legacy external argument passing, whose reading
//! adds a second, native argv-parsing stage, and escaped raw UTF-16, whose
//! content can hold unpaired surrogates that no character sequence can
//! stand for.

use vstd::prelude::*;
use vstd::utf8::*;

use crate::encoding::{hex_digit, hex_digits, hex_pad, lemma_hex_digits_len};
use crate::unix;
use crate::windows;
use crate::{Kind, Quoted};

verus! {

/// The value of an ASCII hexadecimal digit.
pub open spec fn hex_char_val(c: char) -> int
    recommends
        unix::spec_ascii_hexdigit(c),
{
    if '0' <= c && c <= '9' {
        c as int - 0x30
    } else if 'a' <= c && c <= 'f' {
        c as int - 0x57
    } else {
        c as int - 0x37
    }
}

/// Reads the inside of a single-quoted segment up to its closing quote:
/// every character stands for its own bytes. `None` on an unterminated
/// segment or a raw control character.
pub open spec fn single_segment(s: Seq<char>) -> Option<(Seq<u8>, Seq<char>)>
    decreases s.len(),
{
    if s.len() == 0 {
        None
    } else if s[0] == '\'' {
        Some((seq![], s.skip(1)))
    } else if crate::spec_requires_escape(s[0]) {
        None
    } else {
        match single_segment(s.skip(1)) {
            Some((bs, rest)) => Some((encode_scalar(s[0] as u32) + bs, rest)),
            None => None,
        }
    }
}

/// Reads the inside of a double-quoted segment up to its closing quote.
/// `None` when a character the shell treats specially there — `"`, `` ` ``,
/// `$`, `\` — or a raw control character appears.
pub open spec fn double_segment(s: Seq<char>) -> Option<(Seq<u8>, Seq<char>)>
    decreases s.len(),
{
    if s.len() == 0 {
        None
    } else if s[0] == '"' {
        Some((seq![], s.skip(1)))
    } else if unix::double_unsafe_char(s[0]) || crate::spec_requires_escape(s[0]) {
        None
    } else {
        match double_segment(s.skip(1)) {
            Some((bs, rest)) => Some((encode_scalar(s[0] as u32) + bs, rest)),
            None => None,
        }
    }
}

/// Reads the inside of an ANSI-C `$'...'` segment up to its closing quote.
/// Only the escapes the renderers emit are given a meaning; `None` on
/// anything else, on a raw control character, and on a hex digit directly
/// after a `\xHH` escape, which ksh variants would read into the escape.
pub open spec fn ansi_segment(s: Seq<char>) -> Option<(Seq<u8>, Seq<char>)>
    decreases s.len(),
{
    if s.len() == 0 {
        None
    } else if s[0] == '\'' {
        Some((seq![], s.skip(1)))
    } else if s[0] == '\\' {
        if s.len() < 2 {
            None
        } else if s[1] == 'n' || s[1] == 't' || s[1] == 'r' || s[1] == '\\' || s[1] == '\'' {
            let b: u8 = if s[1] == 'n' {
                0x0A
            } else if s[1] == 't' {
                0x09
            } else if s[1] == 'r' {
                0x0D
            } else if s[1] == '\\' {
                0x5C
            } else {
                0x27
            };
            match ansi_segment(s.skip(2)) {
                Some((bs, rest)) => Some((seq![b] + bs, rest)),
                None => None,
            }
        } else if s[1] == 'x' {
            if s.len() < 4 || !unix::spec_ascii_hexdigit(s[2]) || !unix::spec_ascii_hexdigit(
                s[3],
            ) {
                None
            } else if s.len() >= 5 && unix::spec_ascii_hexdigit(s[4]) {
                None
            } else {
                let b = (hex_char_val(s[2]) * 16 + hex_char_val(s[3])) as u8;
                match ansi_segment(s.skip(4)) {
                    Some((bs, rest)) => Some((seq![b] + bs, rest)),
                    None => None,
                }
            }
        } else {
            None
        }
    } else if crate::spec_requires_escape(s[0]) {
        None
    } else {
        match ansi_segment(s.skip(1)) {
            Some((bs, rest)) => Some((encode_scalar(s[0] as u32) + bs, rest)),
            None => None,
        }
    }
}

/// Reads one whole word: a concatenation of single-quoted, double-quoted
/// and ANSI-C segments and `\`-escaped characters, as the renderers emit
/// when quoting is on. A bare character is not given a meaning: whether a
/// shell expands it depends on its position, and the renderers leave text
/// bare only on the identity path.
pub open spec fn posix_word(s: Seq<char>) -> Option<Seq<u8>>
    decreases s.len(),
{
    if s.len() == 0 {
        Some(seq![])
    } else if s[0] == '\'' {
        match single_segment(s.skip(1)) {
            Some((bs, rest)) => {
                // a segment always consumes at least its closing quote;
                // the bound keeps the recursion visibly decreasing
                if rest.len() < s.len() {
                    match posix_word(rest) {
                        Some(b2) => Some(bs + b2),
                        None => None,
                    }
                } else {
                    None
                }
            },
            None => None,
        }
    } else if s[0] == '"' {
        match double_segment(s.skip(1)) {
            Some((bs, rest)) => {
                if rest.len() < s.len() {
                    match posix_word(rest) {
                        Some(b2) => Some(bs + b2),
                        None => None,
                    }
                } else {
                    None
                }
            },
            None => None,
        }
    } else if s[0] == '\\' {
        if s.len() >= 2 && !crate::spec_requires_escape(s[1]) {
            match posix_word(s.skip(2)) {
                Some(b2) => Some(encode_scalar(s[1] as u32) + b2),
                None => None,
            }
        } else {
            None
        }
    } else if s[0] == '$' && s.len() >= 2 && s[1] == '\'' {
        match ansi_segment(s.skip(2)) {
            Some((bs, rest)) => {
                if rest.len() < s.len() {
                    match posix_word(rest) {
                        Some(b2) => Some(bs + b2),
                        None => None,
                    }
                } else {
                    None
                }
            },
            None => None,
        }
    } else {
        None
    }
}

proof fn lemma_single_segment_shrinks(s: Seq<char>)
    ensures
        single_segment(s) matches Some((bs, rest)) ==> rest.len() < s.len(),
    decreases s.len(),
{
    if s.len() > 0 && s[0] != '\'' && !crate::spec_requires_escape(s[0]) {
        lemma_single_segment_shrinks(s.skip(1));
    }
}

proof fn lemma_double_segment_shrinks(s: Seq<char>)
    ensures
        double_segment(s) matches Some((bs, rest)) ==> rest.len() < s.len(),
    decreases s.len(),
{
    if s.len() > 0 && s[0] != '"' && !unix::double_unsafe_char(s[0])
        && !crate::spec_requires_escape(s[0]) {
        lemma_double_segment_shrinks(s.skip(1));
    }
}

proof fn lemma_ansi_segment_shrinks(s: Seq<char>)
    ensures
        ansi_segment(s) matches Some((bs, rest)) ==> rest.len() < s.len(),
    decreases s.len(),
{
    if s.len() >= 2 && s[0] == '\\' {
        lemma_ansi_segment_shrinks(s.skip(2));
        if s.len() >= 4 {
            lemma_ansi_segment_shrinks(s.skip(4));
        }
    } else if s.len() > 0 && s[0] != '\'' && !crate::spec_requires_escape(s[0]) {
        lemma_ansi_segment_shrinks(s.skip(1));
    }
}

/// Reading literal text inside a single-quoted segment yields its UTF-8
/// bytes and stops at the closing quote.
proof fn lemma_single_segment_literal(t: Seq<char>, rest: Seq<char>)
    requires
        unix::single_safe(t),
        !crate::contains_escape_trigger(t),
    ensures
        single_segment(t + seq!['\''] + rest) == Some((encode_utf8(t), rest)),
    decreases t.len(),
{
    let s = t + seq!['\''] + rest;
    if t.len() == 0 {
        assert(s[0] == '\'');
        assert(s.skip(1) =~= rest);
        assert(encode_utf8(t) =~= Seq::<u8>::empty());
    } else {
        assert(s[0] == t[0]);
        assert(!crate::spec_requires_escape(t[0]));
        assert(s.skip(1) =~= t.drop_first() + seq!['\''] + rest);
        lemma_single_segment_literal(t.drop_first(), rest);
        assert(encode_utf8(t) == encode_scalar(t[0] as u32) + encode_utf8(t.drop_first()));
    }
}

/// Reading literal text inside a double-quoted segment yields its UTF-8
/// bytes and stops at the closing quote.
proof fn lemma_double_segment_literal(t: Seq<char>, rest: Seq<char>)
    requires
        unix::double_safe(t),
        !crate::contains_escape_trigger(t),
    ensures
        double_segment(t + seq!['"'] + rest) == Some((encode_utf8(t), rest)),
    decreases t.len(),
{
    let s = t + seq!['"'] + rest;
    if t.len() == 0 {
        assert(s[0] == '"');
        assert(s.skip(1) =~= rest);
        assert(encode_utf8(t) =~= Seq::<u8>::empty());
    } else {
        assert(s[0] == t[0]);
        assert(!unix::double_unsafe_char(t[0]) && !crate::spec_requires_escape(t[0]));
        assert(s.skip(1) =~= t.drop_first() + seq!['"'] + rest);
        lemma_double_segment_literal(t.drop_first(), rest);
        assert(encode_utf8(t) == encode_scalar(t[0] as u32) + encode_utf8(t.drop_first()));
    }
}

/// Reading a segment and then the rest of the word, with the bytes
/// concatenated: the state of the parse just inside an ANSI-C segment.
pub open spec fn ansi_then_word(s: Seq<char>) -> Option<Seq<u8>> {
    match ansi_segment(s) {
        Some((bs, rest)) => {
            match posix_word(rest) {
                Some(b2) => Some(bs + b2),
                None => None,
            }
        },
        None => None,
    }
}

/// The scalar at position `i` occupies exactly the bytes its character
/// encodes to.
proof fn lemma_scalar_bytes(bytes: Seq<u8>, i: int)
    requires
        0 <= i < bytes.len(),
        valid_first_scalar(bytes.skip(i)),
    ensures
        1 <= length_of_first_scalar(bytes.skip(i)),
        i + length_of_first_scalar(bytes.skip(i)) <= bytes.len(),
        encode_scalar(
            ((decode_first_scalar(bytes.skip(i)) as char) as u32),
        ) == bytes.subrange(i, i + length_of_first_scalar(bytes.skip(i))),
{
    let s = bytes.skip(i);
    let l = length_of_first_scalar(s);
    let first = take_first_scalar(s);
    assert(first =~= bytes.subrange(i, i + l));
    assert(valid_first_scalar(first));
    assert(pop_first_scalar(first) =~= Seq::<u8>::empty());
    assert(valid_utf8(Seq::<u8>::empty()));
    assert(valid_utf8(first));
    decode_utf8_first_scalar(first);
    assert(decode_first_scalar(first) == decode_first_scalar(s));
    assert(take_first_scalar(first) =~= first);
}

/// An ASCII value encodes to the single byte of the same value.
proof fn lemma_encode_ascii(v: u32)
    requires
        v <= 0x7F,
    ensures
        encode_scalar(v) == seq![v as u8],
{
    assert((v & 0x7F) == v) by (bit_vector)
        requires
            v <= 0x7F,
    ;
    assert(encode_scalar(v) =~= seq![v as u8]);
}

/// Hexadecimal digits are read back as their values.
proof fn lemma_hex_digit_char(n: int)
    requires
        0 <= n < 16,
    ensures
        unix::spec_ascii_hexdigit(hex_digit(n)),
        hex_char_val(hex_digit(n)) == n,
{
}

/// A byte's two-digit hexadecimal form reads back as the byte.
proof fn lemma_hex_pad2(b: u8)
    ensures
        hex_pad(b as int, 2).len() == 2,
        unix::spec_ascii_hexdigit(hex_pad(b as int, 2)[0]),
        unix::spec_ascii_hexdigit(hex_pad(b as int, 2)[1]),
        (hex_char_val(hex_pad(b as int, 2)[0]) * 16 + hex_char_val(hex_pad(b as int, 2)[1])) as u8
            == b,
{
    if b < 16 {
        lemma_hex_digit_char(b as int);
        assert(hex_digits(b as int) =~= seq![hex_digit(b as int)]);
        assert(hex_pad(b as int, 2) =~= Seq::new(1nat, |i: int| '0') + seq![hex_digit(b as int)]);
        assert(hex_pad(b as int, 2)[0] == '0');
        assert(hex_char_val('0') == 0);
    } else {
        lemma_hex_digit_char(b as int / 16);
        lemma_hex_digit_char(b as int % 16);
        assert(hex_digits(b as int / 16) =~= seq![hex_digit(b as int / 16)]);
        assert(hex_digits(b as int) =~= seq![hex_digit(b as int / 16), hex_digit(b as int % 16)]);
        assert((b as int / 16) * 16 + (b as int % 16) == b as int);
    }
}

/// Directly after a `\xHH` escape the rendering never puts a hex digit:
/// whatever follows starts with a backslash, a quote, or a character that
/// is not a hex digit.
proof fn lemma_body_head_not_hex(bytes: Seq<u8>, i: int)
    requires
        0 <= i <= bytes.len(),
    ensures
        unix::escaped_body(bytes, i, true).len() > 0 ==> !unix::spec_ascii_hexdigit(
            unix::escaped_body(bytes, i, true)[0],
        ),
{
    let b = unix::escaped_body(bytes, i, true);
    if i < bytes.len() {
        if valid_first_scalar(bytes.skip(i)) {
            let c = decode_first_scalar(bytes.skip(i)) as char;
            let out = unix::escaped_char_out(c, true);
            if c == '\n' || c == '\t' || c == '\r' {
                assert(out[0] == '\\');
            } else if crate::spec_requires_escape(c) || crate::spec_is_bidi(c) {
                let eb = encode_scalar(c as u32);
                assert(eb.len() >= 1);
                assert(unix::hex_escape_from(eb, 0)[0] == '\\');
            } else if c == '\\' || c == '\'' {
                assert(out[0] == '\\');
            } else if unix::spec_ascii_hexdigit(c) {
                assert(out[0] == '\'');
            } else {
                assert(out[0] == c);
            }
            assert(out.len() > 0);
            assert(b[0] == out[0]);
        } else {
            assert(b[0] == '\\');
        }
        assert(!unix::spec_ascii_hexdigit(b[0]));
    }
}

/// A run of `\xHH` escapes reads back as exactly those bytes, and the
/// parse then continues on what follows, which must not begin with a hex
/// digit.
proof fn lemma_ansi_hex_run(eb: Seq<u8>, j: int, tail: Seq<char>)
    requires
        0 <= j <= eb.len(),
        tail.len() > 0,
        !unix::spec_ascii_hexdigit(tail[0]),
    ensures
        ansi_segment(unix::hex_escape_from(eb, j) + tail) == (match ansi_segment(tail) {
            Some((bs, rest)) => Some((eb.skip(j) + bs, rest)),
            None => None::<(Seq<u8>, Seq<char>)>,
        }),
    decreases eb.len() - j,
{
    if j == eb.len() {
        assert(unix::hex_escape_from(eb, j) + tail =~= tail);
        assert(eb.skip(j) =~= Seq::<u8>::empty());
        let seg = ansi_segment(tail);
        match seg {
            Some((bs, rest)) => {
                assert(eb.skip(j) + bs =~= bs);
            },
            None => {},
        }
    } else {
        let s = unix::hex_escape_from(eb, j) + tail;
        lemma_hex_pad2(eb[j]);
        assert(unix::hex_escape_byte(eb[j]) =~= seq!['\\', 'x'] + hex_pad(eb[j] as int, 2));
        assert(s =~= seq!['\\', 'x'] + hex_pad(eb[j] as int, 2) + (unix::hex_escape_from(eb, j + 1)
            + tail));
        assert(s[0] == '\\');
        assert(s[1] == 'x');
        assert(s[2] == hex_pad(eb[j] as int, 2)[0]);
        assert(s[3] == hex_pad(eb[j] as int, 2)[1]);
        if j + 1 < eb.len() {
            assert(unix::hex_escape_from(eb, j + 1)[0] == '\\');
            assert(s[4] == '\\');
        } else {
            assert(unix::hex_escape_from(eb, j + 1) =~= Seq::<char>::empty());
            assert(s[4] == tail[0]);
        }
        assert(!unix::spec_ascii_hexdigit(s[4]));
        assert(s.len() >= 5);
        assert(s.skip(4) =~= unix::hex_escape_from(eb, j + 1) + tail);
        lemma_ansi_hex_run(eb, j + 1, tail);
        assert((hex_char_val(s[2]) * 16 + hex_char_val(s[3])) as u8 == eb[j]);
        let seg = ansi_segment(tail);
        match seg {
            Some((bs, rest)) => {
                assert(seq![eb[j]] + (eb.skip(j + 1) + bs) =~= eb.skip(j) + bs);
            },
            None => {},
        }
    }
}


/// One step of the segment-body round trip: a character with a named or
/// backslash escape.
proof fn lemma_body_step_named(bytes: Seq<u8>, i: int, esc: bool)
    requires
        0 <= i < bytes.len(),
        valid_first_scalar(bytes.skip(i)),
        ({
            let c = decode_first_scalar(bytes.skip(i)) as char;
            c == '\n' || c == '\t' || c == '\r' || c == '\\' || c == '\''
        }),
        ansi_then_word(
            unix::escaped_body(bytes, i + length_of_first_scalar(bytes.skip(i)), false)
                + seq!['\''],
        ) == Some(bytes.skip(i + length_of_first_scalar(bytes.skip(i)))),
    ensures
        ansi_then_word(unix::escaped_body(bytes, i, esc) + seq!['\'']) == Some(bytes.skip(i)),
{
    let s = unix::escaped_body(bytes, i, esc) + seq!['\''];
    let c = decode_first_scalar(bytes.skip(i)) as char;
    let l = length_of_first_scalar(bytes.skip(i));
    lemma_scalar_bytes(bytes, i);
    assert(bytes.skip(i) =~= bytes.subrange(i, i + l) + bytes.skip(i + l));
    let b: u8 = if c == '\n' {
        0x0A
    } else if c == '\t' {
        0x09
    } else if c == '\r' {
        0x0D
    } else if c == '\\' {
        0x5C
    } else {
        0x27
    };
    let e: char = if c == '\n' {
        'n'
    } else if c == '\t' {
        't'
    } else if c == '\r' {
        'r'
    } else {
        c
    };
    lemma_encode_ascii(c as u32);
    assert(bytes.subrange(i, i + l) =~= seq![b]);
    let s2 = unix::escaped_body(bytes, i + l, false) + seq!['\''];
    assert(!unix::escaped_char_state(c));
    assert(unix::escaped_char_out(c, esc) =~= seq!['\\', e]);
    assert(s =~= seq!['\\', e] + s2);
    assert(s[0] == '\\' && s[1] == e);
    assert(s.skip(2) =~= s2);
    let seg = ansi_segment(s2);
    match seg {
        Some((bs2, rest2)) => {
            match posix_word(rest2) {
                Some(b2) => {
                    assert(bs2 + b2 == bytes.skip(i + l));
                    assert(seq![b] + (bs2 + b2) =~= (seq![b] + bs2) + b2);
                    assert(seq![b] + bytes.skip(i + l) =~= bytes.skip(i));
                },
                None => {
                    assert(false);
                },
            }
        },
        None => {
            assert(false);
        },
    }
}

/// One step of the segment-body round trip: a character that must be
/// hex-escaped, emitted as the `\xHH` escapes of its UTF-8 bytes.
proof fn lemma_body_step_hex(bytes: Seq<u8>, i: int, esc: bool)
    requires
        0 <= i < bytes.len(),
        valid_first_scalar(bytes.skip(i)),
        ({
            let c = decode_first_scalar(bytes.skip(i)) as char;
            &&& !(c == '\n' || c == '\t' || c == '\r')
            &&& (crate::spec_requires_escape(c) || crate::spec_is_bidi(c))
        }),
        ansi_then_word(
            unix::escaped_body(bytes, i + length_of_first_scalar(bytes.skip(i)), true)
                + seq!['\''],
        ) == Some(bytes.skip(i + length_of_first_scalar(bytes.skip(i)))),
    ensures
        ansi_then_word(unix::escaped_body(bytes, i, esc) + seq!['\'']) == Some(bytes.skip(i)),
{
    let s = unix::escaped_body(bytes, i, esc) + seq!['\''];
    let c = decode_first_scalar(bytes.skip(i)) as char;
    let l = length_of_first_scalar(bytes.skip(i));
    lemma_scalar_bytes(bytes, i);
    assert(bytes.skip(i) =~= bytes.subrange(i, i + l) + bytes.skip(i + l));
    let eb = encode_scalar(c as u32);
    let s2 = unix::escaped_body(bytes, i + l, true) + seq!['\''];
    assert(unix::escaped_char_out(c, esc) == unix::hex_escape_from(eb, 0));
    assert(s =~= unix::hex_escape_from(eb, 0) + s2);
    lemma_body_head_not_hex(bytes, i + l);
    if unix::escaped_body(bytes, i + l, true).len() == 0 {
        assert(s2[0] == '\'');
    } else {
        assert(s2[0] == unix::escaped_body(bytes, i + l, true)[0]);
    }
    assert(s2.len() > 0 && !unix::spec_ascii_hexdigit(s2[0]));
    lemma_ansi_hex_run(eb, 0, s2);
    assert(eb.skip(0) =~= eb);
    let seg = ansi_segment(s2);
    match seg {
        Some((bs2, rest2)) => {
            match posix_word(rest2) {
                Some(b2) => {
                    assert(bs2 + b2 == bytes.skip(i + l));
                    assert(ansi_segment(s) == Some((eb + bs2, rest2)));
                    assert((eb + bs2) + b2 =~= eb + (bs2 + b2));
                    assert(eb + bytes.skip(i + l) =~= bytes.skip(i));
                },
                None => {
                    assert(false);
                },
            }
        },
        None => {
            assert(false);
        },
    }
}

/// One step of the segment-body round trip: a hex digit directly after a
/// `\xHH` escape, where the `'$'` splice closes the segment and opens a
/// fresh one, after which the rest renders as with no escape pending.
proof fn lemma_body_step_splice(bytes: Seq<u8>, i: int)
    requires
        0 <= i < bytes.len(),
        valid_first_scalar(bytes.skip(i)),
        ({
            let c = decode_first_scalar(bytes.skip(i)) as char;
            &&& !(c == '\n' || c == '\t' || c == '\r')
            &&& !(crate::spec_requires_escape(c) || crate::spec_is_bidi(c))
            &&& !(c == '\\' || c == '\'')
            &&& unix::spec_ascii_hexdigit(c)
        }),
        ansi_then_word(unix::escaped_body(bytes, i, false) + seq!['\'']) == Some(bytes.skip(i)),
    ensures
        ansi_then_word(unix::escaped_body(bytes, i, true) + seq!['\'']) == Some(bytes.skip(i)),
{
    let s = unix::escaped_body(bytes, i, true) + seq!['\''];
    let c = decode_first_scalar(bytes.skip(i)) as char;
    let l = length_of_first_scalar(bytes.skip(i));
    assert(unix::escaped_char_out(c, true) =~= seq!['\'', '$', '\'', c]);
    assert(unix::escaped_char_out(c, false) =~= seq![c]);
    assert(!unix::escaped_char_state(c));
    let s3 = unix::escaped_body(bytes, i, false) + seq!['\''];
    assert(unix::escaped_body(bytes, i, false) =~= seq![c] + unix::escaped_body(
        bytes,
        i + l,
        false,
    ));
    assert(s =~= seq!['\'', '$', '\''] + s3);
    assert(s[0] == '\'');
    assert(s.skip(1) =~= seq!['$', '\''] + s3);
    let w = s.skip(1);
    assert(w[0] == '$' && w[1] == '\'');
    assert(w.skip(2) =~= s3);
    lemma_ansi_segment_shrinks(s3);
    let seg = ansi_segment(s3);
    match seg {
        Some((bs2, rest2)) => {
            assert(rest2.len() < s3.len() < w.len());
            match posix_word(rest2) {
                Some(b2) => {
                    assert(bs2 + b2 == bytes.skip(i));
                    assert(posix_word(w) == Some(bs2 + b2));
                    assert(ansi_segment(s) == Some((Seq::<u8>::empty(), w)));
                    assert(Seq::<u8>::empty() + (bs2 + b2) =~= bs2 + b2);
                },
                None => {
                    assert(false);
                },
            }
        },
        None => {
            assert(false);
        },
    }
}

/// One step of the segment-body round trip: an ordinary character, which
/// stands for its own UTF-8 bytes.
proof fn lemma_body_step_plain(bytes: Seq<u8>, i: int, esc: bool)
    requires
        0 <= i < bytes.len(),
        valid_first_scalar(bytes.skip(i)),
        ({
            let c = decode_first_scalar(bytes.skip(i)) as char;
            &&& !(c == '\n' || c == '\t' || c == '\r')
            &&& !(crate::spec_requires_escape(c) || crate::spec_is_bidi(c))
            &&& !(c == '\\' || c == '\'')
            &&& !(esc && unix::spec_ascii_hexdigit(c))
        }),
        ansi_then_word(
            unix::escaped_body(bytes, i + length_of_first_scalar(bytes.skip(i)), false)
                + seq!['\''],
        ) == Some(bytes.skip(i + length_of_first_scalar(bytes.skip(i)))),
    ensures
        ansi_then_word(unix::escaped_body(bytes, i, esc) + seq!['\'']) == Some(bytes.skip(i)),
{
    let s = unix::escaped_body(bytes, i, esc) + seq!['\''];
    let c = decode_first_scalar(bytes.skip(i)) as char;
    let l = length_of_first_scalar(bytes.skip(i));
    lemma_scalar_bytes(bytes, i);
    assert(bytes.skip(i) =~= bytes.subrange(i, i + l) + bytes.skip(i + l));
    assert(unix::escaped_char_out(c, esc) =~= seq![c]);
    assert(!unix::escaped_char_state(c));
    let s2 = unix::escaped_body(bytes, i + l, false) + seq!['\''];
    assert(s =~= seq![c] + s2);
    assert(s[0] == c);
    assert(c != '\'' && c != '\\' && !crate::spec_requires_escape(c));
    assert(s.skip(1) =~= s2);
    let seg = ansi_segment(s2);
    match seg {
        Some((bs2, rest2)) => {
            match posix_word(rest2) {
                Some(b2) => {
                    assert(bs2 + b2 == bytes.skip(i + l));
                    assert(encode_scalar(c as u32) + (bs2 + b2) =~= (encode_scalar(c as u32)
                        + bs2) + b2);
                    assert(encode_scalar(c as u32) + bytes.skip(i + l) =~= bytes.skip(i));
                },
                None => {
                    assert(false);
                },
            }
        },
        None => {
            assert(false);
        },
    }
}

/// One step of the segment-body round trip: a byte that begins no
/// well-formed scalar, emitted as one `\xHH` escape.
proof fn lemma_body_step_invalid(bytes: Seq<u8>, i: int, esc: bool)
    requires
        0 <= i < bytes.len(),
        !valid_first_scalar(bytes.skip(i)),
        ansi_then_word(unix::escaped_body(bytes, i + 1, true) + seq!['\'']) == Some(
            bytes.skip(i + 1),
        ),
    ensures
        ansi_then_word(unix::escaped_body(bytes, i, esc) + seq!['\'']) == Some(bytes.skip(i)),
{
    let s = unix::escaped_body(bytes, i, esc) + seq!['\''];
    let b = bytes[i];
    let s2 = unix::escaped_body(bytes, i + 1, true) + seq!['\''];
    assert(unix::hex_escape_from(seq![b], 1) =~= Seq::<char>::empty());
    assert(unix::hex_escape_from(seq![b], 0) =~= unix::hex_escape_byte(b));
    assert(s =~= unix::hex_escape_from(seq![b], 0) + s2);
    lemma_body_head_not_hex(bytes, i + 1);
    if unix::escaped_body(bytes, i + 1, true).len() == 0 {
        assert(s2[0] == '\'');
    } else {
        assert(s2[0] == unix::escaped_body(bytes, i + 1, true)[0]);
    }
    assert(s2.len() > 0 && !unix::spec_ascii_hexdigit(s2[0]));
    lemma_ansi_hex_run(seq![b], 0, s2);
    assert(seq![b].skip(0) =~= seq![b]);
    let seg = ansi_segment(s2);
    match seg {
        Some((bs2, rest2)) => {
            match posix_word(rest2) {
                Some(b2) => {
                    assert(bs2 + b2 == bytes.skip(i + 1));
                    assert(ansi_segment(s) == Some((seq![b] + bs2, rest2)));
                    assert((seq![b] + bs2) + b2 =~= seq![b] + (bs2 + b2));
                    assert(seq![b] + bytes.skip(i + 1) =~= bytes.skip(i));
                },
                None => {
                    assert(false);
                },
            }
        },
        None => {
            assert(false);
        },
    }
}

/// From inside an ANSI-C segment, the rendering of the bytes from `i` on,
/// followed by the closing quote, reads back as exactly those bytes.
proof fn lemma_ansi_body_readback(bytes: Seq<u8>, i: int, esc: bool)
    requires
        0 <= i <= bytes.len(),
    ensures
        ansi_then_word(unix::escaped_body(bytes, i, esc) + seq!['\'']) == Some(bytes.skip(i)),
    decreases bytes.len() - i, (if esc {
        1int
    } else {
        0int
    }),
{
    if i == bytes.len() {
        let s = unix::escaped_body(bytes, i, esc) + seq!['\''];
        assert(unix::escaped_body(bytes, i, esc) =~= Seq::<char>::empty());
        assert(s =~= seq!['\'']);
        assert(s[0] == '\'');
        assert(s.skip(1) =~= Seq::<char>::empty());
        assert(bytes.skip(i) =~= Seq::<u8>::empty());
        assert(ansi_then_word(s) == Some(bytes.skip(i))) by {
            assert(Seq::<u8>::empty() + Seq::<u8>::empty() =~= bytes.skip(i));
        }
    } else if valid_first_scalar(bytes.skip(i)) {
        let c = decode_first_scalar(bytes.skip(i)) as char;
        let l = length_of_first_scalar(bytes.skip(i));
        lemma_scalar_bytes(bytes, i);
        if c == '\n' || c == '\t' || c == '\r' || c == '\\' || c == '\'' {
            lemma_ansi_body_readback(bytes, i + l, false);
            lemma_body_step_named(bytes, i, esc);
        } else if crate::spec_requires_escape(c) || crate::spec_is_bidi(c) {
            lemma_ansi_body_readback(bytes, i + l, true);
            lemma_body_step_hex(bytes, i, esc);
        } else if esc && unix::spec_ascii_hexdigit(c) {
            lemma_ansi_body_readback(bytes, i, false);
            lemma_body_step_splice(bytes, i);
        } else {
            lemma_ansi_body_readback(bytes, i + l, false);
            lemma_body_step_plain(bytes, i, esc);
        }
    } else {
        lemma_ansi_body_readback(bytes, i + 1, true);
        lemma_body_step_invalid(bytes, i, esc);
    }
}

/// Reading a single-quoted segment and then the rest of the word, with
/// the bytes concatenated: the state of the parse just inside a segment.
pub open spec fn single_then_word(s: Seq<char>) -> Option<Seq<u8>> {
    match single_segment(s) {
        Some((bs, rest)) => {
            match posix_word(rest) {
                Some(b2) => Some(bs + b2),
                None => None,
            }
        },
        None => None,
    }
}

/// The single-escaped rendering from position `i` on, as it looks from
/// inside an open single-quoted segment: the character itself, the closing
/// quote when the segment ends here, and the rest.
pub open spec fn single_escaped_inside(t: Seq<char>, i: int) -> Seq<char>
    recommends
        0 <= i < t.len(),
        t[i] != '\'',
{
    seq![t[i]] + (if i == t.len() - 1 || t[i + 1] == '\'' {
        seq!['\'']
    } else {
        Seq::empty()
    }) + unix::single_escaped_from(t, i + 1)
}

/// From inside a segment of the single-escaped form, the rest reads back
/// as the rest of the text.
proof fn lemma_single_escaped_readback_in(t: Seq<char>, i: int)
    requires
        0 <= i < t.len(),
        t[i] != '\'',
        !crate::contains_escape_trigger(t),
    ensures
        single_then_word(single_escaped_inside(t, i)) == Some(encode_utf8(t.skip(i))),
    decreases t.len() - i, 0int,
{
    let s = single_escaped_inside(t, i);
    assert(s[0] == t[i]);
    assert(!crate::spec_requires_escape(t[i]));
    assert(encode_utf8(t.skip(i)) == encode_scalar(t[i] as u32) + encode_utf8(t.skip(i + 1)))
        by {
        assert(t.skip(i)[0] == t[i]);
        assert(t.skip(i).drop_first() =~= t.skip(i + 1));
    }
    if i == t.len() - 1 {
        assert(unix::single_escaped_from(t, i + 1) =~= Seq::<char>::empty());
        assert(s =~= seq![t[i], '\'']);
        assert(s.skip(1) =~= seq!['\'']);
        assert(s.skip(1).skip(1) =~= Seq::<char>::empty());
        assert(t.skip(i + 1) =~= Seq::<char>::empty());
        assert(encode_utf8(Seq::<char>::empty()) =~= Seq::<u8>::empty());
        assert(single_then_word(s) == Some(encode_utf8(t.skip(i)))) by {
            assert((encode_scalar(t[i] as u32) + Seq::<u8>::empty()) + Seq::<u8>::empty()
                =~= encode_scalar(t[i] as u32) + encode_utf8(t.skip(i + 1)));
        }
    } else if t[i + 1] == '\'' {
        assert(s.skip(1) =~= seq!['\''] + unix::single_escaped_from(t, i + 1));
        assert(s.skip(1)[0] == '\'');
        assert(s.skip(1).skip(1) =~= unix::single_escaped_from(t, i + 1));
        lemma_single_escaped_readback_top(t, i + 1);
        assert(single_segment(s) == Some(
            (encode_scalar(t[i] as u32), unix::single_escaped_from(t, i + 1)),
        )) by {
            assert(encode_scalar(t[i] as u32) + Seq::<u8>::empty() =~= encode_scalar(
                t[i] as u32,
            ));
        }
    } else {
        assert(s.skip(1) =~= unix::single_escaped_from(t, i + 1));
        assert(unix::single_escaped_from(t, i + 1) =~= single_escaped_inside(t, i + 1)) by {
            assert(unix::single_escaped_piece(t, i + 1) =~= seq![t[i + 1]] + (if i + 1 == t.len()
                - 1 || t[i + 2] == '\'' {
                seq!['\'']
            } else {
                Seq::<char>::empty()
            }));
        }
        lemma_single_escaped_readback_in(t, i + 1);
        let seg = single_segment(s.skip(1));
        match seg {
            Some((bs2, rest2)) => {
                match posix_word(rest2) {
                    Some(b2) => {
                        assert(bs2 + b2 == encode_utf8(t.skip(i + 1)));
                        assert((encode_scalar(t[i] as u32) + bs2) + b2 =~= encode_scalar(
                            t[i] as u32,
                        ) + (bs2 + b2));
                    },
                    None => {
                        assert(false);
                    },
                }
            },
            None => {
                assert(false);
            },
        }
    }
}

/// At a segment boundary of the single-escaped form, the rest reads back
/// as the rest of the text.
proof fn lemma_single_escaped_readback_top(t: Seq<char>, i: int)
    requires
        0 <= i <= t.len(),
        !crate::contains_escape_trigger(t),
        i == t.len() || t[i] == '\'' || i == 0 || t[i - 1] == '\'',
    ensures
        posix_word(unix::single_escaped_from(t, i)) == Some(encode_utf8(t.skip(i))),
    decreases t.len() - i, 1int,
{
    if i == t.len() {
        assert(unix::single_escaped_from(t, i) =~= Seq::<char>::empty());
        assert(t.skip(i) =~= Seq::<char>::empty());
        assert(encode_utf8(Seq::<char>::empty()) =~= Seq::<u8>::empty());
    } else {
        let s = unix::single_escaped_from(t, i);
        assert(encode_utf8(t.skip(i)) == encode_scalar(t[i] as u32) + encode_utf8(
            t.skip(i + 1),
        )) by {
            assert(t.skip(i)[0] == t[i]);
            assert(t.skip(i).drop_first() =~= t.skip(i + 1));
        }
        if t[i] == '\'' {
            assert(s =~= seq!['\\', '\''] + unix::single_escaped_from(t, i + 1));
            assert(s[0] == '\\' && s[1] == '\'');
            assert(s.skip(2) =~= unix::single_escaped_from(t, i + 1));
            lemma_single_escaped_readback_top(t, i + 1);
            lemma_encode_ascii('\'' as u32);
        } else {
            assert(s =~= seq!['\''] + single_escaped_inside(t, i)) by {
                assert(unix::single_escaped_piece(t, i) =~= seq!['\''] + seq![t[i]] + (if i
                    == t.len() - 1 || t[i + 1] == '\'' {
                    seq!['\'']
                } else {
                    Seq::<char>::empty()
                }));
            }
            assert(s[0] == '\'');
            assert(s.skip(1) =~= single_escaped_inside(t, i));
            lemma_single_escaped_readback_in(t, i);
            lemma_single_segment_shrinks(s.skip(1));
            let seg = single_segment(s.skip(1));
            match seg {
                Some((bs2, rest2)) => {
                    assert(rest2.len() < s.len());
                    match posix_word(rest2) {
                        Some(b2) => {
                            assert(bs2 + b2 == encode_utf8(t.skip(i)));
                        },
                        None => {
                            assert(false);
                        },
                    }
                },
                None => {
                    assert(false);
                },
            }
        }
    }
}

/// Round trip, escape-mode path: the ANSI-C rendering of any byte
/// sequence, read back under the word model, denotes exactly those bytes.
pub proof fn lemma_unix_escaped_readback(bytes: Seq<u8>)
    ensures
        posix_word(unix::escaped(bytes)) == Some(bytes),
{
    let s = unix::escaped(bytes);
    assert(s[0] == '$' && s[1] == '\'');
    assert(s.skip(2) =~= unix::escaped_body(bytes, 0, false) + seq!['\'']);
    lemma_ansi_body_readback(bytes, 0, false);
    lemma_ansi_segment_shrinks(s.skip(2));
    let seg = ansi_segment(s.skip(2));
    match seg {
        Some((bs2, rest2)) => {
            assert(rest2.len() < s.len());
            match posix_word(rest2) {
                Some(b2) => {
                    assert(bs2 + b2 == bytes.skip(0));
                    assert(bytes.skip(0) =~= bytes);
                },
                None => {
                    assert(false);
                },
            }
        },
        None => {
            assert(false);
        },
    }
}

/// Round trip: whenever the POSIX-shell rendering quotes — always under
/// forced quoting, and otherwise whenever classification requires it —
/// reading the rendering back under the word model yields exactly the
/// original text, as UTF-8 bytes. On the remaining path the rendering is
/// the text itself, unchanged.
pub proof fn lemma_unix_rendered_readback(t: Seq<char>, force: bool)
    requires
        unix::requires_quote(t, force) || crate::escape_mode(t),
    ensures
        posix_word(unix::rendered(t, force)) == Some(encode_utf8(t)),
{
    broadcast use vstd::utf8::encode_utf8_valid_utf8;

    if crate::escape_mode(t) {
        lemma_unix_escaped_readback(encode_utf8(t));
    } else if unix::single_safe(t) {
        let s = crate::simple_quoted(t, '\'');
        assert(s[0] == '\'');
        assert(s.skip(1) =~= t + seq!['\''] + Seq::<char>::empty());
        lemma_single_segment_literal(t, Seq::empty());
        assert(posix_word(Seq::<char>::empty()) == Some(Seq::<u8>::empty()));
        assert(encode_utf8(t) + Seq::<u8>::empty() =~= encode_utf8(t));
    } else if unix::double_safe(t) {
        let s = crate::simple_quoted(t, '"');
        assert(s[0] == '"');
        assert(s.skip(1) =~= t + seq!['"'] + Seq::<char>::empty());
        lemma_double_segment_literal(t, Seq::empty());
        assert(posix_word(Seq::<char>::empty()) == Some(Seq::<u8>::empty()));
        assert(encode_utf8(t) + Seq::<u8>::empty() =~= encode_utf8(t));
    } else {
        lemma_single_escaped_readback_top(t, 0);
        assert(t.skip(0) =~= t);
    }
}

/// Round trip for a rendered value: a force-quoted `Quoted` over POSIX
/// text or raw bytes, or over PowerShell text with modern argument
/// passing, reads back as exactly its content.
pub proof fn lemma_quoted_readback(q: Quoted)
    requires
        q.force_quote,
    ensures
        q.source matches Kind::Unix(text) ==> posix_word(q.spec_render()) == Some(
            encode_utf8(text@),
        ),
        q.source matches Kind::UnixRaw(bytes) ==> posix_word(q.spec_render()) == Some(bytes@),
        q.source matches Kind::Windows(text) ==> (!q.external ==> ps_word(q.spec_render())
            == Some(text@)),
{
    match q.source {
        Kind::Unix(text) => {
            lemma_unix_rendered_readback(text@, true);
        },
        Kind::UnixRaw(bytes) => {
            if valid_utf8(bytes@) {
                lemma_unix_rendered_readback(decode_utf8(bytes@), true);
                vstd::utf8::decode_utf8_encode_utf8(bytes@);
            } else {
                lemma_unix_escaped_readback(bytes@);
            }
        },
        Kind::Windows(text) => {
            if !q.external {
                lemma_windows_rendered_readback(text@, true);
            }
        },
        _ => {},
    }
}

/// Greedy scan of up to `budget` hexadecimal digits, folding them into
/// `acc`; stops at the first non-digit. A further digit past the budget
/// fails the parse.
pub open spec fn ps_hex_scan(s: Seq<char>, acc: int, budget: int) -> Option<(int, Seq<char>)>
    decreases s.len(),
{
    if s.len() > 0 && unix::spec_ascii_hexdigit(s[0]) {
        if budget <= 0 {
            None
        } else {
            ps_hex_scan(s.skip(1), acc * 16 + hex_char_val(s[0]), budget - 1)
        }
    } else {
        Some((acc, s))
    }
}

/// Reads the inside of a PowerShell single-quoted segment up to its
/// closing quote. Any single-quote-class character doubled stands for the
/// second of the two; a lone one closes the segment. Everything else,
/// apart from raw control characters, stands for itself.
pub open spec fn ps_single_segment(s: Seq<char>) -> Option<(Seq<char>, Seq<char>)>
    decreases s.len(),
{
    if s.len() == 0 {
        None
    } else if windows::spec_single_quote(s[0]) {
        if s.len() >= 2 && windows::spec_single_quote(s[1]) {
            match ps_single_segment(s.skip(2)) {
                Some((cs, rest)) => Some((seq![s[1]] + cs, rest)),
                None => None,
            }
        } else {
            Some((seq![], s.skip(1)))
        }
    } else if crate::spec_requires_escape(s[0]) {
        None
    } else {
        match ps_single_segment(s.skip(1)) {
            Some((cs, rest)) => Some((seq![s[0]] + cs, rest)),
            None => None,
        }
    }
}

/// Reads the inside of a PowerShell double-quoted segment up to its
/// closing quote. Only the backtick escapes the renderer emits are given
/// a meaning; a raw `$` or backtick would interpolate, and a raw control
/// character or second double quote has no place in a rendering, so each
/// of those fails the parse.
pub open spec fn ps_double_segment(s: Seq<char>) -> Option<(Seq<char>, Seq<char>)>
    decreases s.len(),
{
    if s.len() == 0 {
        None
    } else if s[0] == '`' {
        if s.len() < 2 {
            None
        } else if s[1] == '0' || s[1] == 'r' || s[1] == 'n' || s[1] == 't' || s[1] == 'a' || s[1]
            == 'b' || s[1] == 'v' || s[1] == 'f' {
            let c: char = if s[1] == '0' {
                '\0'
            } else if s[1] == 'r' {
                '\r'
            } else if s[1] == 'n' {
                '\n'
            } else if s[1] == 't' {
                '\t'
            } else if s[1] == 'a' {
                '\u{07}'
            } else if s[1] == 'b' {
                '\u{08}'
            } else if s[1] == 'v' {
                '\u{0B}'
            } else {
                '\u{0C}'
            };
            match ps_double_segment(s.skip(2)) {
                Some((cs, rest)) => Some((seq![c] + cs, rest)),
                None => None,
            }
        } else if s[1] == 'u' {
            if s.len() < 4 || s[2] != '{' || !unix::spec_ascii_hexdigit(s[3]) {
                None
            } else {
                match ps_hex_scan(s.skip(3), 0, 6) {
                    Some((v, after)) => {
                        // the scan only consumes characters, so what is
                        // left is shorter; the bound keeps the recursion
                        // visibly decreasing
                        if after.len() > 0 && after.len() < s.len() && after[0] == '}' && 0 <= v
                            < 0x110000 && !(0xD800 <= v < 0xE000) {
                            match ps_double_segment(after.skip(1)) {
                                Some((cs, rest)) => Some((seq![((v as u32) as char)] + cs, rest)),
                                None => None,
                            }
                        } else {
                            None
                        }
                    },
                    None => None,
                }
            }
        } else if s[1] == '`' || s[1] == '$' || windows::spec_double_quote(s[1]) {
            match ps_double_segment(s.skip(2)) {
                Some((cs, rest)) => Some((seq![s[1]] + cs, rest)),
                None => None,
            }
        } else {
            None
        }
    } else if windows::spec_double_quote(s[0]) {
        Some((seq![], s.skip(1)))
    } else if s[0] == '$' || crate::spec_requires_escape(s[0]) {
        None
    } else {
        match ps_double_segment(s.skip(1)) {
            Some((cs, rest)) => Some((seq![s[0]] + cs, rest)),
            None => None,
        }
    }
}

/// Reads one whole PowerShell token in modern argument passing: a
/// concatenation of single- and double-quoted segments. A bare character
/// is not given a meaning: whether PowerShell reads it as an option, a
/// number or a word depends on context, and the renderer leaves text bare
/// only on the identity path.
pub open spec fn ps_word(s: Seq<char>) -> Option<Seq<char>>
    decreases s.len(),
{
    if s.len() == 0 {
        Some(seq![])
    } else if windows::spec_single_quote(s[0]) {
        match ps_single_segment(s.skip(1)) {
            Some((cs, rest)) => {
                // a segment always consumes at least its closing quote;
                // the bound keeps the recursion visibly decreasing
                if rest.len() < s.len() {
                    match ps_word(rest) {
                        Some(c2) => Some(cs + c2),
                        None => None,
                    }
                } else {
                    None
                }
            },
            None => None,
        }
    } else if windows::spec_double_quote(s[0]) {
        match ps_double_segment(s.skip(1)) {
            Some((cs, rest)) => {
                if rest.len() < s.len() {
                    match ps_word(rest) {
                        Some(c2) => Some(cs + c2),
                        None => None,
                    }
                } else {
                    None
                }
            },
            None => None,
        }
    } else {
        None
    }
}

proof fn lemma_ps_single_segment_shrinks(s: Seq<char>)
    ensures
        ps_single_segment(s) matches Some((cs, rest)) ==> rest.len() < s.len(),
    decreases s.len(),
{
    if s.len() >= 2 && windows::spec_single_quote(s[0]) && windows::spec_single_quote(s[1]) {
        lemma_ps_single_segment_shrinks(s.skip(2));
    } else if s.len() > 0 && !windows::spec_single_quote(s[0]) && !crate::spec_requires_escape(
        s[0],
    ) {
        lemma_ps_single_segment_shrinks(s.skip(1));
    }
}

proof fn lemma_ps_double_segment_shrinks(s: Seq<char>)
    ensures
        ps_double_segment(s) matches Some((cs, rest)) ==> rest.len() < s.len(),
    decreases s.len(),
{
    if s.len() >= 2 && s[0] == '`' {
        lemma_ps_double_segment_shrinks(s.skip(2));
        if s[1] == 'u' && s.len() >= 4 && s[2] == '{' && unix::spec_ascii_hexdigit(s[3]) {
            match ps_hex_scan(s.skip(3), 0, 6) {
                Some((v, after)) => {
                    lemma_ps_hex_scan_shrinks(s.skip(3), 0, 6);
                    if after.len() > 0 {
                        lemma_ps_double_segment_shrinks(after.skip(1));
                    }
                },
                None => {},
            }
        }
    } else if s.len() > 0 && s[0] != '`' && !windows::spec_double_quote(s[0]) && s[0] != '$'
        && !crate::spec_requires_escape(s[0]) {
        lemma_ps_double_segment_shrinks(s.skip(1));
    }
}

proof fn lemma_ps_hex_scan_shrinks(s: Seq<char>, acc: int, budget: int)
    ensures
        ps_hex_scan(s, acc, budget) matches Some((v, after)) ==> after.len() <= s.len(),
    decreases s.len(),
{
    if s.len() > 0 && unix::spec_ascii_hexdigit(s[0]) && budget > 0 {
        lemma_ps_hex_scan_shrinks(s.skip(1), acc * 16 + hex_char_val(s[0]), budget - 1);
    }
}

/// The value of hexadecimal digits folded onto `acc`, most significant
/// first.
pub open spec fn val_from(acc: int, ds: Seq<char>) -> int
    decreases ds.len(),
{
    if ds.len() == 0 {
        acc
    } else {
        val_from(acc * 16 + hex_char_val(ds[0]), ds.drop_first())
    }
}

proof fn lemma_ps_hex_scan_run(ds: Seq<char>, tail: Seq<char>, acc: int, budget: int)
    requires
        forall|k: int| 0 <= k < ds.len() ==> unix::spec_ascii_hexdigit(#[trigger] ds[k]),
        ds.len() <= budget,
        tail.len() > 0,
        !unix::spec_ascii_hexdigit(tail[0]),
    ensures
        ps_hex_scan(ds + tail, acc, budget) == Some((val_from(acc, ds), tail)),
    decreases ds.len(),
{
    let s = ds + tail;
    if ds.len() == 0 {
        assert(s =~= tail);
    } else {
        assert(s[0] == ds[0]);
        assert(s.skip(1) =~= ds.drop_first() + tail);
        lemma_ps_hex_scan_run(
            ds.drop_first(),
            tail,
            acc * 16 + hex_char_val(ds[0]),
            budget - 1,
        );
    }
}

proof fn lemma_val_from_push(acc: int, ds: Seq<char>, d: char)
    ensures
        val_from(acc, ds.push(d)) == val_from(acc, ds) * 16 + hex_char_val(d),
    decreases ds.len(),
{
    if ds.len() == 0 {
        assert(ds.push(d)[0] == d);
        assert(ds.push(d).drop_first() =~= Seq::<char>::empty());
        assert(val_from(acc, ds.push(d)) == val_from(
            acc * 16 + hex_char_val(d),
            Seq::<char>::empty(),
        ));
        assert(val_from(acc * 16 + hex_char_val(d), Seq::<char>::empty()) == acc * 16
            + hex_char_val(d));
        assert(val_from(acc, ds) == acc);
    } else {
        assert(ds.push(d)[0] == ds[0]);
        assert(ds.push(d).drop_first() =~= ds.drop_first().push(d));
        lemma_val_from_push(acc * 16 + hex_char_val(ds[0]), ds.drop_first(), d);
        assert(val_from(acc, ds.push(d)) == val_from(
            acc * 16 + hex_char_val(ds[0]),
            ds.drop_first().push(d),
        ));
        assert(val_from(acc, ds) == val_from(acc * 16 + hex_char_val(ds[0]), ds.drop_first()));
    }
}

proof fn lemma_val_from_digits(n: int)
    requires
        n >= 0,
    ensures
        val_from(0, hex_digits(n)) == n,
        forall|k: int|
            0 <= k < hex_digits(n).len() ==> unix::spec_ascii_hexdigit(#[trigger] hex_digits(n)[k]),
    decreases n,
{
    lemma_hex_digit_char(n % 16);
    if n < 16 {
        lemma_hex_digit_char(n);
        assert(hex_digits(n) =~= seq![hex_digit(n)]);
        assert(seq![hex_digit(n)].drop_first() =~= Seq::<char>::empty());
        assert(val_from(0, seq![hex_digit(n)]) == val_from(n, Seq::<char>::empty()));
        assert(val_from(n, Seq::<char>::empty()) == n);
    } else {
        lemma_val_from_digits(n / 16);
        lemma_val_from_push(0, hex_digits(n / 16), hex_digit(n % 16));
        assert(hex_digits(n) == hex_digits(n / 16).push(hex_digit(n % 16)));
        assert(val_from(0, hex_digits(n)) == (n / 16) * 16 + (n % 16));
        assert((n / 16) * 16 + (n % 16) == n);
        assert forall|k: int| 0 <= k < hex_digits(n).len() implies unix::spec_ascii_hexdigit(
            #[trigger] hex_digits(n)[k],
        ) by {
            if k < hex_digits(n / 16).len() {
                assert(hex_digits(n)[k] == hex_digits(n / 16)[k]);
            }
        }
    }
}

proof fn lemma_val_from_pad2(v: u32)
    ensures
        1 <= hex_pad(v as int, 2).len() <= hex_digits(v as int).len() + 1,
        forall|k: int|
            0 <= k < hex_pad(v as int, 2).len() ==> unix::spec_ascii_hexdigit(
                #[trigger] hex_pad(v as int, 2)[k],
            ),
        val_from(0, hex_pad(v as int, 2)) == v,
{
    lemma_val_from_digits(v as int);
    lemma_hex_digits_len(v as int);
    if hex_digits(v as int).len() >= 2 {
        assert(hex_pad(v as int, 2) == hex_digits(v as int));
    } else {
        assert(v < 16) by {
            if v >= 16 {
                lemma_hex_digits_len(v as int / 16);
                assert(hex_digits(v as int) == hex_digits(v as int / 16).push(
                    hex_digit(v as int % 16),
                ));
                assert(hex_digits(v as int).len() >= 2);
            }
        }
        lemma_hex_digit_char(v as int);
        assert(hex_digits(v as int) =~= seq![hex_digit(v as int)]);
        assert(hex_pad(v as int, 2) =~= seq!['0', hex_digit(v as int)]);
        assert(hex_char_val('0') == 0);
        assert(seq!['0', hex_digit(v as int)].drop_first() =~= seq![hex_digit(v as int)]);
        assert(seq![hex_digit(v as int)].drop_first() =~= Seq::<char>::empty());
    }
}

/// A Unicode scalar value has at most six hexadecimal digits.
proof fn lemma_hex_digits_at_most_six(n: int)
    requires
        0 <= n <= 0x10FFFF,
    ensures
        hex_digits(n).len() <= 6,
{
    if n >= 16 {
        assert(hex_digits(n).len() == 1 + hex_digits(n / 16).len());
        if n / 16 >= 16 {
            assert(hex_digits(n / 16).len() == 1 + hex_digits(n / 256).len());
            if n / 256 >= 16 {
                assert(hex_digits(n / 256).len() == 1 + hex_digits(n / 4096).len());
                if n / 4096 >= 16 {
                    assert(hex_digits(n / 4096).len() == 1 + hex_digits(n / 65536).len());
                    if n / 65536 >= 16 {
                        assert(n / 1048576 < 16);
                        assert(hex_digits(n / 65536).len() == 1 + hex_digits(n / 1048576).len());
                        assert(hex_digits(n / 1048576).len() == 1);
                    }
                }
            }
        }
    }
}

/// Reading literal text inside a PowerShell single-quoted segment, up to
/// the final quote, yields the text itself.
proof fn lemma_ps_single_literal(t: Seq<char>)
    requires
        windows::single_safe(t),
        !crate::contains_escape_trigger(t),
    ensures
        ps_single_segment(t + seq!['\'']) == Some((t, Seq::<char>::empty())),
    decreases t.len(),
{
    let s = t + seq!['\''];
    if t.len() == 0 {
        assert(s =~= seq!['\'']);
        assert(s.skip(1) =~= Seq::<char>::empty());
    } else {
        assert(s[0] == t[0]);
        assert(!windows::spec_single_quote(t[0]) && !crate::spec_requires_escape(t[0]));
        assert(s.skip(1) =~= t.drop_first() + seq!['\'']);
        lemma_ps_single_literal(t.drop_first());
        assert(seq![t[0]] + t.drop_first() =~= t);
    }
}

/// Reading literal text inside a PowerShell double-quoted segment, up to
/// the final quote, yields the text itself.
proof fn lemma_ps_double_literal(t: Seq<char>)
    requires
        windows::double_safe(t),
        !crate::contains_escape_trigger(t),
    ensures
        ps_double_segment(t + seq!['"']) == Some((t, Seq::<char>::empty())),
    decreases t.len(),
{
    let s = t + seq!['"'];
    if t.len() == 0 {
        assert(s =~= seq!['"']);
        assert(s.skip(1) =~= Seq::<char>::empty());
    } else {
        assert(s[0] == t[0]);
        assert(!windows::double_unsafe_char(t[0]));
        assert(t[0] != '`' && !windows::spec_double_quote(t[0]) && t[0] != '$'
            && !crate::spec_requires_escape(t[0]));
        assert(s.skip(1) =~= t.drop_first() + seq!['"']);
        lemma_ps_double_literal(t.drop_first());
        assert(seq![t[0]] + t.drop_first() =~= t);
    }
}

/// Inside the quote-doubling form, the rest reads back as the rest of the
/// text: each doubled quote-class character stands for its second, and the
/// final quote closes.
proof fn lemma_ps_doubling_inside(t: Seq<char>, i: int)
    requires
        0 <= i <= t.len(),
        !crate::contains_escape_trigger(t),
    ensures
        ps_single_segment(windows::single_escaped_from(t, i) + seq!['\'']) == Some(
            (t.skip(i), Seq::<char>::empty()),
        ),
    decreases t.len() - i,
{
    let s = windows::single_escaped_from(t, i) + seq!['\''];
    if i == t.len() {
        assert(windows::single_escaped_from(t, i) =~= Seq::<char>::empty());
        assert(s =~= seq!['\'']);
        assert(s.skip(1) =~= Seq::<char>::empty());
        assert(t.skip(i) =~= Seq::<char>::empty());
    } else {
        lemma_ps_doubling_inside(t, i + 1);
        assert(t.skip(i) =~= seq![t[i]] + t.skip(i + 1));
        if windows::spec_single_quote(t[i]) {
            assert(s =~= seq!['\'', t[i]] + (windows::single_escaped_from(t, i + 1)
                + seq!['\'']));
            assert(s[0] == '\'' && s[1] == t[i]);
            assert(s.skip(2) =~= windows::single_escaped_from(t, i + 1) + seq!['\'']);
        } else {
            assert(s =~= seq![t[i]] + (windows::single_escaped_from(t, i + 1) + seq!['\'']));
            assert(s[0] == t[i]);
            assert(!crate::spec_requires_escape(t[i]));
            assert(s.skip(1) =~= windows::single_escaped_from(t, i + 1) + seq!['\'']);
        }
    }
}

/// Inside the backtick escape-mode form with modern argument passing, the
/// rest reads back as the rest of the text.
proof fn lemma_ps_escape_inside(t: Seq<char>, i: int, bs: nat)
    requires
        0 <= i <= t.len(),
    ensures
        ps_double_segment(
            windows::escaped_body(windows::ok_units(t), i, bs, false) + seq!['"'],
        ) == Some((t.skip(i), Seq::<char>::empty())),
    decreases t.len() - i,
{
    broadcast use vstd::utf8::char_is_scalar;
    broadcast use vstd::utf8::char_u32_cast;

    let units = windows::ok_units(t);
    assert(units.len() == t.len());
    let s = windows::escaped_body(units, i, bs, false) + seq!['"'];
    if i == t.len() {
        assert(windows::escaped_body(units, i, bs, false) =~= Seq::<char>::empty());
        assert(s =~= seq!['"']);
        assert(s.skip(1) =~= Seq::<char>::empty());
        assert(t.skip(i) =~= Seq::<char>::empty());
    } else {
        let c = t[i];
        assert(units[i] == Ok::<char, u16>(c));
        let bs2 = windows::unit_bs(units[i], bs);
        lemma_ps_escape_inside(t, i + 1, bs2);
        let s2 = windows::escaped_body(units, i + 1, bs2, false) + seq!['"'];
        assert(t.skip(i) =~= seq![c] + t.skip(i + 1));
        if c == '\0' || c == '\r' || c == '\n' || c == '\t' || c == '\u{07}' || c == '\u{08}' || c
            == '\u{0B}' || c == '\u{0C}' {
            let e: char = if c == '\0' {
                '0'
            } else if c == '\r' {
                'r'
            } else if c == '\n' {
                'n'
            } else if c == '\t' {
                't'
            } else if c == '\u{07}' {
                'a'
            } else if c == '\u{08}' {
                'b'
            } else if c == '\u{0B}' {
                'v'
            } else {
                'f'
            };
            assert(windows::escaped_unit_out(units[i], bs, false) =~= seq!['`', e]);
            assert(s =~= seq!['`', e] + s2);
            assert(s[0] == '`' && s[1] == e);
            assert(s.skip(2) =~= s2);
        } else if crate::spec_requires_escape(c) || crate::spec_is_bidi(c) {
            let v = c as u32;
            let ds = hex_pad(v as int, 2);
            lemma_val_from_pad2(v);
            lemma_hex_digits_at_most_six(v as int);
            assert(windows::escaped_unit_out(units[i], bs, false) =~= seq!['`', 'u', '{'] + ds
                + seq!['}']);
            assert(s =~= seq!['`', 'u', '{'] + (ds + (seq!['}'] + s2)));
            assert(s[0] == '`' && s[1] == 'u' && s[2] == '{');
            assert(s[3] == ds[0]);
            assert(s.skip(3) =~= ds + (seq!['}'] + s2));
            let tail = seq!['}'] + s2;
            assert(tail[0] == '}' && !unix::spec_ascii_hexdigit('}'));
            lemma_ps_hex_scan_run(ds, tail, 0, 6);
            assert(ps_hex_scan(s.skip(3), 0, 6) == Some((v as int, tail)));
            assert(tail.len() < s.len());
            assert(tail.skip(1) =~= s2);
            assert((v as int) as u32 == v);
            vstd::utf8::char_u32_cast(c, v);
            assert(((v as int) as u32) as char == c);
        } else if c == '`' || c == '$' {
            assert(windows::escaped_unit_out(units[i], bs, false) =~= seq!['`', c]);
            assert(s =~= seq!['`', c] + s2);
            assert(s[0] == '`' && s[1] == c);
            assert(s.skip(2) =~= s2);
        } else if windows::spec_double_quote(c) {
            assert(windows::escaped_unit_out(units[i], bs, false) =~= seq!['`', c]);
            assert(s =~= seq!['`', c] + s2);
            assert(s[0] == '`' && s[1] == c);
            assert(s.skip(2) =~= s2);
        } else {
            assert(windows::escaped_unit_out(units[i], bs, false) =~= seq![c]);
            assert(s =~= seq![c] + s2);
            assert(s[0] == c);
            assert(c != '`' && !windows::spec_double_quote(c) && c != '$'
                && !crate::spec_requires_escape(c));
            assert(s.skip(1) =~= s2);
        }
    }
}

/// Round trip for PowerShell with modern argument passing: whenever the
/// rendering quotes — always under forced quoting, otherwise whenever
/// classification requires it, and for the literal stop-parsing token —
/// reading it back under the token model yields exactly the original
/// text. On the remaining path the rendering is the text itself,
/// unchanged.
pub proof fn lemma_windows_rendered_readback(t: Seq<char>, force: bool)
    requires
        windows::requires_quote(t, force, false) || crate::escape_mode(t) || t == seq![
            '-',
            '-',
            '%',
        ],
    ensures
        ps_word(windows::rendered(t, force, false)) == Some(t),
{
    let r = windows::rendered(t, force, false);
    if t == seq!['-', '-', '%'] {
        assert(r =~= seq!['\''] + (t + seq!['\'']));
        assert(windows::single_safe(t));
        assert(!crate::contains_escape_trigger(t));
        lemma_ps_single_literal(t);
        assert(r[0] == '\'');
        assert(r.skip(1) =~= t + seq!['\'']);
        assert(ps_word(Seq::<char>::empty()) == Some(Seq::<char>::empty()));
        assert(t + Seq::<char>::empty() =~= t);
    } else if crate::escape_mode(t) {
        lemma_ps_escape_inside(t, 0, 0);
        assert(r =~= seq!['"'] + (windows::escaped_body(windows::ok_units(t), 0, 0, false)
            + seq!['"']));
        assert(r[0] == '"');
        assert(r.skip(1) =~= windows::escaped_body(windows::ok_units(t), 0, 0, false)
            + seq!['"']);
        assert(t.skip(0) =~= t);
        assert(ps_word(Seq::<char>::empty()) == Some(Seq::<char>::empty()));
        assert(t + Seq::<char>::empty() =~= t);
    } else if windows::single_safe(t) {
        assert(r =~= seq!['\''] + (t + seq!['\'']));
        lemma_ps_single_literal(t);
        assert(r[0] == '\'');
        assert(r.skip(1) =~= t + seq!['\'']);
        assert(ps_word(Seq::<char>::empty()) == Some(Seq::<char>::empty()));
        assert(t + Seq::<char>::empty() =~= t);
    } else if windows::double_safe(t) {
        assert(r =~= seq!['"'] + (t + seq!['"']));
        lemma_ps_double_literal(t);
        assert(r[0] == '"');
        assert(r.skip(1) =~= t + seq!['"']);
        assert(ps_word(Seq::<char>::empty()) == Some(Seq::<char>::empty()));
        assert(t + Seq::<char>::empty() =~= t);
    } else {
        lemma_ps_doubling_inside(t, 0);
        assert(r =~= seq!['\''] + (windows::single_escaped_from(t, 0) + seq!['\'']));
        assert(r[0] == '\'');
        assert(r.skip(1) =~= windows::single_escaped_from(t, 0) + seq!['\'']);
        assert(t.skip(0) =~= t);
        assert(ps_word(Seq::<char>::empty()) == Some(Seq::<char>::empty()));
        assert(t + Seq::<char>::empty() =~= t);
    }
}

} // verus!
