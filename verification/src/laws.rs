//! The library-wide guarantees: a bare result only when nothing forces
//! quoting, a quoting delimiter up front whenever quoting is forced, and no
//! unsafe character in any rendering.

use vstd::prelude::*;
use vstd::utf8::*;

use crate::encoding::{hex_digit, hex_digits, hex_pad};
use crate::unix;
use crate::windows;
use crate::{
    contains_escape_trigger, escape_mode, simple_quoted, spec_requires_escape, Kind, Quoted,
};

verus! {

/// A character of a rendering is "safe" when it needs no escaping: not a
/// control character and not a line or paragraph separator.
pub open spec fn all_safe(t: Seq<char>) -> bool {
    forall|i: int| 0 <= i < t.len() ==> !spec_requires_escape(#[trigger] t[i])
}

proof fn lemma_hex_digits_safe(n: int)
    requires
        n >= 0,
    ensures
        all_safe(hex_digits(n)),
    decreases n,
{
    assert(!spec_requires_escape(hex_digit(n % 16)));
    if n < 16 {
        assert(!spec_requires_escape(hex_digit(n)));
    } else {
        lemma_hex_digits_safe(n / 16);
        assert forall|i: int| 0 <= i < hex_digits(n).len() implies !spec_requires_escape(
            #[trigger] hex_digits(n)[i],
        ) by {
            if i < hex_digits(n / 16).len() {
                assert(!spec_requires_escape(hex_digits(n / 16)[i]));
            }
        }
    }
}

proof fn lemma_hex_pad_safe(n: int, w: int)
    requires
        n >= 0,
    ensures
        all_safe(hex_pad(n, w)),
{
    lemma_hex_digits_safe(n);
    assert forall|i: int| 0 <= i < hex_pad(n, w).len() implies !spec_requires_escape(
        #[trigger] hex_pad(n, w)[i],
    ) by {
        let d = hex_digits(n);
        if d.len() < w && i >= w - d.len() {
            assert(hex_pad(n, w)[i] == d[i - (w - d.len())]);
        }
    }
}

proof fn lemma_unix_hex_escape_from_safe(bs: Seq<u8>, j: int)
    requires
        0 <= j <= bs.len(),
    ensures
        all_safe(unix::hex_escape_from(bs, j)),
    decreases bs.len() - j,
{
    if j < bs.len() {
        lemma_hex_pad_safe(bs[j] as int, 2);
        lemma_unix_hex_escape_from_safe(bs, j + 1);
        assert(all_safe(unix::hex_escape_byte(bs[j])));
    }
}

proof fn lemma_unix_escaped_char_out_safe(c: char, esc: bool)
    ensures
        all_safe(unix::escaped_char_out(c, esc)),
{
    if !(c == '\n' || c == '\t' || c == '\r') && (spec_requires_escape(c) || crate::spec_is_bidi(
        c,
    )) {
        let eb = encode_scalar(c as u32);
        lemma_unix_hex_escape_from_safe(eb, 0);
    }
}

proof fn lemma_unix_escaped_body_safe(bytes: Seq<u8>, i: int, esc: bool)
    requires
        0 <= i <= bytes.len(),
    ensures
        all_safe(unix::escaped_body(bytes, i, esc)),
    decreases bytes.len() - i,
{
    if i < bytes.len() {
        if valid_first_scalar(bytes.skip(i)) {
            let c = decode_first_scalar(bytes.skip(i)) as char;
            let l = length_of_first_scalar(bytes.skip(i));
            lemma_unix_escaped_char_out_safe(c, esc);
            lemma_unix_escaped_body_safe(bytes, i + l, unix::escaped_char_state(c));
        } else {
            lemma_hex_pad_safe(bytes[i] as int, 2);
            assert(all_safe(unix::hex_escape_byte(bytes[i])));
            lemma_unix_escaped_body_safe(bytes, i + 1, true);
        }
    }
}

/// Escape-mode output for a POSIX shell never holds an unsafe character,
/// whatever the input bytes.
pub proof fn lemma_unix_escaped_safe(bytes: Seq<u8>)
    ensures
        all_safe(unix::escaped(bytes)),
{
    lemma_unix_escaped_body_safe(bytes, 0, false);
}

proof fn lemma_unix_single_escaped_safe(t: Seq<char>)
    requires
        !contains_escape_trigger(t),
    ensures
        all_safe(unix::single_escaped(t)),
{
    lemma_unix_single_escaped_from_safe(t, 0);
}

proof fn lemma_unix_single_escaped_from_safe(t: Seq<char>, i: int)
    requires
        !contains_escape_trigger(t),
        0 <= i <= t.len(),
    ensures
        all_safe(unix::single_escaped_from(t, i)),
    decreases t.len() - i,
{
    if i < t.len() {
        assert(!spec_requires_escape(t[i]));
        lemma_unix_single_escaped_from_safe(t, i + 1);
        assert(all_safe(unix::single_escaped_piece(t, i)));
    }
}

/// A POSIX-shell rendering never holds an unsafe character: a raw control
/// character or a line or paragraph separator.
pub proof fn lemma_unix_rendered_safe(t: Seq<char>, force: bool)
    ensures
        all_safe(unix::rendered(t, force)),
{
    if escape_mode(t) {
        lemma_unix_escaped_safe(encode_utf8(t));
    } else {
        assert(all_safe(t));
        if unix::requires_quote(t, force) {
            if unix::single_safe(t) {
                assert(all_safe(simple_quoted(t, '\'')));
            } else if unix::double_safe(t) {
                assert(all_safe(simple_quoted(t, '"')));
            } else {
                lemma_unix_single_escaped_safe(t);
            }
        }
    }
}

proof fn lemma_windows_escaped_unit_out_safe(x: Result<char, u16>, bs: nat, external: bool)
    ensures
        all_safe(windows::escaped_unit_out(x, bs, external)),
{
    match x {
        Err(u) => {
            lemma_hex_pad_safe(u as int, 4);
        },
        Ok(c) => {
            if !(c == '\0' || c == '\r' || c == '\n' || c == '\t' || c == '\u{07}' || c == '\u{08}'
                || c == '\u{0B}' || c == '\u{0C}') && (spec_requires_escape(c)
                || crate::spec_is_bidi(c)) {
                lemma_hex_pad_safe(c as u32 as int, 2);
            }
        },
    }
}

proof fn lemma_windows_escaped_body_safe(
    units: Seq<Result<char, u16>>,
    i: int,
    bs: nat,
    external: bool,
)
    requires
        0 <= i <= units.len(),
    ensures
        all_safe(windows::escaped_body(units, i, bs, external)),
    decreases units.len() - i,
{
    if i < units.len() {
        lemma_windows_escaped_unit_out_safe(units[i], bs, external);
        lemma_windows_escaped_body_safe(units, i + 1, windows::unit_bs(units[i], bs), external);
    }
}

/// Escape-mode output for PowerShell never holds an unsafe character,
/// whatever the input units.
pub proof fn lemma_windows_escaped_safe(units: Seq<Result<char, u16>>, external: bool)
    ensures
        all_safe(windows::escaped(units, external)),
{
    lemma_windows_escaped_body_safe(units, 0, 0, external);
}

proof fn lemma_windows_single_escaped_from_safe(t: Seq<char>, i: int)
    requires
        !contains_escape_trigger(t),
        0 <= i <= t.len(),
    ensures
        all_safe(windows::single_escaped_from(t, i)),
    decreases t.len() - i,
{
    if i < t.len() {
        assert(!spec_requires_escape(t[i]));
        lemma_windows_single_escaped_from_safe(t, i + 1);
    }
}

proof fn lemma_windows_external_escaped_from_safe(t: Seq<char>, i: int, bs: nat)
    requires
        !contains_escape_trigger(t),
        0 <= i <= t.len(),
    ensures
        all_safe(windows::external_escaped_from(t, i, bs)),
    decreases t.len() - i,
{
    if i < t.len() {
        assert(!spec_requires_escape(t[i]));
        if t[i] == '"' {
            lemma_windows_external_escaped_from_safe(t, i + 1, 0);
            assert(all_safe(Seq::new(bs + 1, |k: int| '\\')));
        } else if windows::spec_single_quote(t[i]) {
            lemma_windows_external_escaped_from_safe(t, i + 1, 0);
        } else {
            lemma_windows_external_escaped_from_safe(
                t,
                i + 1,
                if t[i] == '\\' {
                    bs + 1
                } else {
                    0
                },
            );
        }
    }
}

/// A PowerShell rendering never holds an unsafe character: a raw control
/// character or a line or paragraph separator.
pub proof fn lemma_windows_rendered_safe(t: Seq<char>, force: bool, external: bool)
    ensures
        all_safe(windows::rendered(t, force, external)),
{
    if external && t.len() == 0 {
        assert(all_safe(seq!['\'', '"', '"', '\'']));
    } else if t == seq!['-', '-', '%'] {
        assert(all_safe(seq!['\'', '"', '-', '-', '%', '"', '\'']));
        assert(all_safe(seq!['\'', '-', '-', '%', '\'']));
    } else if escape_mode(t) {
        lemma_windows_escaped_safe(windows::ok_units(t), external);
    } else {
        assert(all_safe(t));
        if windows::requires_quote(t, force, external) {
            if external && windows::has_ascii_double(t) {
                lemma_windows_external_escaped_from_safe(t, 0, 0);
            } else if windows::single_safe(t) {
                assert(all_safe(simple_quoted(t, '\'')));
            } else if windows::double_safe(t) {
                assert(all_safe(simple_quoted(t, '"')));
            } else {
                lemma_windows_single_escaped_from_safe(t, 0);
            }
        }
    }
}

/// Safety: whatever the input, the dialect and the options, the rendering
/// never holds a raw control character or an unescaped line or paragraph
/// separator.
pub proof fn lemma_render_safe(q: Quoted)
    ensures
        all_safe(q.spec_render()),
{
    match q.source {
        Kind::Unix(text) => lemma_unix_rendered_safe(text@, q.force_quote),
        Kind::UnixRaw(bytes) => {
            if valid_utf8(bytes@) {
                lemma_unix_rendered_safe(decode_utf8(bytes@), q.force_quote);
            } else {
                lemma_unix_escaped_safe(bytes@);
            }
        },
        Kind::Windows(text) => lemma_windows_rendered_safe(text@, q.force_quote, q.external),
        Kind::WindowsRaw(units) => {
            if crate::utf16_ok(units@) {
                lemma_windows_rendered_safe(crate::utf16_chars(units@), q.force_quote, q.external);
            } else {
                lemma_windows_escaped_safe(crate::utf16_decoded(units@, 0), q.external);
            }
        },
    }
}

/// The bytes a segment stands for: a text segment for its UTF-8 encoding,
/// an invalid segment for its single byte.
pub open spec fn chunk_bytes(ch: Result<Seq<char>, u8>) -> Seq<u8> {
    match ch {
        Ok(cs) => encode_utf8(cs),
        Err(b) => seq![b],
    }
}

/// The bytes a sequence of segments stands for, in order.
pub open spec fn chunks_bytes(chunks: Seq<Result<Seq<char>, u8>>) -> Seq<u8>
    decreases chunks.len(),
{
    if chunks.len() == 0 {
        Seq::empty()
    } else {
        chunk_bytes(chunks[0]) + chunks_bytes(chunks.drop_first())
    }
}

proof fn lemma_run_covers(bytes: Seq<u8>, i: int)
    requires
        0 <= i <= bytes.len(),
    ensures
        i <= unix::run_end(bytes, i) <= bytes.len(),
        encode_utf8(unix::run_chars(bytes, i)) == bytes.subrange(i, unix::run_end(bytes, i)),
        (i < bytes.len() && valid_first_scalar(bytes.skip(i))) ==> unix::run_end(bytes, i) > i,
    decreases bytes.len() - i,
{
    if i < bytes.len() && valid_first_scalar(bytes.skip(i)) {
        let s = bytes.skip(i);
        let l = length_of_first_scalar(s);
        let c = decode_first_scalar(s) as char;
        let first = take_first_scalar(s);
        assert(first =~= bytes.subrange(i, i + l));
        assert(valid_first_scalar(first));
        assert(pop_first_scalar(first) =~= Seq::<u8>::empty());
        assert(valid_utf8(Seq::<u8>::empty()));
        assert(valid_utf8(first));
        decode_utf8_first_scalar(first);
        assert(decode_first_scalar(first) == decode_first_scalar(s));
        assert(take_first_scalar(first) =~= first);
        assert(encode_scalar(c as u32) == first);
        lemma_run_covers(bytes, i + l);
        assert(unix::run_chars(bytes, i).drop_first() =~= unix::run_chars(bytes, i + l));
        assert(bytes.subrange(i, unix::run_end(bytes, i)) =~= bytes.subrange(i, i + l)
            + bytes.subrange(i + l, unix::run_end(bytes, i + l)));
        assert(encode_utf8(unix::run_chars(bytes, i)) =~= bytes.subrange(
            i,
            unix::run_end(bytes, i),
        ));
    } else {
        assert(encode_utf8(Seq::<char>::empty()) =~= Seq::<u8>::empty());
        assert(bytes.subrange(i, i) =~= Seq::<u8>::empty());
    }
}

/// The raw-encoding segments cover every input byte exactly once, in
/// order: concatenating each text segment's UTF-8 encoding and each
/// invalid byte gives back the input.
pub proof fn lemma_chunks_cover(bytes: Seq<u8>, i: int)
    requires
        0 <= i <= bytes.len(),
    ensures
        chunks_bytes(unix::utf8_chunks_from(bytes, i)) == bytes.skip(i),
    decreases bytes.len() - i,
{
    if i >= bytes.len() {
        assert(bytes.skip(i) =~= Seq::<u8>::empty());
    } else if valid_first_scalar(bytes.skip(i)) {
        lemma_run_covers(bytes, i);
        let e = unix::run_end(bytes, i);
        lemma_chunks_cover(bytes, e);
        let chunks = unix::utf8_chunks_from(bytes, i);
        assert(chunks == seq![Ok::<Seq<char>, u8>(unix::run_chars(bytes, i))]
            + unix::utf8_chunks_from(bytes, e));
        assert(chunks.drop_first() =~= unix::utf8_chunks_from(bytes, e));
        assert(bytes.skip(i) =~= bytes.subrange(i, e) + bytes.skip(e));
        assert(chunks_bytes(chunks) =~= bytes.skip(i));
    } else {
        lemma_chunks_cover(bytes, i + 1);
        let chunks = unix::utf8_chunks_from(bytes, i);
        assert(chunks.drop_first() =~= unix::utf8_chunks_from(bytes, i + 1));
        assert(bytes.skip(i) =~= seq![bytes[i]] + bytes.skip(i + 1));
        assert(chunks_bytes(chunks) =~= bytes.skip(i));
    }
}

proof fn lemma_run_all(bytes: Seq<u8>, i: int)
    requires
        0 <= i <= bytes.len(),
        valid_utf8(bytes.skip(i)),
    ensures
        unix::run_end(bytes, i) == bytes.len(),
        unix::run_chars(bytes, i) == decode_utf8(bytes.skip(i)),
    decreases bytes.len() - i,
{
    if i == bytes.len() {
        assert(bytes.skip(i) =~= Seq::<u8>::empty());
    } else {
        let s = bytes.skip(i);
        let l = length_of_first_scalar(s);
        assert(pop_first_scalar(s) =~= bytes.skip(i + l));
        lemma_run_all(bytes, i + l);
        assert(unix::run_chars(bytes, i) =~= decode_utf8(bytes.skip(i)));
    }
}

/// On wholly valid, nonempty UTF-8 the segmentation is one text segment
/// holding the entire decoded text.
pub proof fn lemma_chunks_of_valid(bytes: Seq<u8>)
    requires
        valid_utf8(bytes),
        bytes.len() > 0,
    ensures
        unix::utf8_chunks_from(bytes, 0) == seq![Ok::<Seq<char>, u8>(decode_utf8(bytes))],
{
    assert(bytes.skip(0) =~= bytes);
    lemma_run_all(bytes, 0);
    assert(unix::utf8_chunks_from(bytes, bytes.len() as int) =~= Seq::<
        Result<Seq<char>, u8>,
    >::empty());
    assert(unix::utf8_chunks_from(bytes, 0) =~= seq![
        Ok::<Seq<char>, u8>(decode_utf8(bytes)),
    ]);
}

/// The code units a decoded element stands for: a character for its UTF-16
/// encoding, an unpaired surrogate for the unit itself.
pub open spec fn unit_encoding(x: Result<char, u16>) -> Seq<u16> {
    match x {
        Ok(c) => {
            if (c as u32) < 0x10000 {
                seq![(c as u32) as u16]
            } else {
                seq![
                    (0xD800 + ((c as u32 - 0x10000) / 0x400)) as u16,
                    (0xDC00 + ((c as u32 - 0x10000) % 0x400)) as u16,
                ]
            }
        },
        Err(u) => seq![u],
    }
}

/// The code units a decoded sequence stands for, in order.
pub open spec fn units_encoding(xs: Seq<Result<char, u16>>) -> Seq<u16>
    decreases xs.len(),
{
    if xs.len() == 0 {
        Seq::empty()
    } else {
        unit_encoding(xs[0]) + units_encoding(xs.drop_first())
    }
}

/// The UTF-16 decoding covers every code unit exactly once, in order:
/// re-encoding each decoded character and keeping each unpaired surrogate
/// gives back the input.
pub proof fn lemma_utf16_cover(units: Seq<u16>, i: int)
    requires
        0 <= i <= units.len(),
    ensures
        units_encoding(crate::utf16_decoded(units, i)) == units.skip(i),
    decreases units.len() - i,
{
    let d = crate::utf16_decoded(units, i);
    if i >= units.len() {
        assert(units.skip(i) =~= Seq::<u16>::empty());
    } else if 0xD800 <= units[i] && units[i] <= 0xDBFF && i + 1 < units.len() && 0xDC00 <= units[i
        + 1] && units[i + 1] <= 0xDFFF {
        let hi = units[i];
        let lo = units[i + 1];
        let v = 0x10000 + (hi as int - 0xD800) * 0x400 + (lo as int - 0xDC00);
        let c = crate::utf16_combine(hi, lo);
        assert(0x10000 <= v <= 0x10FFFF);
        assert(c as u32 == v);
        vstd::arithmetic::div_mod::lemma_fundamental_div_mod_converse(
            v - 0x10000,
            0x400,
            hi as int - 0xD800,
            lo as int - 0xDC00,
        );
        assert(unit_encoding(Ok::<char, u16>(c)) =~= seq![hi, lo]);
        lemma_utf16_cover(units, i + 2);
        assert(d.drop_first() =~= crate::utf16_decoded(units, i + 2));
        assert(units.skip(i) =~= seq![hi, lo] + units.skip(i + 2));
        assert(units_encoding(d) =~= units.skip(i));
    } else {
        lemma_utf16_cover(units, i + 1);
        assert(d.drop_first() =~= crate::utf16_decoded(units, i + 1));
        assert(units.skip(i) =~= seq![units[i]] + units.skip(i + 1));
        if !(0xD800 <= units[i] && units[i] <= 0xDFFF) {
            let c = (units[i] as u32) as char;
            assert(c as u32 == units[i] as u32);
            assert(unit_encoding(Ok::<char, u16>(c)) =~= seq![units[i]]);
        }
        assert(units_encoding(d) =~= units.skip(i));
    }
}

/// Idempotent bare path for a POSIX shell: when nothing about the text
/// requires quoting or escaping, the non-forced rendering is the text
/// itself, unchanged.
pub proof fn lemma_unix_bare_unchanged(t: Seq<char>)
    requires
        !unix::requires_quote(t, false),
        !escape_mode(t),
    ensures
        unix::rendered(t, false) == t,
{
}

/// Idempotent bare path for PowerShell: when the text is not the literal
/// stop-parsing token and nothing about it requires quoting or escaping,
/// the non-forced rendering is the text itself, unchanged.
pub proof fn lemma_windows_bare_unchanged(t: Seq<char>, external: bool)
    requires
        t != seq!['-', '-', '%'],
        !windows::requires_quote(t, false, external),
        !escape_mode(t),
    ensures
        windows::rendered(t, false, external) == t,
{
}

/// `n` isolate openers, one ordinary character, `n` matching closers.
pub open spec fn nested_isolates(n: nat) -> Seq<char> {
    Seq::new(n, |k: int| '\u{2066}') + seq!['a'] + Seq::new(n, |k: int| '\u{2069}')
}

proof fn lemma_nested_openers(n: nat, i: int)
    requires
        0 <= i <= n,
        i <= 16,
    ensures
        crate::spec_suspicious_bidi(nested_isolates(n)) == crate::suspicious_bidi_from(
            nested_isolates(n),
            i,
            Seq::new(i as nat, |k: int| crate::BidiClass::Isolate),
        ),
    decreases i,
{
    let t = nested_isolates(n);
    if i == 0 {
        assert(Seq::new(0nat, |k: int| crate::BidiClass::Isolate) =~= Seq::<
            crate::BidiClass,
        >::empty());
    } else {
        lemma_nested_openers(n, i - 1);
        assert(t[i - 1] == '\u{2066}');
        assert(Seq::new((i - 1) as nat, |k: int| crate::BidiClass::Isolate).push(
            crate::BidiClass::Isolate,
        ) =~= Seq::new(i as nat, |k: int| crate::BidiClass::Isolate));
    }
}

proof fn lemma_nested_closers(n: nat, j: int)
    requires
        0 <= j <= n <= 16,
    ensures
        !crate::suspicious_bidi_from(
            nested_isolates(n),
            2 * n + 1 - j,
            Seq::new(j as nat, |k: int| crate::BidiClass::Isolate),
        ),
    decreases j,
{
    let t = nested_isolates(n);
    assert(t.len() == 2 * n + 1);
    if j == 0 {
    } else {
        assert(t[2 * n + 1 - j] == '\u{2069}');
        assert(Seq::new(j as nat, |k: int| crate::BidiClass::Isolate).drop_last() =~= Seq::new(
            (j - 1) as nat,
            |k: int| crate::BidiClass::Isolate,
        ));
        lemma_nested_closers(n, j - 1);
    }
}

/// Bidi depth bound: balanced isolate markers nested 16 deep around an
/// ordinary character pass the bidi check and stay simply quoted; nested
/// 17 deep or more they fail it, and the rendering switches to
/// escape-mode.
pub proof fn lemma_bidi_depth_bound(n: nat)
    ensures
        crate::spec_suspicious_bidi(nested_isolates(n)) == (n > 16),
        n <= 16 ==> unix::rendered(nested_isolates(n), true) == simple_quoted(
            nested_isolates(n),
            '\'',
        ),
        n > 16 ==> unix::rendered(nested_isolates(n), true) == unix::escaped(
            encode_utf8(nested_isolates(n)),
        ),
        n <= 16 ==> windows::rendered(nested_isolates(n), true, false) == simple_quoted(
            nested_isolates(n),
            '\'',
        ),
        n > 16 ==> windows::rendered(nested_isolates(n), true, false) == windows::escaped(
            windows::ok_units(nested_isolates(n)),
            false,
        ),
{
    let t = nested_isolates(n);
    assert(t != seq!['-', '-', '%']) by {
        if t.len() == 3 {
            assert(n == 1);
            assert(t[0] == '\u{2066}');
        }
    }
    assert forall|i: int| 0 <= i < t.len() implies !spec_requires_escape(#[trigger] t[i])
        && !unix::double_unsafe_char(t[i]) && t[i] != '\'' by {
        if i < n {
            assert(t[i] == '\u{2066}');
        } else if i == n {
            assert(t[i] == 'a');
        } else {
            assert(t[i] == '\u{2069}');
        }
    }
    assert(!contains_escape_trigger(t));
    if n > 16 {
        lemma_nested_openers(n, 16);
        let stack = Seq::new(16nat, |k: int| crate::BidiClass::Isolate);
        assert(t[16] == '\u{2066}');
        assert(crate::suspicious_bidi_from(t, 16, stack));
        assert(t[0] == '\u{2066}' && crate::spec_is_bidi(t[0]));
        assert(crate::contains_bidi(t));
        assert(crate::escape_mode(t));
    } else {
        lemma_nested_openers(n, n as int);
        assert(t[n as int] == 'a');
        lemma_nested_closers(n, n as int);
        assert(!crate::spec_suspicious_bidi(t));
        assert(!crate::escape_mode(t));
        assert(unix::single_safe(t));
    }
}

proof fn lemma_unix_single_escaped_head(t: Seq<char>)
    requires
        t.len() > 0,
    ensures
        unix::single_escaped(t).len() > 0,
        unix::single_escaped(t)[0] == '\'' || unix::single_escaped(t)[0] == '\\',
{
    if t[0] == '\'' {
        assert(unix::single_escaped_piece(t, 0)[0] == '\\');
    } else {
        assert(unix::single_escaped_piece(t, 0)[0] == '\'');
    }
}

/// Exhaustive quoting: with forced quoting, the rendering always starts
/// with a quoting delimiter — `'`, `"`, `$` or `\` — whatever the input
/// and the dialect.
pub proof fn lemma_quote_starts_with_delimiter(q: Quoted)
    requires
        q.force_quote,
    ensures
        q.spec_render().len() > 0,
        q.spec_render()[0] == '\'' || q.spec_render()[0] == '"' || q.spec_render()[0] == '$'
            || q.spec_render()[0] == '\\',
{
    match q.source {
        Kind::Unix(text) => lemma_unix_rendered_head(text@, q.force_quote),
        Kind::UnixRaw(bytes) => {
            if valid_utf8(bytes@) {
                lemma_unix_rendered_head(decode_utf8(bytes@), q.force_quote);
            } else {
                assert(unix::escaped(bytes@)[0] == '$');
            }
        },
        Kind::Windows(text) => lemma_windows_rendered_head(text@, q.force_quote, q.external),
        Kind::WindowsRaw(units) => {
            if crate::utf16_ok(units@) {
                lemma_windows_rendered_head(crate::utf16_chars(units@), q.force_quote, q.external);
            } else {
                assert(windows::escaped(crate::utf16_decoded(units@, 0), q.external)[0] == '"');
            }
        },
    }
}

/// With forced quoting, a POSIX-shell rendering starts with `'`, `"`, `$`
/// or `\`.
pub proof fn lemma_unix_rendered_head(t: Seq<char>, force: bool)
    requires
        force,
    ensures
        unix::rendered(t, force).len() > 0,
        unix::rendered(t, force)[0] == '\'' || unix::rendered(t, force)[0] == '"' || unix::rendered(
            t,
            force,
        )[0] == '$' || unix::rendered(t, force)[0] == '\\',
{
    if escape_mode(t) {
        assert(unix::escaped(encode_utf8(t))[0] == '$');
    } else if !unix::single_safe(t) && !unix::double_safe(t) {
        // some position holds a single quote, so the text is nonempty
        assert(t.len() > 0);
        lemma_unix_single_escaped_head(t);
    }
}

/// With forced quoting, a PowerShell rendering starts with `'` or `"`.
pub proof fn lemma_windows_rendered_head(t: Seq<char>, force: bool, external: bool)
    requires
        force,
    ensures
        windows::rendered(t, force, external).len() > 0,
        windows::rendered(t, force, external)[0] == '\'' || windows::rendered(
            t,
            force,
            external,
        )[0] == '"',
{
    if external && t.len() == 0 {
    } else if t == seq!['-', '-', '%'] {
    } else if escape_mode(t) {
        assert(windows::escaped(windows::ok_units(t), external)[0] == '"');
    }
}

} // verus!
