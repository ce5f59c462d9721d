//! Hexadecimal rendering and UTF-8 encoding and decoding of single scalars,
//! the building blocks of the escape-mode renderers.

use vstd::prelude::*;
use vstd::utf8::*;

verus! {

broadcast use vstd::utf8::group_utf8_lib;

/// The uppercase hexadecimal digit for a value below 16.
pub open spec fn hex_digit(n: int) -> char
    recommends
        0 <= n < 16,
{
    if n < 10 {
        ((0x30 + n) as u8) as char
    } else {
        ((0x37 + n) as u8) as char
    }
}

/// The uppercase hexadecimal digits of `n`, most significant first, with no
/// leading zeros (a single `0` for zero itself).
pub open spec fn hex_digits(n: int) -> Seq<char>
    recommends
        n >= 0,
    decreases n,
    when n >= 0
{
    if n < 16 {
        seq![hex_digit(n)]
    } else {
        hex_digits(n / 16).push(hex_digit(n % 16))
    }
}

/// The uppercase hexadecimal digits of `n`, zero-padded on the left to at
/// least `width` digits.
pub open spec fn hex_pad(n: int, width: int) -> Seq<char>
    recommends
        n >= 0,
{
    if hex_digits(n).len() >= width {
        hex_digits(n)
    } else {
        Seq::new((width - hex_digits(n).len()) as nat, |i: int| '0') + hex_digits(n)
    }
}

/// The uppercase hexadecimal digit for a value below 16.
pub fn hex_digit_char(n: u8) -> (c: char)
    requires
        n < 16,
    ensures
        c == hex_digit(n as int),
{
    if n < 10 {
        (0x30 + n) as char
    } else {
        (0x37 + n) as char
    }
}

/// The uppercase hexadecimal digits of `n`, most significant first.
pub fn hex_digits_vec(n: u32) -> (r: Vec<char>)
    ensures
        r@ == hex_digits(n as int),
    decreases n,
{
    if n < 16 {
        let mut r: Vec<char> = Vec::new();
        r.push(hex_digit_char(n as u8));
        r
    } else {
        let mut r = hex_digits_vec(n / 16);
        r.push(hex_digit_char((n % 16) as u8));
        r
    }
}

/// Appends the hexadecimal form of `n`, zero-padded to at least `width`
/// digits, to `out`.
pub fn push_hex(out: &mut String, n: u32, width: usize)
    ensures
        final(out)@ == old(out)@ + hex_pad(n as int, width as int),
{
    let digits = hex_digits_vec(n);
    let mut pad: usize = 0;
    proof {
        assert(hex_digits(n as int).len() >= 1) by {
            lemma_hex_digits_len(n as int);
        }
    }
    if digits.len() < width {
        pad = width - digits.len();
    }
    let ghost start = out@;
    let mut k: usize = 0;
    while k < pad
        invariant
            k <= pad,
            out@ == start + Seq::new(k as nat, |i: int| '0'),
        decreases pad - k,
    {
        crate::push_char(out, '0');
        proof {
            assert(out@ =~= start + Seq::new((k + 1) as nat, |i: int| '0'));
        }
        k = k + 1;
    }
    let mut j: usize = 0;
    while j < digits.len()
        invariant
            j <= digits@.len(),
            digits@ == hex_digits(n as int),
            out@ == start + Seq::new(pad as nat, |i: int| '0') + digits@.take(j as int),
        decreases digits@.len() - j,
    {
        crate::push_char(out, digits[j]);
        proof {
            assert(digits@.take(j + 1) =~= digits@.take(j as int).push(digits@[j as int]));
        }
        j = j + 1;
    }
    proof {
        assert(digits@.take(digits@.len() as int) =~= digits@);
        assert(out@ =~= start + hex_pad(n as int, width as int));
    }
}

/// The hexadecimal form of `n` has at least one digit.
pub proof fn lemma_hex_digits_len(n: int)
    requires
        n >= 0,
    ensures
        hex_digits(n).len() >= 1,
    decreases n,
{
    if n >= 16 {
        lemma_hex_digits_len(n / 16);
    }
}

/// Relies on `char::from_u32`: for every Unicode scalar value it returns
/// the character with exactly that value.
#[verifier::external_body]
pub fn char_from_u32(v: u32) -> (c: char)
    requires
        is_scalar(v),
    ensures
        c as u32 == v,
{
    char::from_u32(v).unwrap()
}

/// The UTF-8 encoding of a single character.
pub fn utf8_encode_char(c: char) -> (r: Vec<u8>)
    ensures
        r@ == encode_scalar(c as u32),
{
    let u = c as u32;
    let mut r: Vec<u8> = Vec::new();
    if u <= 0x7F {
        r.push((u & 0x7F) as u8);
    } else if u <= 0x7FF {
        r.push(0xC0 | ((u >> 6) & 0x1F) as u8);
        r.push(0x80 | (u & 0x3F) as u8);
    } else if u <= 0xFFFF {
        r.push(0xE0 | ((u >> 12) & 0x0F) as u8);
        r.push(0x80 | ((u >> 6) & 0x3F) as u8);
        r.push(0x80 | (u & 0x3F) as u8);
    } else {
        r.push(0xF0 | ((u >> 18) & 0x7) as u8);
        r.push(0x80 | ((u >> 12) & 0x3F) as u8);
        r.push(0x80 | ((u >> 6) & 0x3F) as u8);
        r.push(0x80 | (u & 0x3F) as u8);
    }
    proof {
        assert(r@ =~= encode_scalar(c as u32));
    }
    r
}

/// Decodes the UTF-8 scalar starting at `pos`, if the bytes from `pos` on
/// begin with a well-formed encoding of one scalar.
pub fn utf8_decode_first(bytes: &[u8], pos: usize) -> (r: Option<(char, usize)>)
    requires
        pos <= bytes@.len(),
    ensures
        match r {
            Some((c, l)) => {
                &&& valid_first_scalar(bytes@.skip(pos as int))
                &&& c as u32 == decode_first_scalar(bytes@.skip(pos as int))
                &&& l as int == length_of_first_scalar(bytes@.skip(pos as int))
                &&& 1 <= l && pos + l <= bytes@.len()
            },
            None => !valid_first_scalar(bytes@.skip(pos as int)),
        },
{
    let ghost s = bytes@.skip(pos as int);
    let n = bytes.len();
    if pos >= n {
        return None;
    }
    let b0 = bytes[pos];
    proof {
        assert(s.len() == n - pos);
        assert(s[0] == bytes@[pos as int]);
    }
    if b0 <= 0x7F {
        let c = char_from_u32(b0 as u32);
        proof {
            assert(codepoint_width_1(b0) == b0 as u32) by (bit_vector)
                requires
                    b0 <= 0x7F,
            ;
        }
        Some((c, 1))
    } else if b0 < 0xC0 {
        None
    } else if b0 < 0xE0 {
        if pos + 1 >= n {
            return None;
        }
        let b1 = bytes[pos + 1];
        proof {
            assert(s[1] == bytes@[pos + 1]);
        }
        if !(0x80 <= b1 && b1 <= 0xBF) {
            return None;
        }
        let u = ((b1 & 0x3F) as u32) | (((b0 & 0x1F) as u32) << 6);
        proof {
            assert(u == codepoint_width_2(b0, b1) && u <= 0x7FF) by (bit_vector)
                requires
                    u == ((b1 & 0x3F) as u32) | (((b0 & 0x1F) as u32) << 6),
                    0xC0 <= b0 < 0xE0,
                    0x80 <= b1 <= 0xBF,
            ;
        }
        if u < 0x80 {
            return None;
        }
        let c = char_from_u32(u);
        Some((c, 2))
    } else if b0 < 0xF0 {
        if n - pos < 3 {
            return None;
        }
        let b1 = bytes[pos + 1];
        let b2 = bytes[pos + 2];
        proof {
            assert(s[1] == bytes@[pos + 1]);
            assert(s[2] == bytes@[pos + 2]);
        }
        if !(0x80 <= b1 && b1 <= 0xBF) || !(0x80 <= b2 && b2 <= 0xBF) {
            return None;
        }
        let u = ((b2 & 0x3F) as u32) | (((b1 & 0x3F) as u32) << 6) | (((b0 & 0x0F) as u32) << 12);
        proof {
            assert(u == codepoint_width_3(b0, b1, b2) && u <= 0xFFFF) by (bit_vector)
                requires
                    u == ((b2 & 0x3F) as u32) | (((b1 & 0x3F) as u32) << 6) | (((b0
                        & 0x0F) as u32) << 12),
                    0xE0 <= b0 < 0xF0,
                    0x80 <= b1 <= 0xBF,
                    0x80 <= b2 <= 0xBF,
            ;
        }
        if u < 0x800 || (0xD800 <= u && u <= 0xDFFF) {
            return None;
        }
        let c = char_from_u32(u);
        Some((c, 3))
    } else if b0 < 0xF8 {
        if n - pos < 4 {
            return None;
        }
        let b1 = bytes[pos + 1];
        let b2 = bytes[pos + 2];
        let b3 = bytes[pos + 3];
        proof {
            assert(s[1] == bytes@[pos + 1]);
            assert(s[2] == bytes@[pos + 2]);
            assert(s[3] == bytes@[pos + 3]);
        }
        if !(0x80 <= b1 && b1 <= 0xBF) || !(0x80 <= b2 && b2 <= 0xBF) || !(0x80 <= b3 && b3
            <= 0xBF) {
            return None;
        }
        let u = ((b3 & 0x3F) as u32) | (((b2 & 0x3F) as u32) << 6) | (((b1 & 0x3F) as u32) << 12)
            | (((b0 & 0x7) as u32) << 18);
        proof {
            assert(u == codepoint_width_4(b0, b1, b2, b3) && u <= 0x1FFFFF) by (bit_vector)
                requires
                    u == ((b3 & 0x3F) as u32) | (((b2 & 0x3F) as u32) << 6) | (((b1
                        & 0x3F) as u32) << 12) | (((b0 & 0x7) as u32) << 18),
                    0xF0 <= b0 < 0xF8,
                    0x80 <= b1 <= 0xBF,
                    0x80 <= b2 <= 0xBF,
                    0x80 <= b3 <= 0xBF,
            ;
        }
        if u < 0x10000 || u > 0x10FFFF {
            return None;
        }
        let c = char_from_u32(u);
        Some((c, 4))
    } else {
        None
    }
}

/// Decodes a whole byte sequence as UTF-8, or reports that it is not
/// valid UTF-8.
pub fn try_decode_utf8(bytes: &[u8]) -> (r: Option<String>)
    ensures
        match r {
            Some(s) => valid_utf8(bytes@) && s@ == decode_utf8(bytes@),
            None => !valid_utf8(bytes@),
        },
{
    let n = bytes.len();
    let mut s = String::new();
    let mut i: usize = 0;
    proof {
        assert(bytes@.skip(0) =~= bytes@);
    }
    while i < n
        invariant
            i <= n,
            n == bytes@.len(),
            valid_utf8(bytes@) == valid_utf8(bytes@.skip(i as int)),
            valid_utf8(bytes@) ==> decode_utf8(bytes@) == s@ + decode_utf8(bytes@.skip(i as int)),
        decreases n - i,
    {
        match utf8_decode_first(bytes, i) {
            Some((c, l)) => {
                crate::push_char(&mut s, c);
                proof {
                    char_u32_cast(c, decode_first_scalar(bytes@.skip(i as int)));
                    assert(pop_first_scalar(bytes@.skip(i as int)) =~= bytes@.skip(i + l));
                }
                i = i + l;
            },
            None => {
                proof {
                    assert(!valid_utf8(bytes@.skip(i as int)));
                }
                return None;
            },
        }
    }
    proof {
        assert(bytes@.skip(n as int) =~= Seq::<u8>::empty());
        assert(valid_utf8(Seq::<u8>::empty()));
        assert(decode_utf8(Seq::<u8>::empty()) =~= Seq::<char>::empty());
    }
    Some(s)
}

} // verus!
