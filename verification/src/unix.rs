//! Quoting for POSIX-family shells (bash/ksh syntax).

use vstd::prelude::*;
use vstd::string::*;
use vstd::utf8::*;

use crate::encoding;
use crate::encoding::{hex_digit, hex_pad};

verus! {

/// Characters with special meaning outside quotes, per the POSIX shell
/// grammar plus a few that common shells treat specially (`^` in old
/// shells, stand-alone `{` and `}` in zsh and fish).
pub open spec fn special_shell_char(c: char) -> bool {
    ||| c == '|'
    ||| c == '&'
    ||| c == ';'
    ||| c == '<'
    ||| c == '>'
    ||| c == '('
    ||| c == ')'
    ||| c == '$'
    ||| c == '`'
    ||| c == '\\'
    ||| c == '"'
    ||| c == '\''
    ||| c == '*'
    ||| c == '?'
    ||| c == '['
    ||| c == ']'
    ||| c == '='
    ||| c == '^'
    ||| c == '{'
    ||| c == '}'
    ||| c == ' '
}

/// Characters with a special meaning at the beginning of a name:
/// `~` expands a home directory, `#` starts a comment, `!` is a common
/// extension for expanding the shell history.
pub open spec fn special_start_char(c: char) -> bool {
    c == '~' || c == '#' || c == '!'
}

/// Characters that are interpreted specially inside a double-quoted string.
pub open spec fn double_unsafe_char(c: char) -> bool {
    c == '"' || c == '`' || c == '$' || c == '\\'
}

/// The characters with the Unicode White_Space property. Some shells split
/// bare words on these; U+2800 BRAILLE PATTERN BLANK is quoted along with
/// them because it looks just as blank.
pub open spec fn spec_unicode_whitespace(c: char) -> bool {
    let u = c as u32;
    ||| (0x09 <= u && u <= 0x0D)
    ||| u == 0x20
    ||| u == 0x85
    ||| u == 0xA0
    ||| u == 0x1680
    ||| (0x2000 <= u && u <= 0x200A)
    ||| u == 0x2028
    ||| u == 0x2029
    ||| u == 0x202F
    ||| u == 0x205F
    ||| u == 0x3000
}

/// Whether a character anywhere in the text forces quoting: an ASCII
/// character from the special set, or (outside ASCII) whitespace or a
/// blank-looking character.
pub open spec fn quote_trigger_char(c: char) -> bool {
    if c as u32 <= 0x7F {
        special_shell_char(c)
    } else {
        spec_unicode_whitespace(c) || c == '\u{2800}'
    }
}

/// Whether the text must be quoted: the caller forces it, the text is
/// empty, its first character is name-start-special or displays as zero
/// width, or some character is a quote trigger.
pub open spec fn requires_quote(t: Seq<char>, force: bool) -> bool {
    ||| force
    ||| t.len() == 0
    ||| special_start_char(t[0])
    ||| crate::width_starts_quoted(t[0])
    ||| exists|i: int| 0 <= i < t.len() && quote_trigger_char(#[trigger] t[i])
}

/// No single quote anywhere, so the text can stand between single quotes.
pub open spec fn single_safe(t: Seq<char>) -> bool {
    forall|i: int| 0 <= i < t.len() ==> #[trigger] t[i] != '\''
}

/// No character that is special inside double quotes.
pub open spec fn double_safe(t: Seq<char>) -> bool {
    forall|i: int| 0 <= i < t.len() ==> !double_unsafe_char(#[trigger] t[i])
}

/// What the single-escaped form contributes for the character at `i`:
/// every single quote becomes the bare splice `\'`, and each maximal run
/// of other characters is wrapped in single quotes.
pub open spec fn single_escaped_piece(t: Seq<char>, i: int) -> Seq<char>
    recommends
        0 <= i < t.len(),
{
    if t[i] == '\'' {
        seq!['\\', '\'']
    } else {
        (if i == 0 || t[i - 1] == '\'' {
            seq!['\'']
        } else {
            Seq::empty()
        }) + seq![t[i]] + (if i == t.len() - 1 || t[i + 1] == '\'' {
            seq!['\'']
        } else {
            Seq::empty()
        })
    }
}

/// The single-escaped form from position `i` onward.
pub open spec fn single_escaped_from(t: Seq<char>, i: int) -> Seq<char>
    decreases t.len() - i,
    when 0 <= i <= t.len()
{
    if i >= t.len() {
        Seq::empty()
    } else {
        single_escaped_piece(t, i) + single_escaped_from(t, i + 1)
    }
}

/// The single-escaped form: the text split on single quotes, each nonempty
/// segment single-quoted, with a literal `\'` spliced in for each quote.
pub open spec fn single_escaped(t: Seq<char>) -> Seq<char> {
    single_escaped_from(t, 0)
}

/// The full rendering of text for a POSIX shell.
pub open spec fn rendered(t: Seq<char>, force: bool) -> Seq<char> {
    if crate::escape_mode(t) {
        escaped(encode_utf8(t))
    } else if !requires_quote(t, force) {
        t
    } else if single_safe(t) {
        crate::simple_quoted(t, '\'')
    } else if double_safe(t) {
        crate::simple_quoted(t, '"')
    } else {
        single_escaped(t)
    }
}

/// The `\xHH` escape of one byte.
pub open spec fn hex_escape_byte(b: u8) -> Seq<char> {
    seq!['\\', 'x'] + hex_pad(b as int, 2)
}

/// The `\xHH` escapes of the bytes from position `j` onward.
pub open spec fn hex_escape_from(bs: Seq<u8>, j: int) -> Seq<char>
    decreases bs.len() - j,
    when 0 <= j <= bs.len()
{
    if j >= bs.len() {
        Seq::empty()
    } else {
        hex_escape_byte(bs[j]) + hex_escape_from(bs, j + 1)
    }
}

/// ASCII hexadecimal digits, which may not directly follow a `\xHH`
/// escape: ksh variants would read them as part of the escape.
pub open spec fn spec_ascii_hexdigit(c: char) -> bool {
    ('0' <= c && c <= '9') || ('a' <= c && c <= 'f') || ('A' <= c && c <= 'F')
}

/// What escape-mode rendering emits for one decoded character. `was_escape`
/// says whether a `\xHH` escape came directly before.
pub open spec fn escaped_char_out(c: char, was_escape: bool) -> Seq<char> {
    if c == '\n' {
        seq!['\\', 'n']
    } else if c == '\t' {
        seq!['\\', 't']
    } else if c == '\r' {
        seq!['\\', 'r']
    } else if crate::spec_requires_escape(c) || crate::spec_is_bidi(c) {
        hex_escape_from(encode_scalar(c as u32), 0)
    } else if c == '\\' || c == '\'' {
        seq!['\\', c]
    } else if was_escape && spec_ascii_hexdigit(c) {
        seq!['\'', '$', '\'', c]
    } else {
        seq![c]
    }
}

/// Whether, after this character is emitted, the output ends in a `\xHH`
/// escape.
pub open spec fn escaped_char_state(c: char) -> bool {
    &&& !(c == '\n' || c == '\t' || c == '\r')
    &&& (crate::spec_requires_escape(c) || crate::spec_is_bidi(c))
}

/// The body of the escape-mode rendering of the bytes from position `i`
/// onward: each well-formed UTF-8 scalar is rendered as a character, each
/// other byte as a `\xHH` escape. `esc` says whether a `\xHH` escape came
/// directly before position `i`.
pub open spec fn escaped_body(bytes: Seq<u8>, i: int, esc: bool) -> Seq<char>
    decreases bytes.len() - i,
    when 0 <= i <= bytes.len()
{
    if i >= bytes.len() {
        Seq::empty()
    } else if valid_first_scalar(bytes.skip(i)) {
        let c = decode_first_scalar(bytes.skip(i)) as char;
        let l = length_of_first_scalar(bytes.skip(i));
        escaped_char_out(c, esc) + escaped_body(bytes, i + l, escaped_char_state(c))
    } else {
        hex_escape_byte(bytes[i]) + escaped_body(bytes, i + 1, true)
    }
}

/// The escape-mode (ANSI-C `$'...'`) rendering of a byte sequence.
pub open spec fn escaped(bytes: Seq<u8>) -> Seq<char> {
    seq!['$', '\''] + escaped_body(bytes, 0, false) + seq!['\'']
}

/// The end of the maximal well-formed UTF-8 run beginning at `i`.
pub open spec fn run_end(bytes: Seq<u8>, i: int) -> int
    decreases bytes.len() - i,
    when 0 <= i <= bytes.len()
{
    if i >= bytes.len() || !valid_first_scalar(bytes.skip(i)) {
        i
    } else {
        run_end(bytes, i + length_of_first_scalar(bytes.skip(i)))
    }
}

/// The characters of the maximal well-formed UTF-8 run beginning at `i`.
pub open spec fn run_chars(bytes: Seq<u8>, i: int) -> Seq<char>
    decreases bytes.len() - i,
    when 0 <= i <= bytes.len()
{
    if i >= bytes.len() || !valid_first_scalar(bytes.skip(i)) {
        Seq::empty()
    } else {
        seq![decode_first_scalar(bytes.skip(i)) as char] + run_chars(
            bytes,
            i + length_of_first_scalar(bytes.skip(i)),
        )
    }
}

/// The segments of a byte sequence from position `i` on: maximal
/// well-formed UTF-8 runs, and single bytes that do not begin a
/// well-formed scalar, covering every byte exactly once, in order.
pub open spec fn utf8_chunks_from(bytes: Seq<u8>, i: int) -> Seq<Result<Seq<char>, u8>>
    decreases bytes.len() - i,
    when 0 <= i
{
    if i >= bytes.len() {
        seq![]
    } else if valid_first_scalar(bytes.skip(i)) {
        let e = run_end(bytes, i);
        // the run is nonempty here, so its end lies past `i` and within the
        // bytes; the bounds keep the recursion visibly decreasing
        let next = if i + 1 <= e && e <= bytes.len() {
            e
        } else {
            i + 1
        };
        seq![Ok(run_chars(bytes, i))] + utf8_chunks_from(bytes, next)
    } else {
        seq![Err(bytes[i])] + utf8_chunks_from(bytes, i + 1)
    }
}

/// The views of the segments an execution produced.
pub open spec fn chunk_views(r: Seq<Result<String, u8>>) -> Seq<Result<Seq<char>, u8>> {
    r.map_values(
        |x: Result<String, u8>|
            match x {
                Ok(s) => Ok::<Seq<char>, u8>(s@),
                Err(b) => Err::<Seq<char>, u8>(b),
            },
    )
}

/// Splits possibly invalid UTF-8 into maximal valid text runs and single
/// invalid bytes.
pub fn from_utf8_iter(bytes: &[u8]) -> (r: Vec<Result<String, u8>>)
    ensures
        chunk_views(r@) == utf8_chunks_from(bytes@, 0),
{
    broadcast use vstd::utf8::char_u32_cast;

    let n = bytes.len();
    let mut r: Vec<Result<String, u8>> = Vec::new();
    let mut i: usize = 0;
    while i < n
        invariant
            i <= n,
            n == bytes@.len(),
            utf8_chunks_from(bytes@, 0) == chunk_views(r@) + utf8_chunks_from(bytes@, i as int),
        decreases n - i,
    {
        let ghost old_r = r@;
        let ghost i0 = i as int;
        match encoding::utf8_decode_first(bytes, i) {
            Some((c0, l0)) => {
                let mut s = String::new();
                crate::push_char(&mut s, c0);
                let mut j: usize = i + l0;
                proof {
                    assert(s@ =~= seq![c0]);
                    char_u32_cast(c0, decode_first_scalar(bytes@.skip(i0)));
                    assert(c0 == decode_first_scalar(bytes@.skip(i0)) as char);
                    assert(run_chars(bytes@, i0) == seq![c0] + run_chars(bytes@, j as int));
                    assert(run_end(bytes@, i0) == run_end(bytes@, j as int));
                }
                let mut more = true;
                while more
                    invariant
                        i0 < j <= n,
                        n == bytes@.len(),
                        run_chars(bytes@, i0) == s@ + (if more {
                            run_chars(bytes@, j as int)
                        } else {
                            Seq::<char>::empty()
                        }),
                        run_end(bytes@, i0) == (if more {
                            run_end(bytes@, j as int)
                        } else {
                            j as int
                        }),
                    decreases n - j + (if more {
                        1int
                    } else {
                        0int
                    }),
                {
                    let ghost old_j = j as int;
                    let ghost old_s = s@;
                    match encoding::utf8_decode_first(bytes, j) {
                        Some((c, l)) => {
                            crate::push_char(&mut s, c);
                            j = j + l;
                            proof {
                                char_u32_cast(c, decode_first_scalar(bytes@.skip(old_j)));
                                assert(c == decode_first_scalar(bytes@.skip(old_j)) as char);
                                assert(run_chars(bytes@, old_j) == seq![c] + run_chars(
                                    bytes@,
                                    j as int,
                                ));
                                assert(run_end(bytes@, old_j) == run_end(bytes@, j as int));
                                assert(old_s + (seq![c] + run_chars(bytes@, j as int)) =~= s@
                                    + run_chars(bytes@, j as int));
                            }
                        },
                        None => {
                            more = false;
                            proof {
                                assert(run_chars(bytes@, old_j) =~= Seq::<char>::empty());
                                assert(run_end(bytes@, old_j) == old_j);
                                assert(old_s + Seq::<char>::empty() =~= old_s);
                            }
                        },
                    }
                }
                r.push(Ok(s));
                proof {
                    assert(chunk_views(r@) =~= chunk_views(old_r).push(
                        Ok::<Seq<char>, u8>(s@),
                    ));
                }
                i = j;
            },
            None => {
                r.push(Err(bytes[i]));
                proof {
                    assert(chunk_views(r@) =~= chunk_views(old_r).push(
                        Err::<Seq<char>, u8>(bytes@[i0]),
                    ));
                }
                i = i + 1;
            },
        }
    }
    r
}

/// ASCII characters from the special set; quote triggers outside ASCII are
/// checked separately.
fn is_special_shell_char(c: char) -> (r: bool)
    ensures
        r == special_shell_char(c),
{
    c == '|' || c == '&' || c == ';' || c == '<' || c == '>' || c == '(' || c == ')' || c == '$'
        || c == '`' || c == '\\' || c == '"' || c == '\'' || c == '*' || c == '?' || c == '['
        || c == ']' || c == '=' || c == '^' || c == '{' || c == '}' || c == ' '
}

/// Unicode whitespace, as some shells split bare words on it.
fn is_unicode_whitespace(c: char) -> (r: bool)
    ensures
        r == spec_unicode_whitespace(c),
{
    let u = c as u32;
    (0x09 <= u && u <= 0x0D) || u == 0x20 || u == 0x85 || u == 0xA0 || u == 0x1680 || (0x2000 <= u
        && u <= 0x200A) || u == 0x2028 || u == 0x2029 || u == 0x202F || u == 0x205F || u == 0x3000
}

fn is_ascii_hexdigit_char(c: char) -> (r: bool)
    ensures
        r == spec_ascii_hexdigit(c),
{
    ('0' <= c && c <= '9') || ('a' <= c && c <= 'f') || ('A' <= c && c <= 'F')
}

/// Render text for a POSIX shell: bare when nothing forces quoting,
/// single- or double-quoted when one of those is safe, the multi-segment
/// escaped-quote form otherwise, and ANSI-C escape-mode when the text holds
/// a control character, a line or paragraph separator, or a suspicious use
/// of bidi controls.
pub fn write(text: &str, force_quote: bool) -> (r: String)
    ensures
        r@ == rendered(text@, force_quote),
{
    let n = text.unicode_len();
    let mut needs_quote = force_quote;
    if !needs_quote {
        if n == 0 {
            needs_quote = true;
        } else {
            let first = text.get_char(0);
            if first == '~' || first == '#' || first == '!' {
                needs_quote = true;
            }
            if !needs_quote {
                // Terminals tend to include zero-width characters at the
                // end of a selection but not at the start, so a leading one
                // needs quotes.
                let zero_width = match crate::display_width(first) {
                    None => true,
                    Some(w) => w == 0,
                };
                if zero_width {
                    needs_quote = true;
                }
            }
        }
    }
    let ghost start_quote = force_quote || text@.len() == 0 || special_start_char(text@[0])
        || crate::width_starts_quoted(text@[0]);
    proof {
        assert(needs_quote == start_quote);
    }
    let mut is_single_safe = true;
    let mut is_double_safe = true;
    let mut has_bidi = false;
    let mut i: usize = 0;
    while i < n
        invariant
            i <= n,
            n == text@.len(),
            start_quote == (force_quote || text@.len() == 0 || special_start_char(text@[0])
                || crate::width_starts_quoted(text@[0])),
            forall|k: int| 0 <= k < i ==> !crate::spec_requires_escape(#[trigger] text@[k]),
            is_single_safe == (forall|k: int| 0 <= k < i ==> #[trigger] text@[k] != '\''),
            is_double_safe == (forall|k: int|
                0 <= k < i ==> !double_unsafe_char(#[trigger] text@[k])),
            has_bidi == (exists|k: int| 0 <= k < i && crate::spec_is_bidi(#[trigger] text@[k])),
            needs_quote == (start_quote || (exists|k: int|
                0 <= k < i && quote_trigger_char(#[trigger] text@[k]))),
        decreases n - i,
    {
        let c = text.get_char(i);
        if (c as u32) <= 0x7F {
            if c == '\'' {
                is_single_safe = false;
            }
            if is_double_safe && (c == '"' || c == '`' || c == '$' || c == '\\') {
                is_double_safe = false;
            }
            if !needs_quote && is_special_shell_char(c) {
                needs_quote = true;
            }
            if (c as u32) <= 0x1F || (c as u32) == 0x7F {
                proof {
                    assert(crate::spec_requires_escape(text@[i as int]));
                }
                return write_escaped(text.as_bytes());
            }
        } else {
            if !needs_quote && (is_unicode_whitespace(c) || c == '\u{2800}') {
                needs_quote = true;
            }
            if crate::is_bidi(c) {
                has_bidi = true;
            }
            if crate::requires_escape(c) {
                proof {
                    assert(crate::spec_requires_escape(text@[i as int]));
                }
                return write_escaped(text.as_bytes());
            }
        }
        i = i + 1;
    }
    if has_bidi && crate::is_suspicious_bidi(text) {
        return write_escaped(text.as_bytes());
    }
    proof {
        assert(!crate::escape_mode(text@));
        assert(needs_quote == requires_quote(text@, force_quote));
    }
    if !needs_quote {
        text.to_owned()
    } else if is_single_safe {
        write_simple(text, '\'')
    } else if is_double_safe {
        write_simple(text, '"')
    } else {
        write_single_escaped(text)
    }
}

/// The text wrapped in the given quote character on both sides.
pub fn write_simple(text: &str, quote: char) -> (r: String)
    ensures
        r@ == crate::simple_quoted(text@, quote),
{
    let mut r = String::new();
    crate::push_char(&mut r, quote);
    r.append(text);
    crate::push_char(&mut r, quote);
    proof {
        assert(r@ =~= crate::simple_quoted(text@, quote));
    }
    r
}

/// The multi-segment escaped-quote form: the text is split on single
/// quotes, nonempty segments are single-quoted, and a bare `\'` stands in
/// for each quote.
pub fn write_single_escaped(text: &str) -> (r: String)
    ensures
        r@ == single_escaped(text@),
{
    let n = text.unicode_len();
    let mut r = String::new();
    let mut i: usize = 0;
    while i < n
        invariant
            i <= n,
            n == text@.len(),
            single_escaped(text@) == r@ + single_escaped_from(text@, i as int),
        decreases n - i,
    {
        let ghost old_r = r@;
        let c = text.get_char(i);
        if c == '\'' {
            crate::push_char(&mut r, '\\');
            crate::push_char(&mut r, '\'');
        } else {
            if i == 0 || text.get_char(i - 1) == '\'' {
                crate::push_char(&mut r, '\'');
            }
            crate::push_char(&mut r, c);
            if i == n - 1 || text.get_char(i + 1) == '\'' {
                crate::push_char(&mut r, '\'');
            }
        }
        proof {
            assert(r@ =~= old_r + single_escaped_piece(text@, i as int));
        }
        i = i + 1;
    }
    r
}

/// Escape-mode rendering in the ANSI-C `$'...'` syntax of bash, zsh,
/// busybox sh, mksh and ksh93. Well-formed UTF-8 runs are kept as text with
/// only the dangerous characters escaped; every other byte becomes `\xHH`.
/// ksh variants accept more than two digits for a `\x` escape, so whenever
/// a hex digit would directly follow one, the quoting is interrupted with a
/// fresh `'$'` splice.
pub fn write_escaped(bytes: &[u8]) -> (r: String)
    ensures
        r@ == escaped(bytes@),
{
    broadcast use vstd::utf8::char_u32_cast;

    let n = bytes.len();
    let mut r = String::new();
    crate::push_char(&mut r, '$');
    crate::push_char(&mut r, '\'');
    let mut i: usize = 0;
    let mut esc = false;
    while i < n
        invariant
            i <= n,
            n == bytes@.len(),
            seq!['$', '\''] + escaped_body(bytes@, 0, false) == r@ + escaped_body(
                bytes@,
                i as int,
                esc,
            ),
        decreases n - i,
    {
        let ghost old_r = r@;
        let ghost old_esc = esc;
        match encoding::utf8_decode_first(bytes, i) {
            Some((c, l)) => {
                if c == '\n' {
                    crate::push_char(&mut r, '\\');
                    crate::push_char(&mut r, 'n');
                    esc = false;
                } else if c == '\t' {
                    crate::push_char(&mut r, '\\');
                    crate::push_char(&mut r, 't');
                    esc = false;
                } else if c == '\r' {
                    crate::push_char(&mut r, '\\');
                    crate::push_char(&mut r, 'r');
                    esc = false;
                } else if crate::requires_escape(c) || crate::is_bidi(c) {
                    let eb = encoding::utf8_encode_char(c);
                    let ghost run_start = r@;
                    let mut j: usize = 0;
                    while j < eb.len()
                        invariant
                            j <= eb@.len(),
                            run_start + hex_escape_from(eb@, 0) == r@ + hex_escape_from(
                                eb@,
                                j as int,
                            ),
                        decreases eb@.len() - j,
                    {
                        let ghost before = r@;
                        crate::push_char(&mut r, '\\');
                        crate::push_char(&mut r, 'x');
                        encoding::push_hex(&mut r, eb[j] as u32, 2);
                        proof {
                            assert(r@ =~= before + hex_escape_byte(eb@[j as int]));
                        }
                        j = j + 1;
                    }
                    esc = true;
                } else if c == '\\' || c == '\'' {
                    crate::push_char(&mut r, '\\');
                    crate::push_char(&mut r, c);
                    esc = false;
                } else if esc && is_ascii_hexdigit_char(c) {
                    crate::push_char(&mut r, '\'');
                    crate::push_char(&mut r, '$');
                    crate::push_char(&mut r, '\'');
                    crate::push_char(&mut r, c);
                    esc = false;
                } else {
                    crate::push_char(&mut r, c);
                    esc = false;
                }
                proof {
                    vstd::utf8::char_u32_cast(c, decode_first_scalar(bytes@.skip(i as int)));
                    assert(c == decode_first_scalar(bytes@.skip(i as int)) as char);
                    assert(r@ =~= old_r + escaped_char_out(c, old_esc));
                    assert(esc == escaped_char_state(c));
                }
                i = i + l;
            },
            None => {
                crate::push_char(&mut r, '\\');
                crate::push_char(&mut r, 'x');
                encoding::push_hex(&mut r, bytes[i] as u32, 2);
                proof {
                    assert(r@ =~= old_r + hex_escape_byte(bytes@[i as int]));
                }
                esc = true;
                i = i + 1;
            },
        }
    }
    crate::push_char(&mut r, '\'');
    proof {
        assert(r@ =~= escaped(bytes@));
    }
    r
}

} // verus!
