//! Quoting for PowerShell.
//!
//! Much of this mirrors the POSIX module; the differences are PowerShell's
//! own special-character sets, its treatment of Unicode look-alike quotes,
//! its backtick escapes, and the legacy `external` argument-passing rules.

use vstd::prelude::*;
use vstd::string::*;

use crate::encoding;
use crate::encoding::hex_pad;

verus! {

/// Characters with special meaning outside quotes. The omission of `\` is
/// important because it is used in file paths.
pub open spec fn special_shell_char(c: char) -> bool {
    ||| c == '|'
    ||| c == '&'
    ||| c == ';'
    ||| c == '<'
    ||| c == '>'
    ||| c == '('
    ||| c == ')'
    ||| c == '$'
    ||| c == '`'
    ||| c == '"'
    ||| c == '\''
    ||| c == '*'
    ||| c == '?'
    ||| c == '['
    ||| c == ']'
    ||| c == '='
    ||| c == ','
    ||| c == '{'
    ||| c == '}'
    ||| c == ' '
}

/// Characters with a special meaning at the beginning of a token: `~`
/// expands a home directory, `#` starts a comment, `@` splats, and a
/// stand-alone `!` has some special meaning.
pub open spec fn special_start_char(c: char) -> bool {
    c == '~' || c == '#' || c == '@' || c == '!'
}

/// The characters PowerShell considers whitespace: the ASCII blanks it
/// strips, no-break space, next line, everything in the separator
/// categories, and U+2800 BRAILLE PATTERN BLANK, which is not strictly
/// whitespace but invisible enough to quote.
pub open spec fn spec_whitespace(c: char) -> bool {
    ||| c == ' '
    ||| c == '\t'
    ||| c == '\u{0B}'
    ||| c == '\u{0C}'
    ||| c == '\u{A0}'
    ||| c == '\u{85}'
    ||| c == '\u{2800}'
    ||| spec_separator(c)
}

/// The space, line and paragraph separator categories.
pub open spec fn spec_separator(c: char) -> bool {
    let u = c as u32;
    ||| u == 0x0020
    ||| u == 0x00A0
    ||| u == 0x1680
    ||| (0x2000 <= u && u <= 0x200A)
    ||| u == 0x2028
    ||| u == 0x2029
    ||| u == 0x202F
    ||| u == 0x205F
    ||| u == 0x3000
}

/// The dash-like characters that can start an option.
pub open spec fn spec_dash(c: char) -> bool {
    c == '-' || c == '\u{2013}' || c == '\u{2014}' || c == '\u{2015}'
}

/// The characters PowerShell reads as a single quote.
pub open spec fn spec_single_quote(c: char) -> bool {
    c == '\'' || c == '\u{2018}' || c == '\u{2019}' || c == '\u{201A}' || c == '\u{201B}'
}

/// The characters PowerShell reads as a double quote.
pub open spec fn spec_double_quote(c: char) -> bool {
    c == '"' || c == '\u{201C}' || c == '\u{201D}' || c == '\u{201E}'
}

/// Characters that are interpreted specially inside a double-quoted
/// string: the ASCII set, plus the look-alike double quotes.
pub open spec fn double_unsafe_char(c: char) -> bool {
    c == '`' || c == '$' || spec_double_quote(c)
}

/// PowerShell's whitespace, per its tokenizer.
pub fn is_whitespace(c: char) -> (r: bool)
    ensures
        r == spec_whitespace(c),
{
    c == ' ' || c == '\t' || c == '\u{0B}' || c == '\u{0C}' || c == '\u{A0}' || c == '\u{85}'
        || c == '\u{2800}' || is_separator(c)
}

/// The space, line and paragraph separator categories.
pub fn is_separator(c: char) -> (r: bool)
    ensures
        r == spec_separator(c),
{
    let u = c as u32;
    u == 0x0020 || u == 0x00A0 || u == 0x1680 || (0x2000 <= u && u <= 0x200A) || u == 0x2028 || u
        == 0x2029 || u == 0x202F || u == 0x205F || u == 0x3000
}

/// Dash-like characters that can start an option.
pub fn is_dash(c: char) -> (r: bool)
    ensures
        r == spec_dash(c),
{
    c == '-' || c == '\u{2013}' || c == '\u{2014}' || c == '\u{2015}'
}

/// Characters PowerShell reads as a single quote.
pub fn is_single_quote(c: char) -> (r: bool)
    ensures
        r == spec_single_quote(c),
{
    c == '\'' || c == '\u{2018}' || c == '\u{2019}' || c == '\u{201A}' || c == '\u{201B}'
}

/// Characters PowerShell reads as a double quote.
pub fn is_double_quote(c: char) -> (r: bool)
    ensures
        r == spec_double_quote(c),
{
    c == '"' || c == '\u{201C}' || c == '\u{201D}' || c == '\u{201E}'
}

/// Whether a character anywhere in the text forces quoting: an ASCII
/// character from the special set, or (outside ASCII) whitespace or a
/// look-alike quote.
pub open spec fn quote_trigger_char(c: char) -> bool {
    if c as u32 <= 0x7F {
        special_shell_char(c)
    } else {
        spec_whitespace(c) || spec_single_quote(c) || spec_double_quote(c)
    }
}

/// Whether a bare token would be read as a number: PowerShell may parse
/// bare strings with a leading digit, or a leading `.` followed by a
/// digit, as numbers in some contexts. External commands are not picky.
pub open spec fn numeric_quote(t: Seq<char>, external: bool) -> bool
    recommends
        t.len() > 0,
{
    &&& !external
    &&& (('0' <= t[0] && t[0] <= '9') || (t[0] == '.' && t.len() >= 2 && '0' <= t[1] && t[1]
        <= '9'))
}

/// Whether a leading dash forces quoting. A lone dash, or one followed by
/// another `-`, stays bare. Otherwise the token looks like an option:
/// commandlets must not recognize it as one, and in external mode a `:` or
/// `.` anywhere makes PowerShell split or rewrite the token.
pub open spec fn dash_quote(t: Seq<char>, external: bool) -> bool
    recommends
        t.len() > 0,
{
    &&& spec_dash(t[0])
    &&& !(t.len() == 1 || t[1] == '-')
    &&& (external ==> exists|i: int|
        0 <= i < t.len() && (#[trigger] t[i] == ':' || t[i] == '.'))
}

/// Whether the token must be quoted.
pub open spec fn requires_quote(t: Seq<char>, force: bool, external: bool) -> bool {
    ||| force
    ||| t.len() == 0
    ||| special_start_char(t[0])
    ||| numeric_quote(t, external)
    ||| dash_quote(t, external)
    ||| crate::width_starts_quoted(t[0])
    ||| exists|i: int| 0 <= i < t.len() && quote_trigger_char(#[trigger] t[i])
}

/// No single-quote-class character anywhere.
pub open spec fn single_safe(t: Seq<char>) -> bool {
    forall|i: int| 0 <= i < t.len() ==> !spec_single_quote(#[trigger] t[i])
}

/// No character that is special inside double quotes.
pub open spec fn double_safe(t: Seq<char>) -> bool {
    forall|i: int| 0 <= i < t.len() ==> !double_unsafe_char(#[trigger] t[i])
}

/// Whether the text holds an ASCII double quote, which external mode must
/// escape for the native argv parser.
pub open spec fn has_ascii_double(t: Seq<char>) -> bool {
    exists|i: int| 0 <= i < t.len() && #[trigger] t[i] == '"'
}

/// The single-escaped form from position `i` onward: quotes in PowerShell
/// are escaped by doubling them, so a `'` goes in before every
/// single-quote-class character.
pub open spec fn single_escaped_from(t: Seq<char>, i: int) -> Seq<char>
    decreases t.len() - i,
    when 0 <= i <= t.len()
{
    if i >= t.len() {
        Seq::empty()
    } else {
        (if spec_single_quote(t[i]) {
            seq!['\'', t[i]]
        } else {
            seq![t[i]]
        }) + single_escaped_from(t, i + 1)
    }
}

/// The single-escaped form, whole.
pub open spec fn single_escaped(t: Seq<char>) -> Seq<char> {
    seq!['\''] + single_escaped_from(t, 0) + seq!['\'']
}

/// The external-mode escaped form from position `i` onward, with `bs` the
/// number of backslashes directly before position `i`. A double quote must
/// be escaped for the native argv parser: the `bs` backslashes before it
/// become `2 * bs + 1`, so `bs + 1` more go in; single-quote-class
/// characters are doubled as usual.
pub open spec fn external_escaped_from(t: Seq<char>, i: int, bs: nat) -> Seq<char>
    decreases t.len() - i,
    when 0 <= i <= t.len()
{
    if i >= t.len() {
        Seq::empty()
    } else if t[i] == '"' {
        Seq::new(bs + 1, |k: int| '\\') + seq!['"'] + external_escaped_from(t, i + 1, 0)
    } else if spec_single_quote(t[i]) {
        seq!['\'', t[i]] + external_escaped_from(t, i + 1, 0)
    } else {
        seq![t[i]] + external_escaped_from(
            t,
            i + 1,
            if t[i] == '\\' {
                bs + 1
            } else {
                0
            },
        )
    }
}

/// The external-mode escaped form, whole.
pub open spec fn external_escaped(t: Seq<char>) -> Seq<char> {
    seq!['\''] + external_escaped_from(t, 0, 0) + seq!['\'']
}

/// The characters as escape-mode input units.
pub open spec fn ok_units(t: Seq<char>) -> Seq<Result<char, u16>> {
    t.map_values(|c: char| Ok::<char, u16>(c))
}

/// What escape-mode rendering emits for one unit. `bs` is the number of
/// backslashes directly before it, which only an external-mode double
/// quote cares about.
pub open spec fn escaped_unit_out(x: Result<char, u16>, bs: nat, external: bool) -> Seq<char> {
    match x {
        Err(u) => seq!['`', 'u', '{'] + hex_pad(u as int, 4) + seq!['}'],
        Ok(c) => {
            if c == '\0' {
                seq!['`', '0']
            } else if c == '\r' {
                seq!['`', 'r']
            } else if c == '\n' {
                seq!['`', 'n']
            } else if c == '\t' {
                seq!['`', 't']
            } else if c == '\u{07}' {
                seq!['`', 'a']
            } else if c == '\u{08}' {
                seq!['`', 'b']
            } else if c == '\u{0B}' {
                seq!['`', 'v']
            } else if c == '\u{0C}' {
                seq!['`', 'f']
            } else if crate::spec_requires_escape(c) || crate::spec_is_bidi(c) {
                seq!['`', 'u', '{'] + hex_pad(c as u32 as int, 2) + seq!['}']
            } else if c == '`' {
                seq!['`', '`']
            } else if c == '$' {
                seq!['`', '$']
            } else if c == '"' && external {
                Seq::new(bs + 1, |k: int| '\\') + seq!['`', '"']
            } else if spec_double_quote(c) {
                seq!['`', c]
            } else {
                seq![c]
            }
        },
    }
}

/// The number of backslashes directly after this unit is emitted. Invalid
/// units leave the count alone.
pub open spec fn unit_bs(x: Result<char, u16>, bs: nat) -> nat {
    match x {
        Ok(c) => if c == '\\' {
            bs + 1
        } else {
            0
        },
        Err(_) => bs,
    }
}

/// The body of the escape-mode rendering from position `i` onward.
pub open spec fn escaped_body(
    units: Seq<Result<char, u16>>,
    i: int,
    bs: nat,
    external: bool,
) -> Seq<char>
    decreases units.len() - i,
    when 0 <= i <= units.len()
{
    if i >= units.len() {
        Seq::empty()
    } else {
        escaped_unit_out(units[i], bs, external) + escaped_body(
            units,
            i + 1,
            unit_bs(units[i], bs),
            external,
        )
    }
}

/// The escape-mode (backtick-escaped `"..."`) rendering of a unit
/// sequence.
pub open spec fn escaped(units: Seq<Result<char, u16>>, external: bool) -> Seq<char> {
    seq!['"'] + escaped_body(units, 0, 0, external) + seq!['"']
}

/// The full rendering of text for PowerShell.
pub open spec fn rendered(t: Seq<char>, force: bool, external: bool) -> Seq<char> {
    if external && t.len() == 0 {
        // a bare '' would be swallowed when passed to an external program
        seq!['\'', '"', '"', '\'']
    } else if t == seq!['-', '-', '%'] {
        // the stop-parsing token stays special however it is passed
        if external {
            seq!['\'', '"', '-', '-', '%', '"', '\'']
        } else {
            seq!['\'', '-', '-', '%', '\'']
        }
    } else if crate::escape_mode(t) {
        escaped(ok_units(t), external)
    } else if !requires_quote(t, force, external) {
        t
    } else if external && has_ascii_double(t) {
        external_escaped(t)
    } else if single_safe(t) {
        crate::simple_quoted(t, '\'')
    } else if double_safe(t) {
        crate::simple_quoted(t, '"')
    } else {
        single_escaped(t)
    }
}

/// ASCII characters from the special set; quote triggers outside ASCII
/// are checked separately.
fn is_special_shell_char(c: char) -> (r: bool)
    ensures
        r == special_shell_char(c),
{
    c == '|' || c == '&' || c == ';' || c == '<' || c == '>' || c == '(' || c == ')' || c == '$'
        || c == '`' || c == '"' || c == '\'' || c == '*' || c == '?' || c == '[' || c == ']'
        || c == '=' || c == ',' || c == '{' || c == '}' || c == ' '
}

/// Whether the text holds a `:` or a `.` anywhere: in external mode a `:`
/// after a leading dash must be followed by a value, and a `.` starts a
/// new argument, so such tokens are quoted.
fn contains_colon_or_dot(text: &str) -> (r: bool)
    ensures
        r == exists|i: int|
            0 <= i < text@.len() && (#[trigger] text@[i] == ':' || text@[i] == '.'),
{
    let n = text.unicode_len();
    let mut i: usize = 0;
    while i < n
        invariant
            i <= n,
            n == text@.len(),
            forall|k: int| 0 <= k < i ==> !(#[trigger] text@[k] == ':' || text@[k] == '.'),
        decreases n - i,
    {
        let c = text.get_char(i);
        if c == ':' || c == '.' {
            return true;
        }
        i = i + 1;
    }
    false
}

/// Render text for PowerShell: bare when nothing forces quoting, single-
/// or double-quoted when one of those is safe, a quote-doubling or
/// external-argv escaped form otherwise, and backtick escape-mode when the
/// text holds a control character, a line or paragraph separator, or a
/// suspicious use of bidi controls. Two literal tokens, the empty string
/// and `--%`, get fixed renderings that survive PowerShell's special
/// handling of them.
pub fn write(text: &str, force_quote: bool, external: bool) -> (r: String)
    ensures
        r@ == rendered(text@, force_quote, external),
{
    let n = text.unicode_len();
    if external && n == 0 {
        let mut r = String::new();
        crate::push_char(&mut r, '\'');
        crate::push_char(&mut r, '"');
        crate::push_char(&mut r, '"');
        crate::push_char(&mut r, '\'');
        proof {
            assert(r@ =~= seq!['\'', '"', '"', '\'']);
        }
        return r;
    }
    if n == 3 && text.get_char(0) == '-' && text.get_char(1) == '-' && text.get_char(2) == '%' {
        proof {
            assert(text@ =~= seq!['-', '-', '%']);
        }
        let mut r = String::new();
        crate::push_char(&mut r, '\'');
        if external {
            crate::push_char(&mut r, '"');
        }
        crate::push_char(&mut r, '-');
        crate::push_char(&mut r, '-');
        crate::push_char(&mut r, '%');
        if external {
            crate::push_char(&mut r, '"');
        }
        crate::push_char(&mut r, '\'');
        proof {
            if external {
                assert(r@ =~= seq!['\'', '"', '-', '-', '%', '"', '\'']);
            } else {
                assert(r@ =~= seq!['\'', '-', '-', '%', '\'']);
            }
        }
        return r;
    }
    proof {
        if text@ == seq!['-', '-', '%'] {
            assert(text@.len() == 3 && text@[0] == '-' && text@[1] == '-' && text@[2] == '%');
            assert(false);
        }
    }
    let mut needs_quote = force_quote;
    if !needs_quote {
        if n == 0 {
            needs_quote = true;
        } else {
            let first = text.get_char(0);
            if first == '~' || first == '#' || first == '@' || first == '!' {
                needs_quote = true;
            }
            if !external {
                if !needs_quote && '0' <= first && first <= '9' {
                    needs_quote = true;
                }
                if !needs_quote && first == '.' && n >= 2 {
                    let second = text.get_char(1);
                    if '0' <= second && second <= '9' {
                        needs_quote = true;
                    }
                }
            }
            if !needs_quote && is_dash(first) {
                if n == 1 || text.get_char(1) == '-' {
                    // a lone dash, or several leading dashes, stays bare
                } else if external {
                    if contains_colon_or_dot(text) {
                        needs_quote = true;
                    }
                } else {
                    // this looks like an option: quoting stops commandlets
                    // from recognizing it as one
                    needs_quote = true;
                }
            }
            if !needs_quote {
                let zero_width = match crate::display_width(first) {
                    None => true,
                    Some(w) => w == 0,
                };
                if zero_width {
                    needs_quote = true;
                }
            }
        }
    }
    let ghost start_quote = force_quote || text@.len() == 0 || special_start_char(text@[0])
        || numeric_quote(text@, external) || dash_quote(text@, external)
        || crate::width_starts_quoted(text@[0]);
    proof {
        assert(needs_quote == start_quote);
    }
    let mut is_single_safe = true;
    let mut is_double_safe = true;
    let mut has_double = false;
    let mut has_bidi = false;
    let mut i: usize = 0;
    while i < n
        invariant
            i <= n,
            n == text@.len(),
            !(external && text@.len() == 0),
            text@ != seq!['-', '-', '%'],
            start_quote == (force_quote || text@.len() == 0 || special_start_char(text@[0])
                || numeric_quote(text@, external) || dash_quote(text@, external)
                || crate::width_starts_quoted(text@[0])),
            forall|k: int| 0 <= k < i ==> !crate::spec_requires_escape(#[trigger] text@[k]),
            is_single_safe == (forall|k: int|
                0 <= k < i ==> !spec_single_quote(#[trigger] text@[k])),
            is_double_safe == (forall|k: int|
                0 <= k < i ==> !double_unsafe_char(#[trigger] text@[k])),
            has_double == (exists|k: int| 0 <= k < i && #[trigger] text@[k] == '"'),
            has_bidi == (exists|k: int| 0 <= k < i && crate::spec_is_bidi(#[trigger] text@[k])),
            needs_quote == (start_quote || (exists|k: int|
                0 <= k < i && quote_trigger_char(#[trigger] text@[k]))),
        decreases n - i,
    {
        let c = text.get_char(i);
        if (c as u32) <= 0x7F {
            if c == '\'' {
                is_single_safe = false;
            }
            if c == '"' {
                has_double = true;
            }
            if is_double_safe && (c == '"' || c == '`' || c == '$') {
                is_double_safe = false;
            }
            if !needs_quote && is_special_shell_char(c) {
                needs_quote = true;
            }
            if (c as u32) <= 0x1F || (c as u32) == 0x7F {
                proof {
                    assert(crate::spec_requires_escape(text@[i as int]));
                }
                let units = text_units(text);
                return write_escaped(units.as_slice(), external);
            }
        } else {
            if !needs_quote && is_whitespace(c) {
                needs_quote = true;
            }
            if is_double_quote(c) {
                is_double_safe = false;
                needs_quote = true;
            }
            if is_single_quote(c) {
                is_single_safe = false;
                needs_quote = true;
            }
            if crate::is_bidi(c) {
                has_bidi = true;
            }
            if crate::requires_escape(c) {
                proof {
                    assert(crate::spec_requires_escape(text@[i as int]));
                }
                let units = text_units(text);
                return write_escaped(units.as_slice(), external);
            }
        }
        i = i + 1;
    }
    if has_bidi && crate::is_suspicious_bidi(text) {
        let units = text_units(text);
        return write_escaped(units.as_slice(), external);
    }
    proof {
        assert(!crate::escape_mode(text@));
        assert(needs_quote == requires_quote(text@, force_quote, external));
    }
    if !needs_quote {
        text.to_owned()
    } else if external && has_double {
        write_external_escaped(text)
    } else if is_single_safe {
        write_simple(text, '\'')
    } else if is_double_safe {
        write_simple(text, '"')
    } else {
        write_single_escaped(text)
    }
}

/// The text wrapped in the given quote character on both sides.
pub fn write_simple(text: &str, quote: char) -> (r: String)
    ensures
        r@ == crate::simple_quoted(text@, quote),
{
    let mut r = String::new();
    crate::push_char(&mut r, quote);
    r.append(text);
    crate::push_char(&mut r, quote);
    proof {
        assert(r@ =~= crate::simple_quoted(text@, quote));
    }
    r
}

/// The single-quoted form with every single-quote-class character doubled:
/// the second quote is the one PowerShell keeps.
pub fn write_single_escaped(text: &str) -> (r: String)
    ensures
        r@ == single_escaped(text@),
{
    let n = text.unicode_len();
    let mut r = String::new();
    crate::push_char(&mut r, '\'');
    let mut i: usize = 0;
    while i < n
        invariant
            i <= n,
            n == text@.len(),
            seq!['\''] + single_escaped_from(text@, 0) == r@ + single_escaped_from(
                text@,
                i as int,
            ),
        decreases n - i,
    {
        let ghost old_r = r@;
        let c = text.get_char(i);
        if is_single_quote(c) {
            crate::push_char(&mut r, '\'');
            crate::push_char(&mut r, c);
            proof {
                assert(r@ =~= old_r + seq!['\'', c]);
            }
        } else {
            crate::push_char(&mut r, c);
            proof {
                assert(r@ =~= old_r + seq![c]);
            }
        }
        i = i + 1;
    }
    crate::push_char(&mut r, '\'');
    proof {
        assert(r@ =~= single_escaped(text@));
    }
    r
}

/// Appends `k` backslashes.
fn push_backslashes(r: &mut String, k: usize)
    ensures
        final(r)@ == old(r)@ + Seq::new(k as nat, |i: int| '\\'),
{
    let mut j: usize = 0;
    while j < k
        invariant
            j <= k,
            r@ == old(r)@ + Seq::new(j as nat, |i: int| '\\'),
        decreases k - j,
    {
        crate::push_char(r, '\\');
        proof {
            assert(r@ =~= old(r)@ + Seq::new((j + 1) as nat, |i: int| '\\'));
        }
        j = j + 1;
    }
}

/// The external-mode escaped-quote form: single quotes are doubled, and
/// each embedded double quote gets its preceding backslashes doubled plus
/// one, satisfying the native argv-parsing rules.
pub fn write_external_escaped(text: &str) -> (r: String)
    ensures
        r@ == external_escaped(text@),
{
    let n = text.unicode_len();
    let mut r = String::new();
    crate::push_char(&mut r, '\'');
    let mut i: usize = 0;
    let mut bs: usize = 0;
    while i < n
        invariant
            i <= n,
            bs <= i,
            n == text@.len(),
            seq!['\''] + external_escaped_from(text@, 0, 0) == r@ + external_escaped_from(
                text@,
                i as int,
                bs as nat,
            ),
        decreases n - i,
    {
        let ghost old_r = r@;
        let c = text.get_char(i);
        if c == '"' {
            push_backslashes(&mut r, bs + 1);
            crate::push_char(&mut r, '"');
            proof {
                assert(r@ =~= old_r + (Seq::new((bs + 1) as nat, |k: int| '\\') + seq!['"']));
            }
            bs = 0;
        } else if is_single_quote(c) {
            crate::push_char(&mut r, '\'');
            crate::push_char(&mut r, c);
            proof {
                assert(r@ =~= old_r + seq!['\'', c]);
            }
            bs = 0;
        } else {
            crate::push_char(&mut r, c);
            proof {
                assert(r@ =~= old_r + seq![c]);
            }
            if c == '\\' {
                bs = bs + 1;
            } else {
                bs = 0;
            }
        }
        i = i + 1;
    }
    crate::push_char(&mut r, '\'');
    proof {
        assert(r@ =~= external_escaped(text@));
    }
    r
}

/// The characters of the text as escape-mode input units.
fn text_units(text: &str) -> (r: Vec<Result<char, u16>>)
    ensures
        r@ == ok_units(text@),
{
    let n = text.unicode_len();
    let mut r: Vec<Result<char, u16>> = Vec::new();
    let mut i: usize = 0;
    while i < n
        invariant
            i <= n,
            n == text@.len(),
            r@ == ok_units(text@.take(i as int)),
        decreases n - i,
    {
        let c = text.get_char(i);
        r.push(Ok(c));
        proof {
            assert(text@.take(i + 1) =~= text@.take(i as int).push(text@[i as int]));
            assert(r@ =~= ok_units(text@.take(i + 1)));
        }
        i = i + 1;
    }
    proof {
        assert(text@.take(n as int) =~= text@);
    }
    r
}

/// Escape-mode rendering as a backtick-escaped double-quoted string.
/// Backtick takes the role of backslash, which is already the path
/// separator; invalid code units become `` `u{HHHH} `` escapes, which only
/// PowerShell Core supports.
pub fn write_escaped(units: &[Result<char, u16>], external: bool) -> (r: String)
    ensures
        r@ == escaped(units@, external),
{
    let n = units.len();
    let mut r = String::new();
    crate::push_char(&mut r, '"');
    let mut i: usize = 0;
    let mut bs: usize = 0;
    while i < n
        invariant
            i <= n,
            bs <= i,
            n == units@.len(),
            seq!['"'] + escaped_body(units@, 0, 0, external) == r@ + escaped_body(
                units@,
                i as int,
                bs as nat,
                external,
            ),
        decreases n - i,
    {
        let ghost old_r = r@;
        let x = units[i];
        match x {
            Ok(c) => {
                if c == '\0' {
                    crate::push_char(&mut r, '`');
                    crate::push_char(&mut r, '0');
                } else if c == '\r' {
                    crate::push_char(&mut r, '`');
                    crate::push_char(&mut r, 'r');
                } else if c == '\n' {
                    crate::push_char(&mut r, '`');
                    crate::push_char(&mut r, 'n');
                } else if c == '\t' {
                    crate::push_char(&mut r, '`');
                    crate::push_char(&mut r, 't');
                } else if c == '\u{07}' {
                    crate::push_char(&mut r, '`');
                    crate::push_char(&mut r, 'a');
                } else if c == '\u{08}' {
                    crate::push_char(&mut r, '`');
                    crate::push_char(&mut r, 'b');
                } else if c == '\u{0B}' {
                    crate::push_char(&mut r, '`');
                    crate::push_char(&mut r, 'v');
                } else if c == '\u{0C}' {
                    crate::push_char(&mut r, '`');
                    crate::push_char(&mut r, 'f');
                } else if crate::requires_escape(c) || crate::is_bidi(c) {
                    crate::push_char(&mut r, '`');
                    crate::push_char(&mut r, 'u');
                    crate::push_char(&mut r, '{');
                    encoding::push_hex(&mut r, c as u32, 2);
                    crate::push_char(&mut r, '}');
                } else if c == '`' {
                    crate::push_char(&mut r, '`');
                    crate::push_char(&mut r, '`');
                } else if c == '$' {
                    crate::push_char(&mut r, '`');
                    crate::push_char(&mut r, '$');
                } else if c == '"' && external {
                    push_backslashes(&mut r, bs + 1);
                    crate::push_char(&mut r, '`');
                    crate::push_char(&mut r, '"');
                } else if is_double_quote(c) {
                    crate::push_char(&mut r, '`');
                    crate::push_char(&mut r, c);
                } else {
                    crate::push_char(&mut r, c);
                }
                proof {
                    assert(r@ =~= old_r + escaped_unit_out(x, bs as nat, external));
                }
                if c == '\\' {
                    bs = bs + 1;
                } else {
                    bs = 0;
                }
            },
            Err(u) => {
                crate::push_char(&mut r, '`');
                crate::push_char(&mut r, 'u');
                crate::push_char(&mut r, '{');
                encoding::push_hex(&mut r, u as u32, 4);
                crate::push_char(&mut r, '}');
                proof {
                    assert(r@ =~= old_r + escaped_unit_out(x, bs as nat, external));
                }
            },
        }
        i = i + 1;
    }
    crate::push_char(&mut r, '"');
    proof {
        assert(r@ =~= escaped(units@, external));
    }
    r
}

} // verus!
