//! Quoting of strings and raw byte or code-unit sequences for two shell
//! dialects, bash/ksh and PowerShell, so that the quoted form pastes back
//! into the shell as exactly the original content.

use vstd::prelude::*;

pub mod encoding;
pub mod unix;
pub mod laws;
pub mod readback;
pub mod windows;

verus! {

/// U+2028 LINE SEPARATOR and U+2029 PARAGRAPH SEPARATOR, the only two
/// characters in the Unicode line and paragraph separator categories.
pub open spec fn spec_is_separator(c: char) -> bool {
    c == '\u{2028}' || c == '\u{2029}'
}

/// Whether the character may not be safe to print in a terminal:
/// a control character (category Cc) or a line or paragraph separator.
pub open spec fn spec_requires_escape(c: char) -> bool {
    c as u32 <= 0x1F || (0x7F <= c as u32 && c as u32 <= 0x9F) || spec_is_separator(c)
}

/// Whether the character may not be safe to print in a terminal.
///
/// This includes all the control characters.
pub fn requires_escape(c: char) -> (r: bool)
    ensures
        r == spec_requires_escape(c),
{
    let u = c as u32;
    u <= 0x1F || (0x7F <= u && u <= 0x9F) || u == 0x2028 || u == 0x2029
}

/// Line and paragraph separators.
pub fn is_separator(c: char) -> (r: bool)
    ensures
        r == spec_is_separator(c),
{
    c == '\u{2028}' || c == '\u{2029}'
}

/// The bidirectional formatting and isolate control characters:
/// LEFT-TO-RIGHT EMBEDDING through RIGHT-TO-LEFT OVERRIDE, and
/// LEFT-TO-RIGHT ISOLATE through POP DIRECTIONAL ISOLATE.
pub open spec fn spec_is_bidi(c: char) -> bool {
    (0x202A <= c as u32 && c as u32 <= 0x202E) || (0x2066 <= c as u32 && c as u32 <= 0x2069)
}

/// Bidirectional formatting and isolate control characters.
pub fn is_bidi(c: char) -> (r: bool)
    ensures
        r == spec_is_bidi(c),
{
    let u = c as u32;
    (0x202A <= u && u <= 0x202E) || (0x2066 <= u && u <= 0x2069)
}

/// The two families of bidirectional controls that must nest properly:
/// embeddings and overrides close with PDF, isolates close with PDI.
#[derive(Clone, Copy, PartialEq, Eq, Structural)]
pub enum BidiClass {
    Formatting,
    Isolate,
}

/// The class a character opens, if it is an opening bidi control.
pub open spec fn bidi_opener(c: char) -> Option<BidiClass> {
    if c == '\u{202A}' || c == '\u{202B}' || c == '\u{202D}' || c == '\u{202E}' {
        Some(BidiClass::Formatting)
    } else if c == '\u{2066}' || c == '\u{2067}' || c == '\u{2068}' {
        Some(BidiClass::Isolate)
    } else {
        None
    }
}

/// The class a character closes, if it is a closing bidi control.
pub open spec fn bidi_closer(c: char) -> Option<BidiClass> {
    if c == '\u{202C}' {
        Some(BidiClass::Formatting)
    } else if c == '\u{2069}' {
        Some(BidiClass::Isolate)
    } else {
        None
    }
}

/// The bounded-depth bidi scan from position `i` onward, with `stack`
/// holding the classes of the bidi controls opened so far. Suspicious on:
/// nesting past depth 16, a closer on an empty stack, a closer whose class
/// does not match the innermost opener, or an opener left unclosed at the
/// end of the text.
pub open spec fn suspicious_bidi_from(text: Seq<char>, i: int, stack: Seq<BidiClass>) -> bool
    decreases text.len() - i,
    when 0 <= i <= text.len()
{
    if i >= text.len() {
        stack.len() != 0
    } else {
        let c = text[i];
        match bidi_opener(c) {
            Some(k) => {
                if stack.len() >= 16 {
                    true
                } else {
                    suspicious_bidi_from(text, i + 1, stack.push(k))
                }
            },
            None => {
                match bidi_closer(c) {
                    Some(k) => {
                        if stack.len() == 0 {
                            true
                        } else if stack.last() != k {
                            true
                        } else {
                            suspicious_bidi_from(text, i + 1, stack.drop_last())
                        }
                    },
                    None => suspicious_bidi_from(text, i + 1, stack),
                }
            },
        }
    }
}

/// Whether the text uses bidirectional controls in a potentially
/// problematic way: unbalanced, mismatched, or nested deeper than 16.
///
/// This is a deliberately conservative approximation of the full UAX #9
/// matching rules: there is no pop-until-match recovery, so any ambiguity
/// counts as suspicious. Text that fails this check is forced through
/// escape-mode rendering, which escapes every bidi control numerically, so
/// that display reordering cannot misrepresent the quoted content.
pub open spec fn spec_suspicious_bidi(text: Seq<char>) -> bool {
    suspicious_bidi_from(text, 0, Seq::empty())
}

/// Check whether text uses bidi controls in a potentially problematic way.
pub fn is_suspicious_bidi(text: &str) -> (r: bool)
    ensures
        r == spec_suspicious_bidi(text@),
{
    let n = text.unicode_len();
    let mut stack: Vec<BidiClass> = Vec::new();
    let mut i: usize = 0;
    while i < n
        invariant
            i <= n,
            n == text@.len(),
            stack@.len() <= 16,
            spec_suspicious_bidi(text@) == suspicious_bidi_from(text@, i as int, stack@),
        decreases n - i,
    {
        let c = text.get_char(i);
        if c == '\u{202A}' || c == '\u{202B}' || c == '\u{202D}' || c == '\u{202E}' {
            if stack.len() >= 16 {
                return true;
            }
            stack.push(BidiClass::Formatting);
        } else if c == '\u{2066}' || c == '\u{2067}' || c == '\u{2068}' {
            if stack.len() >= 16 {
                return true;
            }
            stack.push(BidiClass::Isolate);
        } else if c == '\u{202C}' || c == '\u{2069}' {
            let k = if c == '\u{202C}' {
                BidiClass::Formatting
            } else {
                BidiClass::Isolate
            };
            if stack.len() == 0 {
                return true;
            }
            let top = stack[stack.len() - 1];
            if top != k {
                return true;
            }
            stack.pop();
        }
        i = i + 1;
    }
    stack.len() != 0
}

/// Whether any character of the text is an escape trigger: a control
/// character or a line or paragraph separator.
pub open spec fn contains_escape_trigger(t: Seq<char>) -> bool {
    exists|i: int| 0 <= i < t.len() && spec_requires_escape(#[trigger] t[i])
}

/// Whether any character of the text is a bidi control.
pub open spec fn contains_bidi(t: Seq<char>) -> bool {
    exists|i: int| 0 <= i < t.len() && spec_is_bidi(#[trigger] t[i])
}

/// Whether classification sends the text to escape-mode rendering: an
/// escape trigger anywhere, or a suspicious use of bidi controls.
pub open spec fn escape_mode(t: Seq<char>) -> bool {
    contains_escape_trigger(t) || (contains_bidi(t) && spec_suspicious_bidi(t))
}

/// The text wrapped in one quoting character on each side.
pub open spec fn simple_quoted(t: Seq<char>, q: char) -> Seq<char> {
    seq![q] + t + seq![q]
}

/// Relies on `String::push`: appends exactly the one character.
#[verifier::external_body]
pub(crate) fn push_char(s: &mut String, c: char)
    ensures
        final(s)@ == old(s)@.push(c),
{
    s.push(c);
}

/// The displayed column width of a character, as the terminal-width tables
/// give it: `None` or zero columns for characters that are invisible at the
/// start of a selection.
pub uninterp spec fn char_display_width(c: char) -> Option<usize>;

/// Relies on `unicode_width::UnicodeWidthChar::width`: the displayed column
/// width of a character, a pure lookup in the crate's Unicode tables that
/// depends on the character alone.
#[verifier::external_body]
pub(crate) fn display_width(c: char) -> (r: Option<usize>)
    ensures
        r == char_display_width(c),
{
    unicode_width::UnicodeWidthChar::width(c)
}

/// Whether a leading character with this width forces quoting: terminals
/// tend to drop zero-width characters from the start of a selection, so a
/// zero-width (or widthless) first character must not stay bare.
pub open spec fn width_starts_quoted(c: char) -> bool {
    char_display_width(c) == Some(0usize) || char_display_width(c) == None::<usize>
}

/// The character a surrogate pair stands for.
pub open spec fn utf16_combine(hi: u16, lo: u16) -> char
    recommends
        0xD800 <= hi <= 0xDBFF,
        0xDC00 <= lo <= 0xDFFF,
{
    ((0x10000 + (hi as int - 0xD800) * 0x400 + (lo as int - 0xDC00)) as u32) as char
}

/// The decoding of a UTF-16 code-unit sequence: each well-formed unit or
/// surrogate pair becomes its character, each unpaired surrogate stays as
/// the unit itself.
pub open spec fn utf16_decoded(units: Seq<u16>, i: int) -> Seq<Result<char, u16>>
    decreases units.len() - i,
    when 0 <= i <= units.len()
{
    if i >= units.len() {
        seq![]
    } else if 0xD800 <= units[i] && units[i] <= 0xDBFF {
        if i + 1 < units.len() && 0xDC00 <= units[i + 1] && units[i + 1] <= 0xDFFF {
            seq![Ok(utf16_combine(units[i], units[i + 1]))] + utf16_decoded(units, i + 2)
        } else {
            seq![Err(units[i])] + utf16_decoded(units, i + 1)
        }
    } else if 0xDC00 <= units[i] && units[i] <= 0xDFFF {
        seq![Err(units[i])] + utf16_decoded(units, i + 1)
    } else {
        seq![Ok((units[i] as u32) as char)] + utf16_decoded(units, i + 1)
    }
}

/// Decode UTF-16 code units, keeping each unpaired surrogate as an error.
pub fn decode_utf16(units: &[u16]) -> (r: Vec<Result<char, u16>>)
    ensures
        r@ == utf16_decoded(units@, 0),
{
    broadcast use vstd::utf8::char_u32_cast;

    let n = units.len();
    let mut r: Vec<Result<char, u16>> = Vec::new();
    let mut i: usize = 0;
    while i < n
        invariant
            i <= n,
            n == units@.len(),
            utf16_decoded(units@, 0) == r@ + utf16_decoded(units@, i as int),
        decreases n - i,
    {
        let u = units[i];
        if 0xD800 <= u && u <= 0xDBFF {
            if i + 1 < n && 0xDC00 <= units[i + 1] && units[i + 1] <= 0xDFFF {
                let lo = units[i + 1];
                let v: u32 = 0x10000 + ((u as u32) - 0xD800) * 0x400 + ((lo as u32) - 0xDC00);
                let c = encoding::char_from_u32(v);
                r.push(Ok(c));
                i = i + 2;
            } else {
                r.push(Err(u));
                i = i + 1;
            }
        } else if 0xDC00 <= u && u <= 0xDFFF {
            r.push(Err(u));
            i = i + 1;
        } else {
            let c = encoding::char_from_u32(u as u32);
            r.push(Ok(c));
            i = i + 1;
        }
    }
    r
}

/// Whether every UTF-16 code unit decoded: no unpaired surrogates.
pub open spec fn utf16_ok(units: Seq<u16>) -> bool {
    forall|i: int|
        0 <= i < utf16_decoded(units, 0).len() ==> #[trigger] utf16_decoded(units, 0)[i] is Ok
}

/// The characters of a fully valid UTF-16 code-unit sequence.
pub open spec fn utf16_chars(units: Seq<u16>) -> Seq<char>
    recommends
        utf16_ok(units),
{
    utf16_decoded(units, 0).map_values(|x: Result<char, u16>| x->Ok_0)
}

/// The input a `Quoted` renders: scalar text or a raw sequence, for one of
/// the two dialects.
#[derive(Debug)]
pub enum Kind {
    /// Text quoted with bash/ksh syntax.
    Unix(String),
    /// Possibly invalid UTF-8 quoted with bash/ksh syntax.
    UnixRaw(Vec<u8>),
    /// Text quoted with PowerShell syntax.
    Windows(String),
    /// Possibly invalid UTF-16 quoted with PowerShell syntax.
    WindowsRaw(Vec<u16>),
}

/// A wrapper around an input with the quoting options chosen for it.
#[derive(Debug)]
pub struct Quoted {
    /// The input and its dialect.
    pub source: Kind,
    /// Quote even when no special characters are present.
    pub force_quote: bool,
    /// Use PowerShell's legacy external-argv escaping.
    pub external: bool,
}

impl Quoted {
    /// What rendering this value produces.
    pub open spec fn spec_render(self) -> Seq<char> {
        match self.source {
            Kind::Unix(text) => unix::rendered(text@, self.force_quote),
            Kind::UnixRaw(bytes) => if vstd::utf8::valid_utf8(bytes@) {
                unix::rendered(vstd::utf8::decode_utf8(bytes@), self.force_quote)
            } else {
                unix::escaped(bytes@)
            },
            Kind::Windows(text) => windows::rendered(text@, self.force_quote, self.external),
            Kind::WindowsRaw(units) => if utf16_ok(units@) {
                windows::rendered(utf16_chars(units@), self.force_quote, self.external)
            } else {
                windows::escaped(utf16_decoded(units@, 0), self.external)
            },
        }
    }

    fn new(source: Kind) -> (q: Quoted)
        ensures
            q.source == source,
            q.force_quote == true,
            q.external == false,
    {
        Quoted { source, force_quote: true, external: false }
    }

    /// Quote a string using bash/ksh syntax.
    pub fn unix(text: &str) -> (q: Quoted)
        ensures
            q.source matches Kind::Unix(t) && t@ == text@,
            q.force_quote == true,
            q.external == false,
    {
        Quoted::new(Kind::Unix(text.to_owned()))
    }

    /// Quote possibly invalid UTF-8 using bash/ksh syntax.
    pub fn unix_raw(bytes: &[u8]) -> (q: Quoted)
        ensures
            q.source matches Kind::UnixRaw(b) && b@ == bytes@,
            q.force_quote == true,
            q.external == false,
    {
        Quoted::new(Kind::UnixRaw(vstd::slice::slice_to_vec(bytes)))
    }

    /// Quote a string using PowerShell syntax.
    pub fn windows(text: &str) -> (q: Quoted)
        ensures
            q.source matches Kind::Windows(t) && t@ == text@,
            q.force_quote == true,
            q.external == false,
    {
        Quoted::new(Kind::Windows(text.to_owned()))
    }

    /// Quote possibly invalid UTF-16 using PowerShell syntax.
    pub fn windows_raw(units: &[u16]) -> (q: Quoted)
        ensures
            q.source matches Kind::WindowsRaw(u) && u@ == units@,
            q.force_quote == true,
            q.external == false,
    {
        Quoted::new(Kind::WindowsRaw(vstd::slice::slice_to_vec(units)))
    }

    /// Toggle forced quoting. If `true`, quotes go on even when no special
    /// characters are present. Defaults to `true`.
    pub fn force(self, force: bool) -> (q: Quoted)
        ensures
            q.source == self.source,
            q.force_quote == force,
            q.external == self.external,
    {
        Quoted { force_quote: force, ..self }
    }

    /// Toggle PowerShell's legacy quoting for external programs. If
    /// enabled, double quotes and sometimes backslashes are escaped so the
    /// argument survives native argv parsing; if disabled, quoting suits
    /// modern argument passing, and strings that look like options or
    /// numbers are quoted. It has no effect on Unix-style quoting.
    /// Defaults to `false`.
    pub fn external(self, external: bool) -> (q: Quoted)
        ensures
            q.source == self.source,
            q.force_quote == self.force_quote,
            q.external == external,
    {
        Quoted { external, ..self }
    }

    /// Render the quoted form.
    pub fn render(&self) -> (r: String)
        ensures
            r@ == self.spec_render(),
    {
        match &self.source {
            Kind::Unix(text) => unix::write(text.as_str(), self.force_quote),
            Kind::UnixRaw(bytes) => {
                match encoding::try_decode_utf8(bytes.as_slice()) {
                    Some(text) => unix::write(text.as_str(), self.force_quote),
                    None => unix::write_escaped(bytes.as_slice()),
                }
            },
            Kind::Windows(text) => windows::write(text.as_str(), self.force_quote, self.external),
            Kind::WindowsRaw(units) => {
                let decoded = decode_utf16(units.as_slice());
                let n = decoded.len();
                let mut all_ok = true;
                let mut s = String::new();
                let mut i: usize = 0;
                while i < n && all_ok
                    invariant
                        i <= n,
                        n == decoded@.len(),
                        all_ok ==> s@.len() == i,
                        all_ok ==> forall|k: int|
                            0 <= k < i ==> #[trigger] decoded@[k] == Ok::<char, u16>(s@[k]),
                        !all_ok ==> exists|k: int| 0 <= k < n && #[trigger] decoded@[k] is Err,
                    decreases n - i + (if all_ok {
                        1int
                    } else {
                        0int
                    }),
                {
                    match decoded[i] {
                        Ok(c) => {
                            push_char(&mut s, c);
                        },
                        Err(_) => {
                            all_ok = false;
                        },
                    }
                    if all_ok {
                        i = i + 1;
                    }
                }
                if all_ok {
                    proof {
                        assert(utf16_ok(units@));
                        assert(s@ =~= utf16_chars(units@));
                    }
                    windows::write(s.as_str(), self.force_quote, self.external)
                } else {
                    proof {
                        assert(!utf16_ok(units@));
                    }
                    windows::write_escaped(decoded.as_slice(), self.external)
                }
            },
        }
    }
}

} // verus!
