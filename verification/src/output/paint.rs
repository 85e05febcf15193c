//! Terminal styling and measuring: ANSI colours (through `colored`), the
//! display width of a character (through `unicode-width`) and the width of
//! the terminal (through `terminal_size`).
//!
//! Whether `colored` emits escape codes depends on process-wide state (an
//! override, the environment), so a painted text is stated to be either the
//! text itself or the text wrapped in its escape sequence. Either way it
//! shows the text once the escapes are stripped, which is what the
//! formatters' contracts are stated over.

use colored::Colorize;
use unicode_width::UnicodeWidthChar;
use vstd::prelude::*;

use super::strip_ansi_from;

verus! {

/// `text` holds no escape character.
pub open spec fn no_escape(text: Seq<char>) -> bool {
    !text.contains('\x1b')
}

/// The escape state after reading `chars`, starting in state `in_escape`:
/// an escape character opens a sequence, and `m` closes an open one.
pub open spec fn escape_state_after(chars: Seq<char>, in_escape: bool) -> bool
    decreases chars.len(),
{
    if chars.len() == 0 {
        in_escape
    } else {
        let c = chars[0];
        let next = if c == '\x1b' {
            true
        } else if in_escape {
            c != 'm'
        } else {
            false
        };
        escape_state_after(chars.drop_first(), next)
    }
}

/// `out` shows `text` on a terminal: stripped of its escape sequences it is
/// `text`, and it leaves no sequence open.
pub open spec fn shows(out: Seq<char>, text: Seq<char>) -> bool {
    &&& strip_ansi_from(out, false) == text
    &&& !escape_state_after(out, false)
}

/// The escape sequence that selects the style with SGR code `code`.
pub open spec fn style_open(code: Seq<char>) -> Seq<char> {
    seq!['\x1b', '['] + code + seq!['m']
}

/// The escape sequence that resets all styles.
pub open spec fn style_reset() -> Seq<char> {
    seq!['\x1b', '[', '0', 'm']
}

/// What `colored` renders for `text` in the style `code`: the text as it
/// is when colouring is off, or wrapped in the style's escape sequences
/// when it is on. Nothing is said of a text that holds an escape itself.
pub open spec fn plain_or_styled(out: Seq<char>, text: Seq<char>, code: Seq<char>) -> bool {
    no_escape(text) ==> (out == text || out == style_open(code) + text + style_reset())
}

/// A style code is digits and semicolons: no escape and no `m`.
pub open spec fn code_ok(code: Seq<char>) -> bool {
    forall|i: int| 0 <= i < code.len() ==> #[trigger] code[i] != '\x1b' && code[i] != 'm'
}

/// Stripping and the escape state distribute over concatenation.
pub proof fn lemma_strip_concat(a: Seq<char>, b: Seq<char>, e: bool)
    ensures
        strip_ansi_from(a + b, e) == strip_ansi_from(a, e) + strip_ansi_from(b, escape_state_after(a, e)),
        escape_state_after(a + b, e) == escape_state_after(b, escape_state_after(a, e)),
    decreases a.len(),
{
    if a.len() == 0 {
        assert(a + b =~= b);
        assert(strip_ansi_from(a, e) =~= Seq::<char>::empty());
    } else {
        let c = a[0];
        let next = if c == '\x1b' {
            true
        } else if e {
            c != 'm'
        } else {
            false
        };
        assert((a + b)[0] == c);
        assert((a + b).drop_first() =~= a.drop_first() + b);
        lemma_strip_concat(a.drop_first(), b, next);
        if c != '\x1b' && !e {
            assert(seq![c] + strip_ansi_from(a.drop_first(), false) + strip_ansi_from(
                b,
                escape_state_after(a.drop_first(), false),
            ) =~= seq![c] + (strip_ansi_from(a.drop_first(), false) + strip_ansi_from(
                b,
                escape_state_after(a.drop_first(), false),
            )));
        }
    }
}

/// Text without escapes shows itself.
pub proof fn lemma_shows_plain(t: Seq<char>)
    requires
        no_escape(t),
    ensures
        shows(t, t),
    decreases t.len(),
{
    if t.len() > 0 {
        assert(t[0] != '\x1b') by {
            if t[0] == '\x1b' {
                assert(t.contains('\x1b'));
            }
        }
        assert(no_escape(t.drop_first())) by {
            if t.drop_first().contains('\x1b') {
                let i = choose|i: int| 0 <= i < t.drop_first().len() && t.drop_first()[i] == '\x1b';
                assert(t[i + 1] == '\x1b');
            }
        }
        lemma_shows_plain(t.drop_first());
        assert(seq![t[0]] + t.drop_first() =~= t);
        assert(strip_ansi_from(t, false) == seq![t[0]] + strip_ansi_from(t.drop_first(), false));
    } else {
        assert(strip_ansi_from(t, false) =~= t);
    }
}

/// An escape sequence shows nothing and closes itself.
pub proof fn lemma_shows_open(code: Seq<char>)
    requires
        code_ok(code),
    ensures
        shows(style_open(code), seq![]),
{
    let s = style_open(code);
    let esc = seq!['\x1b'];
    let body = seq!['['] + code;
    assert(s =~= esc + (body + seq!['m']));
    lemma_strip_concat(esc, body + seq!['m'], false);
    assert(esc.drop_first() =~= Seq::<char>::empty());
    assert(esc[0] == '\x1b');
    assert(escape_state_after(esc, false) == escape_state_after(esc.drop_first(), true));
    assert(escape_state_after(esc, false));
    assert(strip_ansi_from(esc, false) == strip_ansi_from(esc.drop_first(), true));
    assert(strip_ansi_from(esc, false) =~= Seq::<char>::empty());
    assert forall|i: int| 0 <= i < body.len() implies #[trigger] body[i] != 'm' by {
        if i > 0 {
            assert(body[i] == code[i - 1]);
        }
    }
    lemma_inside_escape(body, seq!['m']);
    assert(Seq::<char>::empty() + Seq::<char>::empty() =~= Seq::<char>::empty());
}

/// Inside a sequence, characters other than `m` and escapes are skipped,
/// and a final `m` closes it.
proof fn lemma_inside_escape(body: Seq<char>, close: Seq<char>)
    requires
        forall|i: int| 0 <= i < body.len() ==> #[trigger] body[i] != 'm',
        close == seq!['m'],
    ensures
        strip_ansi_from(body + close, true) == Seq::<char>::empty(),
        !escape_state_after(body + close, true),
    decreases body.len(),
{
    if body.len() == 0 {
        assert(body + close =~= close);
        assert(close.drop_first() =~= Seq::<char>::empty());
        assert(close[0] == 'm');
        assert(escape_state_after(close.drop_first(), false) == false);
        assert(strip_ansi_from(close.drop_first(), false) =~= Seq::<char>::empty());
    } else {
        assert((body + close)[0] == body[0]);
        assert(body[0] != 'm');
        assert((body + close).drop_first() =~= body.drop_first() + close);
        assert forall|i: int| 0 <= i < body.drop_first().len() implies #[trigger] body.drop_first()[i] != 'm' by {
            assert(body.drop_first()[i] == body[i + 1]);
        }
        lemma_inside_escape(body.drop_first(), close);
    }
}

/// The reset sequence shows nothing and closes itself.
pub proof fn lemma_shows_reset()
    ensures
        shows(style_reset(), seq![]),
{
    assert(style_reset() =~= style_open(seq!['0']));
    assert(code_ok(seq!['0']));
    lemma_shows_open(seq!['0']);
}

/// Two shown texts side by side show their concatenation.
pub proof fn lemma_shows_concat(a: Seq<char>, x: Seq<char>, b: Seq<char>, y: Seq<char>)
    requires
        shows(a, x),
        shows(b, y),
    ensures
        shows(a + b, x + y),
{
    lemma_strip_concat(a, b, false);
}

/// A painted text without escapes shows the text, whether colouring was on
/// or off.
pub proof fn lemma_shows_painted(out: Seq<char>, text: Seq<char>, code: Seq<char>)
    requires
        plain_or_styled(out, text, code),
        no_escape(text),
        code_ok(code),
    ensures
        shows(out, text),
{
    lemma_shows_plain(text);
    if out != text {
        lemma_shows_open(code);
        lemma_shows_reset();
        lemma_shows_concat(style_open(code), seq![], text, text);
        assert(Seq::<char>::empty() + text =~= text);
        lemma_shows_concat(style_open(code) + text, text, style_reset(), seq![]);
        assert(text + Seq::<char>::empty() =~= text);
    }
}

/// Red text (`Colorize::red`, rendered by `Display`).
#[verifier::external_body]
pub(crate) fn red_text(text: &str) -> (s: String)
    ensures
        plain_or_styled(s@, text@, seq!['3', '1']),
{
    text.red().to_string()
}

/// Green text (`Colorize::green`, rendered by `Display`).
#[verifier::external_body]
pub(crate) fn green_text(text: &str) -> (s: String)
    ensures
        plain_or_styled(s@, text@, seq!['3', '2']),
{
    text.green().to_string()
}

/// Yellow text (`Colorize::yellow`, rendered by `Display`).
#[verifier::external_body]
pub(crate) fn yellow_text(text: &str) -> (s: String)
    ensures
        plain_or_styled(s@, text@, seq!['3', '3']),
{
    text.yellow().to_string()
}

/// Cyan text (`Colorize::cyan`, rendered by `Display`).
#[verifier::external_body]
pub(crate) fn cyan_text(text: &str) -> (s: String)
    ensures
        plain_or_styled(s@, text@, seq!['3', '6']),
{
    text.cyan().to_string()
}

/// Dimmed text (`Colorize::dimmed`, rendered by `Display`).
#[verifier::external_body]
pub(crate) fn dimmed_text(text: &str) -> (s: String)
    ensures
        plain_or_styled(s@, text@, seq!['2']),
{
    text.dimmed().to_string()
}

/// Bold dimmed text (`Colorize::bold` then `Colorize::dimmed`, rendered by
/// `Display`).
#[verifier::external_body]
pub(crate) fn bold_dimmed_text(text: &str) -> (s: String)
    ensures
        plain_or_styled(s@, text@, seq!['1', ';', '2']),
{
    text.bold().dimmed().to_string()
}

/// The display width `unicode-width` gives a character: `None` for a
/// control character.
pub uninterp spec fn char_width(c: char) -> Option<usize>;

/// The columns a character takes on a terminal (`UnicodeWidthChar::width`):
/// printable ASCII takes one, ASCII and C1 control characters have no width,
/// and no character takes more columns than a byte counts.
#[verifier::external_body]
pub(crate) fn char_columns(c: char) -> (w: Option<usize>)
    ensures
        w == char_width(c),
        ' ' <= c <= '~' ==> w == Some(1usize),
        c < ' ' || ('\x7f' <= c && c < '\u{a0}') ==> w is None,
        w matches Some(n) ==> n <= 255,
{
    c.width()
}

/// The width of the terminal on standard output, in columns, when there is
/// one (`terminal_size::terminal_size`). It depends on where the process
/// runs, so nothing is said of it.
#[verifier::external_body]
pub(crate) fn terminal_columns() -> Option<u16> {
    terminal_size::terminal_size().map(|(terminal_size::Width(w), _)| w)
}

} // verus!
