//! What holds of editing a line: which keys the bytes of a terminal are, what each
//! key does to the line, and where the cursor is put.

use vstd::prelude::*;
use vstd::string::*;

use crate::editor;
use crate::editor::{EditorV, EventV, StepV};
use crate::history;
use crate::history::HistoryV;
use crate::keys;
use crate::keys::{Key, KeyRead};
use crate::numbers;
use crate::screen;
use crate::screen::TermCaps;
use crate::text;
use crate::token;

verus! {

// ---------------------------------------------------------------------------
// Keys
// ---------------------------------------------------------------------------

/// The control codes are keys of their own, whatever follows them; any other code below
/// 0x80, but for the escape, is the character that it is the code of.
pub proof fn law_codes_are_keys(b: u8, more: Seq<u8>, at_end: bool)
    requires
        b < 0x80,
        b != 0x1b,
    ensures
        keys::key_of(seq![b] + more, at_end) == KeyRead::Key(
            match b {
                3 => Key::CtrlC,
                4 => Key::CtrlD,
                9 => Key::Tab,
                10 => Key::Enter,
                12 => Key::CtrlL,
                13 => Key::Enter,
                127 => Key::Backspace,
                _ => Key::Char(b as char),
            },
        ),
{
    assert((seq![b] + more)[0] == b);
}

/// The sequences of the arrow keys, `Home` and `End`, whatever follows them.
pub proof fn law_sequences_are_keys(more: Seq<u8>, at_end: bool)
    ensures
        ({
            let read = |c: char| keys::key_of(seq![0x1bu8, 0x5bu8, c as u8] + more, at_end);
            &&& read('A') == KeyRead::Key(Key::Up)
            &&& read('B') == KeyRead::Key(Key::Down)
            &&& read('C') == KeyRead::Key(Key::Right)
            &&& read('D') == KeyRead::Key(Key::Left)
            &&& read('H') == KeyRead::Key(Key::Home)
            &&& read('F') == KeyRead::Key(Key::End)
        }),
{
    lemma_arrow('A', more, at_end);
    lemma_arrow('B', more, at_end);
    lemma_arrow('C', more, at_end);
    lemma_arrow('D', more, at_end);
    lemma_arrow('H', more, at_end);
    lemma_arrow('F', more, at_end);
}

proof fn lemma_arrow(c: char, more: Seq<u8>, at_end: bool)
    requires
        c == 'A' || c == 'B' || c == 'C' || c == 'D' || c == 'H' || c == 'F',
    ensures
        keys::key_of(seq![0x1bu8, 0x5bu8, c as u8] + more, at_end) == KeyRead::Key(
            match c {
                'A' => Key::Up,
                'B' => Key::Down,
                'C' => Key::Right,
                'D' => Key::Left,
                'H' => Key::Home,
                _ => Key::End,
            },
        ),
{
    let bytes = seq![0x1bu8, 0x5bu8, c as u8] + more;
    assert(bytes[0] == 0x1b && bytes[1] == 0x5b && bytes[2] == c as u8);
    assert('A' as u8 == 0x41 && 'B' as u8 == 0x42 && 'C' as u8 == 0x43 && 'D' as u8 == 0x44
        && 'H' as u8 == 0x48 && 'F' as u8 == 0x46);
}

/// The sequences that end in a `~`, with the number of a key, whatever follows them.
pub proof fn law_numbered_sequences_are_keys(d: u8, more: Seq<u8>, at_end: bool)
    requires
        0x30 <= d <= 0x39,
    ensures
        keys::key_of(seq![0x1bu8, 0x5bu8, d, 0x7eu8] + more, at_end) == KeyRead::Key(
            match d {
                0x31 => Key::Home,
                0x33 => Key::Delete,
                0x34 => Key::End,
                0x37 => Key::Home,
                0x38 => Key::End,
                _ => Key::Unknown,
            },
        ),
{
    let bytes = seq![0x1bu8, 0x5bu8, d, 0x7eu8] + more;
    assert(bytes[0] == 0x1b && bytes[1] == 0x5b && bytes[2] == d && bytes[3] == 0x7e);
    assert(keys::digits_end(bytes, 3) == 3);
    assert(keys::parameters_end(bytes, 3) == 3);
    let first = bytes.subrange(2, 3);
    assert(first =~= seq![d]);
    assert(seq![d][0] == d);
    assert(seq![0x33u8][0] == 0x33u8 && seq![0x31u8][0] == 0x31u8 && seq![0x37u8][0] == 0x37u8
        && seq![0x34u8][0] == 0x34u8 && seq![0x38u8][0] == 0x38u8);
}

/// A key that has begun waits for its other bytes, and only the end of the input
/// ends it.
pub proof fn law_keys_wait_for_their_bytes()
    ensures
        keys::key_of(Seq::empty(), false) == KeyRead::More,
        keys::key_of(Seq::empty(), true) == KeyRead::End,
        keys::key_of(seq![0x1bu8], false) == KeyRead::More,
        keys::key_of(seq![0x1bu8], true) == KeyRead::End,
        keys::key_of(seq![0x1bu8, 0x5bu8], false) == KeyRead::More,
        keys::key_of(seq![0x1bu8, 0x5bu8], true) == KeyRead::End,
{
}

// ---------------------------------------------------------------------------
// The line
// ---------------------------------------------------------------------------

/// The editor with this text before the cursor and this behind it.
pub open spec fn editing(e: EditorV, a: Seq<char>, b: Seq<char>) -> EditorV {
    EditorV { line: a + b, cursor: a.len() as int, ..e }
}

/// A character is put where the cursor stands, and the cursor behind it.
pub proof fn law_typing_inserts(e: EditorV, h: HistoryV, a: Seq<char>, b: Seq<char>, c: char)
    requires
        c != '"' && c != '\'' && c != '(' && c != '[' && c != '{',
        c != ')' && c != ']' && c != '}' || b.len() == 0 || b[0] != c,
    ensures
        editor::pressed(editing(e, a, b), h, Key::Char(c)) == (
            editing(e, a.push(c), b),
            StepV::Suggest,
        ),
{
    let l = a + b;
    let n = a.len() as int;
    assert(l.take(n) =~= a);
    assert(l.skip(n) =~= b);
    assert(a + seq![c] + Seq::<char>::empty() + b =~= a.push(c) + b);
    if b.len() > 0 {
        assert(l[n] == b[0]);
    }
}

/// An opening bracket gets its closing one behind the cursor, and a quote another.
pub proof fn law_typing_opens(e: EditorV, h: HistoryV, a: Seq<char>, b: Seq<char>)
    ensures
        ({
            let typed = |c: char| editor::pressed(editing(e, a, b), h, Key::Char(c));
            let opened = |c: char, d: char| (editing(e, a.push(c), seq![d] + b), StepV::Suggest);
            &&& typed('(') == opened('(', ')')
            &&& typed('[') == opened('[', ']')
            &&& typed('{') == opened('{', '}')
            &&& b.len() == 0 || b[0] != '"' ==> typed('"') == opened('"', '"')
            &&& b.len() == 0 || b[0] != '\'' ==> typed('\'') == opened('\'', '\'')
        }),
{
    lemma_opens(e, h, a, b, '(', ')');
    lemma_opens(e, h, a, b, '[', ']');
    lemma_opens(e, h, a, b, '{', '}');
    if b.len() == 0 || b[0] != '"' {
        lemma_opens(e, h, a, b, '"', '"');
    }
    if b.len() == 0 || b[0] != '\'' {
        lemma_opens(e, h, a, b, '\'', '\'');
    }
}

proof fn lemma_opens(e: EditorV, h: HistoryV, a: Seq<char>, b: Seq<char>, c: char, d: char)
    requires
        (c == '(' && d == ')') || (c == '[' && d == ']') || (c == '{' && d == '}') || ((c == '"' || c
            == '\'') && d == c && (b.len() == 0 || b[0] != c)),
    ensures
        editor::pressed(editing(e, a, b), h, Key::Char(c)) == (
            editing(e, a.push(c), seq![d] + b),
            StepV::Suggest,
        ),
{
    let l = a + b;
    let n = a.len() as int;
    assert(l.take(n) =~= a);
    assert(l.skip(n) =~= b);
    assert(a + seq![c] + seq![d] + b =~= a.push(c) + (seq![d] + b));
    if b.len() > 0 {
        assert(l[n] == b[0]);
    }
}

/// A closing bracket or a quote that stands behind the cursor already is gone past.
pub proof fn law_typing_closes(e: EditorV, h: HistoryV, a: Seq<char>, b: Seq<char>, c: char)
    requires
        c == ')' || c == ']' || c == '}' || c == '"' || c == '\'',
    ensures
        ({
            let (f, step) = editor::pressed(editing(e, a, seq![c] + b), h, Key::Char(c));
            &&& f.line == a + seq![c] + b
            &&& f.cursor == a.len() + 1
            &&& step == StepV::Continue
        }),
{
    let l = a + (seq![c] + b);
    assert(l[a.len() as int] == c);
    assert(l =~= a + seq![c] + b);
}

/// `Backspace` takes away the character before the cursor, and `Delete` the one
/// behind it. Where there is none, nothing happens.
pub proof fn law_taking_away(e: EditorV, h: HistoryV, a: Seq<char>, b: Seq<char>, c: char)
    ensures
        editor::pressed(editing(e, a.push(c), b), h, Key::Backspace) == (
            editing(e, a, b),
            StepV::Suggest,
        ),
        editor::pressed(editing(e, a, seq![c] + b), h, Key::Delete) == (
            editing(e, a, b),
            StepV::Suggest,
        ),
        editor::pressed(editing(e, Seq::empty(), b), h, Key::Backspace) == (
            editing(e, Seq::empty(), b),
            StepV::Continue,
        ),
        editor::pressed(editing(e, a, Seq::empty()), h, Key::Delete) == (
            editing(e, a, Seq::empty()),
            StepV::Continue,
        ),
{
    let l = a.push(c) + b;
    let n = a.len() as int;
    assert(l.take(n) + l.skip(n + 1) =~= a + b);
    let m = a + (seq![c] + b);
    assert(m.take(n) + m.skip(n + 1) =~= a + b);
}

/// The keys that move the cursor leave the line as it is, and put the cursor one
/// character to the left or right, before all, or behind all.
pub proof fn law_moving(e: EditorV, h: HistoryV, a: Seq<char>, b: Seq<char>)
    ensures
        ({
            let cursor = |k: Key| editor::pressed(editing(e, a, b), h, k).0.cursor;
            let line = |k: Key| editor::pressed(editing(e, a, b), h, k).0.line;
            &&& line(Key::Left) == a + b && line(Key::Home) == a + b && line(Key::End) == a + b
            &&& a.len() > 0 ==> cursor(Key::Left) == a.len() - 1
            &&& a.len() == 0 ==> cursor(Key::Left) == 0
            &&& b.len() > 0 ==> cursor(Key::Right) == a.len() + 1 && line(Key::Right) == a + b
            &&& cursor(Key::Home) == 0
            &&& cursor(Key::End) == a.len() + b.len()
        }),
{
}

/// What is suggested is taken over by `Tab`, whole, and by moving to the right from
/// the end, character by character. Nothing is taken over where nothing is suggested.
pub proof fn law_taking_over(e: EditorV, h: HistoryV, a: Seq<char>, b: Seq<char>, s: Seq<char>)
    requires
        s.len() > 0,
    ensures
        ({
            let some = EditorV { suggestion: Some(s), ..e };
            let none = EditorV { suggestion: None, ..e };
            &&& editor::pressed(editing(some, a, b), h, Key::Tab) == (
                editing(some, a + b + s, Seq::empty()),
                StepV::Suggest,
            )
            &&& editor::pressed(editing(some, a, Seq::empty()), h, Key::Right) == (
                editing(some, a.push(s[0]), Seq::empty()),
                StepV::Suggest,
            )
            &&& editor::pressed(editing(none, a, b), h, Key::Tab) == (
                editing(none, a, b),
                StepV::Continue,
            )
            &&& editor::pressed(editing(none, a, Seq::empty()), h, Key::Right) == (
                editing(none, a, Seq::empty()),
                StepV::Continue,
            )
        }),
{
    assert((a + b + s) + Seq::<char>::empty() =~= a + b + s);
    assert((a + Seq::<char>::empty()).push(s[0]) =~= a.push(s[0]) + Seq::<char>::empty());
}

/// The end of the input, and `Ctrl-D` on an empty line, end the session; `Ctrl-D` on
/// any other line does nothing. `Ctrl-C` gives the line up.
pub proof fn law_ending(e: EditorV, h: HistoryV)
    ensures
        editor::stepped(e, h, EventV::Input(None)).1 == StepV::Eof,
        e.line.len() == 0 ==> editor::stepped(e, h, EventV::Input(Some(Key::CtrlD))).1
            == StepV::Eof,
        e.line.len() > 0 ==> editor::stepped(e, h, EventV::Input(Some(Key::CtrlD))) == (
            e,
            StepV::Continue,
        ),
        editor::stepped(e, h, EventV::Input(Some(Key::CtrlC))).1 == StepV::CtrlC,
        editor::stepped(e, h, EventV::Input(Some(Key::Unknown))) == (e, StepV::Continue),
{
}

/// Once the user has asked to stop there is an empty line behind the prompt.
pub proof fn law_stopping_starts_again(e: EditorV, h: HistoryV)
    ensures
        ({
            let (f, step) = editor::stepped(e, h, EventV::Interrupt);
            &&& f.line == Seq::<char>::empty()
            &&& f.cursor == 0
            &&& f.suggestion is None
            &&& !f.continued
            &&& f.out == e.out + e.caps.clear_screen@ + e.prompt
            &&& step == StepV::Continue
        }),
{
}

/// A line that is complete is handed over as it is. One that ends in a backslash goes on
/// without it, and one in whose quotes it ends goes on behind a line feed; `> ` is shown
/// before what follows.
pub proof fn law_entering(e: EditorV, h: HistoryV, a: Seq<char>)
    ensures
        ({
            let entered = |l: Seq<char>|
                editor::pressed(EditorV { line: l, cursor: l.len() as int, ..e }, h, Key::Enter);
            &&& token::line_complete(a) ==> entered(a).1 == StepV::Line(a) && entered(a).0.out
                == e.out + e.caps.erase_to_end@ + "\r\n"@
            &&& (a.len() == 0 || a.last() != '\\') ==> {
                let (f, step) = entered(a.push('\\'));
                &&& step == StepV::Continue
                &&& f.line == a
                &&& f.cursor == a.len()
                &&& f.last_line == "> "@
                &&& f.continued
            }
            &&& !token::line_complete(a) && (a.len() == 0 || a.last() != '\\') ==> {
                let (f, step) = entered(a);
                &&& step == StepV::Continue
                &&& f.line == a.push('\n')
                &&& f.cursor == a.len() + 1
                &&& f.last_line == "> "@
                &&& f.continued
            }
        }),
{
    assert(a.skip(a.len() as int) =~= Seq::empty());
    assert(e.out + Seq::<char>::empty() =~= e.out);
    let l = a.push('\\');
    assert(l.drop_last() =~= a);
    assert(l.last() == '\\');
    if a.len() == 0 || a.last() != '\\' {
        assert(token::trailing(a, '\\') == 0);
        assert(token::trailing(l, '\\') == 1);
        assert(token::goes_on(l));
    }
}

/// A new width, and a new suggestion, change neither the line nor the cursor.
pub proof fn law_drawing_keeps_the_line(e: EditorV, h: HistoryV, w: nat, s: Option<Seq<char>>)
    ensures
        editor::stepped(e, h, EventV::Resize(w)).0.line == e.line,
        editor::stepped(e, h, EventV::Resize(w)).0.cursor == e.cursor,
        editor::stepped(e, h, EventV::Resize(w)).0.width == w,
        editor::stepped(e, h, EventV::Suggestion(s)).0.line == e.line,
        editor::stepped(e, h, EventV::Suggestion(s)).0.cursor == e.cursor,
        editor::stepped(e, h, EventV::Suggestion(s)).0.suggestion == s,
{
}

/// Clearing the screen shows the prompt again, on the first rows, and keeps the line.
pub proof fn law_clearing(e: EditorV, h: HistoryV)
    ensures
        ({
            let (f, step) = editor::pressed(e, h, Key::CtrlL);
            &&& f.line == e.line
            &&& f.cursor == e.cursor
            &&& step == StepV::Continue
            &&& f.out.take((e.out + e.caps.clear_screen@ + (if e.continued {
                e.last_line
            } else {
                e.prompt
            })).len() as int) == e.out + e.caps.clear_screen@ + (if e.continued {
                e.last_line
            } else {
                e.prompt
            })
            &&& e.continued ==> f.origin == Some(0usize)
        }),
{
    let shown = e.out + e.caps.clear_screen@ + (if e.continued {
        e.last_line
    } else {
        e.prompt
    });
    let f = editor::pressed(e, h, Key::CtrlL).0;
    assert(f.out.take(shown.len() as int) =~= shown);
}

/// The terminal counts its rows from one; the row it answers with is kept counted from
/// zero.
pub proof fn law_answer_gives_row(e: EditorV, h: HistoryV, row: usize)
    requires
        row > 0,
    ensures
        editor::pressed(e, h, Key::CursorReport(row)) == (
            EditorV { origin: Some((row - 1) as usize), ..e },
            StepV::Continue,
        ),
{
}

// ---------------------------------------------------------------------------
// The screen
// ---------------------------------------------------------------------------

/// Whether a text has no escape character.
pub open spec fn bare(s: Seq<char>) -> bool {
    forall|k: int| 0 <= k < s.len() ==> #[trigger] s[k] != '\x1b'
}

proof fn lemma_bare(a: Seq<char>, b: Seq<char>, k: int)
    requires
        bare(a),
        0 <= k <= a.len(),
    ensures
        screen::visible_from(a + b, k) == (a.len() - k) + screen::visible_from(a + b, a.len() as int),
    decreases a.len() - k,
{
    if k < a.len() {
        assert((a + b)[k] == a[k]);
        lemma_bare(a, b, k + 1);
    }
}

proof fn lemma_visible_skip(s: Seq<char>, t: Seq<char>, i: int, j: int)
    requires
        0 <= i <= s.len(),
        0 <= j <= t.len(),
        s.skip(i) == t.skip(j),
    ensures
        screen::visible_from(s, i) == screen::visible_from(t, j),
    decreases s.len() - i,
{
    assert(s.skip(i).len() == s.len() - i);
    assert(t.skip(j).len() == t.len() - j);
    if i < s.len() {
        assert(s.skip(i)[0] == s[i]);
        assert(t.skip(j)[0] == t[j]);
        assert(s.skip(i + 1) =~= s.skip(i).skip(1));
        assert(t.skip(j + 1) =~= t.skip(j).skip(1));
        if s[i] == '\x1b' {
            lemma_escape_skip(s, t, i + 1, j + 1);
            let p = screen::after_escape(s, i + 1);
            let q = screen::after_escape(t, j + 1);
            assert(s.skip(p) =~= s.skip(i + 1).skip(p - i - 1));
            assert(t.skip(q) =~= t.skip(j + 1).skip(q - j - 1));
            lemma_visible_skip(s, t, p, q);
        } else {
            lemma_visible_skip(s, t, i + 1, j + 1);
        }
    }
}

proof fn lemma_escape_skip(s: Seq<char>, t: Seq<char>, i: int, j: int)
    requires
        0 <= i <= s.len(),
        0 <= j <= t.len(),
        s.skip(i) == t.skip(j),
    ensures
        screen::after_escape(s, i) - i == screen::after_escape(t, j) - j,
        i <= screen::after_escape(s, i) <= s.len(),
{
    assert(s.skip(i).len() == s.len() - i);
    assert(t.skip(j).len() == t.len() - j);
    if i < s.len() {
        assert(s.skip(i)[0] == s[i]);
        assert(t.skip(j)[0] == t[j]);
        assert(s.skip(i + 1) =~= s.skip(i).skip(1));
        assert(t.skip(j + 1) =~= t.skip(j).skip(1));
        lemma_terminator_skip(s, t, i + 1, j + 1, true);
        lemma_terminator_skip(s, t, i + 1, j + 1, false);
    }
}

proof fn lemma_terminator_skip(s: Seq<char>, t: Seq<char>, i: int, j: int, csi: bool)
    requires
        0 <= i <= s.len(),
        0 <= j <= t.len(),
        s.skip(i) == t.skip(j),
    ensures
        screen::after_terminator(s, i, csi) - i == screen::after_terminator(t, j, csi) - j,
        i <= screen::after_terminator(s, i, csi) <= s.len(),
    decreases s.len() - i,
{
    assert(s.skip(i).len() == s.len() - i);
    assert(t.skip(j).len() == t.len() - j);
    if i < s.len() {
        assert(s.skip(i)[0] == s[i]);
        assert(t.skip(j)[0] == t[j]);
        assert(s.skip(i + 1) =~= s.skip(i).skip(1));
        assert(t.skip(j + 1) =~= t.skip(j).skip(1));
        lemma_terminator_skip(s, t, i + 1, j + 1, csi);
    }
}

proof fn lemma_csi(s: Seq<char>, i: int, n: int)
    requires
        0 <= i <= n < s.len(),
        forall|k: int| i <= k < n ==> !('@' <= #[trigger] s[k] <= '~'),
        '@' <= s[n] <= '~',
    ensures
        screen::after_terminator(s, i, true) == n + 1,
    decreases n - i,
{
    if i < n {
        lemma_csi(s, i + 1, n);
    }
}

/// Text takes a cell for each character, and a control sequence, such as one that sets
/// a color, takes none.
pub proof fn law_control_sequences_take_no_cells(
    a: Seq<char>,
    parameters: Seq<char>,
    last: char,
    b: Seq<char>,
)
    requires
        bare(a),
        forall|k: int|
            0 <= k < parameters.len() ==> !('@' <= #[trigger] parameters[k] <= '~'),
        '@' <= last <= '~',
    ensures
        screen::visible_from(a, 0) == a.len(),
        screen::visible_from(a + seq!['\x1b', '['] + parameters + seq![last] + b, 0) == a.len()
            + screen::visible_from(b, 0),
{
    lemma_bare(a, Seq::empty(), 0);
    assert(a + Seq::<char>::empty() =~= a);
    let rest = seq!['\x1b', '['] + parameters + seq![last] + b;
    let s = a + seq!['\x1b', '['] + parameters + seq![last] + b;
    assert(s =~= a + rest);
    lemma_bare(a, rest, 0);
    let n = a.len() as int;
    assert(s[n] == '\x1b' && s[n + 1] == '[');
    assert forall|k: int| n + 2 <= k < n + 2 + parameters.len() implies !('@' <= #[trigger] s[k]
        <= '~') by {
        assert(s[k] == parameters[k - n - 2]);
    }
    let m = n + 2 + parameters.len();
    assert(s[m] == last);
    lemma_csi(s, n + 2, m);
    assert(s.skip(m + 1) =~= b.skip(0));
    lemma_visible_skip(s, b, m + 1, 0);
}

/// Only what stands behind the last line feed of a prompt is on the row of the line.
pub proof fn law_last_line(a: Seq<char>, b: Seq<char>)
    requires
        !b.contains('\n'),
        b.len() > 0,
    ensures
        screen::last_line_of(b) == b,
        screen::last_line_of(a.push('\n') + b) == b,
{
    text::lemma_lines_append(a.push('\n'), b);
    assert(text::lines_of(b) =~= seq![b]);
    assert(text::lines_of(a.push('\n') + b).last() == b);
}

/// The rows above the cursor are counted by the cells before it, and a full row by
/// itself is one row.
pub proof fn law_rows_are_filled(r: nat, c: nat, width: nat)
    requires
        0 < c <= width,
    ensures
        screen::row_of(r * width + c, width) == r,
        screen::column_of(r * width + c, width) == c,
        screen::row_of(0, width) == 0,
        screen::column_of(0, width) == 0,
        screen::row_of(c, 0) == 0,
        screen::column_of(c, 0) == 0,
{
    let w: nat = r * width + c;
    let d: int = w - 1;
    assert(r * width >= 0) by (nonlinear_arith);
    assert(d == r * width + (c - 1));
    vstd::arithmetic::div_mod::lemma_fundamental_div_mod_converse(
        d,
        width as int,
        r as int,
        c as int - 1,
    );
    assert(d == width * r + (c - 1)) by (nonlinear_arith)
        requires
            d == r * width + (c - 1),
    ;
}

/// What moves the cursor: to a place on the screen, counted from one, or up by rows and
/// to the right by cells from the start of the row.
pub proof fn law_moves_of_the_cursor(row: nat, col: nat, up: nat)
    requires
        row < usize::MAX,
        col < usize::MAX,
        up > 0,
    ensures
        screen::placed(row, col) == "\x1b["@ + numbers::digits(row + 1) + seq![';']
            + numbers::digits(col + 1) + seq!['H'],
        col > 0 ==> screen::moved(row + up, row, col) == "\x1b["@ + numbers::digits(up) + seq!['A']
            + "\r\x1b["@ + numbers::digits(col) + seq!['C'],
        screen::moved(row + up, row, 0) == "\x1b["@ + numbers::digits(up) + seq!['A'] + seq!['\r'],
        screen::moved(row, row, 0) == seq!['\r'],
{
    reveal_strlit(";");
    assert(";"@ =~= seq![';']);
    assert(screen::moved(row, row, 0) =~= seq!['\r']);
    assert(row + up - row == up);
    if col > 0 {
        assert(screen::moved(row + up, row, col) =~= "\x1b["@ + numbers::digits(up) + seq!['A']
            + "\r\x1b["@ + numbers::digits(col) + seq!['C']);
    }
    assert(screen::moved(row + up, row, 0) =~= "\x1b["@ + numbers::digits(up) + seq!['A'] + seq![
        '\r',
    ]);
}

/// The line is drawn behind the last line of the prompt once what was there is erased;
/// what is suggested is dim, and shown only where the cursor is at the end.
pub proof fn law_what_is_drawn(caps: TermCaps, last_line: Seq<char>, line: Seq<char>, s: Seq<char>)
    ensures
        screen::drawn(caps, last_line, line, None) == caps.erase_to_end@ + last_line + line,
        screen::drawn(caps, last_line, line, Some(s)) == caps.erase_to_end@ + last_line + line
            + caps.dim@ + s + caps.reset@,
        screen::shown(true, Some(s)) == Some(s),
        screen::shown(false, Some(s)) is None,
{
    assert(screen::drawn(caps, last_line, line, None) =~= caps.erase_to_end@ + last_line + line);
    assert(screen::drawn(caps, last_line, line, Some(s)) =~= caps.erase_to_end@ + last_line + line
        + caps.dim@ + s + caps.reset@);
}

/// Editing starts with the prompt, and asks where the cursor is.
pub proof fn law_starting(prompt: Seq<char>, caps: TermCaps, width: nat)
    ensures
        ({
            let e = editor::started(prompt, caps, width);
            &&& e.line == Seq::<char>::empty()
            &&& e.cursor == 0
            &&& e.suggestion is None
            &&& e.out == seq!['\r'] + prompt + "\x1b[6n"@
            &&& e.width == width
            &&& e.rows == 1
            &&& e.origin is None
            &&& !e.continued
        }),
{
    reveal_strlit("\r");
    assert("\r"@ =~= seq!['\r']);
}

/// Only the keys that go up and down move in the history.
pub proof fn law_keys_that_move_in_the_history(h: HistoryV, line: Seq<char>, event: EventV)
    ensures
        editor::history_after(h, line, EventV::Input(Some(Key::Up))) == history::after_up(h, line),
        editor::history_after(h, line, EventV::Input(Some(Key::Down))) == history::after_down(h),
        event != EventV::Input(Some(Key::Up)) && event != EventV::Input(Some(Key::Down))
            ==> editor::history_after(h, line, event) == h,
{
}

/// What the history gives takes the place of the line, with the cursor at its end.
pub proof fn law_history_takes_the_place_of_the_line(e: EditorV, h: HistoryV, l: Seq<char>)
    ensures
        history::shown_up(h) == Some(l) ==> editor::pressed(e, h, Key::Up) == (
            EditorV { line: l, cursor: l.len() as int, ..e },
            StepV::Suggest,
        ),
        history::shown_down(h) == Some(l) ==> editor::pressed(e, h, Key::Down) == (
            EditorV { line: l, cursor: l.len() as int, ..e },
            StepV::Suggest,
        ),
        history::shown_up(h) is None ==> editor::pressed(e, h, Key::Up) == (e, StepV::Continue),
        history::shown_down(h) is None ==> editor::pressed(e, h, Key::Down) == (e, StepV::Continue),
{
}

/// What the terminal's description gives is used where it is not empty.
pub proof fn law_description_is_used(s: Seq<char>, usual: Seq<char>)
    ensures
        s.len() > 0 ==> screen::described(Some(s), usual) == s,
        screen::described(Some(Seq::empty()), usual) == usual,
        screen::described(None, usual) == usual,
{
}

/// Drawing goes back to where the last line of the prompt starts, draws, and puts the
/// cursor behind the cells that stand before it. A place that is not known is reached
/// from where the cursor is.
pub proof fn law_drawing(e: EditorV, row: usize)
    requires
        row < usize::MAX,
        e.suggestion is None,
    ensures
        ({
            let f = editor::redrawn(EditorV { origin: Some(row), ..e });
            let before = screen::cells_before(e.prompt_width, e.line, e.cursor);
            f.out == e.out + "\x1b["@ + numbers::digits(row as nat + 1) + ";1H"@
                + e.caps.erase_to_end@ + e.last_line + e.line + screen::placed(
                screen::sum(row as nat, screen::row_of(before, e.width)),
                screen::column_of(before, e.width),
            )
        }),
        e.rows >= 1 ==> ({
            let f = editor::redrawn(EditorV { origin: None, ..e });
            let before = screen::cells_before(e.prompt_width, e.line, e.cursor);
            let all = screen::cells_shown(e.prompt_width, e.line, None);
            f.out == e.out + screen::up_by((e.rows - 1) as nat) + seq!['\r'] + e.caps.erase_to_end@
                + e.last_line + e.line + screen::moved(
                screen::row_of(all, e.width),
                screen::row_of(before, e.width),
                screen::column_of(before, e.width),
            ) && f.rows == screen::sum(screen::row_of(all, e.width), 1)
        }),
        e.prompt_width + screen::display_width(e.line) <= usize::MAX ==> screen::cells_shown(
            e.prompt_width,
            e.line,
            None,
        ) == e.prompt_width + screen::display_width(e.line),
        e.prompt_width + screen::display_width(e.line.take(e.cursor)) <= usize::MAX
            ==> screen::cells_before(e.prompt_width, e.line, e.cursor) == e.prompt_width
            + screen::display_width(e.line.take(e.cursor)),
{
    let f = editor::redrawn(EditorV { origin: Some(row), ..e });
    let before = screen::cells_before(e.prompt_width, e.line, e.cursor);
    assert(f.out =~= e.out + "\x1b["@ + numbers::digits(row as nat + 1) + ";1H"@
        + e.caps.erase_to_end@ + e.last_line + e.line + screen::placed(
        screen::sum(row as nat, screen::row_of(before, e.width)),
        screen::column_of(before, e.width),
    ));
    if e.rows >= 1 {
        let g = editor::redrawn(EditorV { origin: None, ..e });
        let all = screen::cells_shown(e.prompt_width, e.line, None);
        assert(g.out =~= e.out + screen::up_by((e.rows - 1) as nat) + seq!['\r']
            + e.caps.erase_to_end@ + e.last_line + e.line + screen::moved(
            screen::row_of(all, e.width),
            screen::row_of(before, e.width),
            screen::column_of(before, e.width),
        ));
    }
}

} // verus!
