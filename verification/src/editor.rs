//! The line that is being edited, and what each key does to it.

use vstd::prelude::*;
use vstd::string::*;

use crate::history;
use crate::history::{History, HistoryV};
use crate::keys::Key;
use crate::screen;
use crate::screen::{prompt_last_line_width, refresh_line, Out, TermCaps};
use crate::shell;
use crate::text;
use crate::text::{byte_offset, from_chars, from_range, lines, owned, to_chars};
use crate::token;
use crate::token::{ends_in_unescaped_backslash, is_line_complete};

verus! {

pub enum ReadLineResult {
    Line(String),
    Eof,
    CtrlC,
}

/// What comes up while a line is being edited.
pub enum Event {
    /// The user asked to stop.
    Interrupt,
    /// The terminal has this width now.
    Resize(usize),
    /// A key, or the end of the input.
    Input(Option<Key>),
    /// What could come behind the line, as `Step::Suggest` asked for.
    Suggestion(Option<String>),
}

/// What is to be done next. The output is to be written first.
pub enum Step {
    /// Wait for what comes up.
    Continue,
    /// Find what could come behind the line.
    Suggest,
    /// Editing is over.
    Done(ReadLineResult),
}

pub enum EventV {
    Interrupt,
    Resize(nat),
    Input(Option<Key>),
    Suggestion(Option<Seq<char>>),
}

pub enum StepV {
    Continue,
    Suggest,
    Line(Seq<char>),
    Eof,
    CtrlC,
}

impl View for Event {
    type V = EventV;

    open spec fn view(&self) -> EventV {
        match *self {
            Event::Interrupt => EventV::Interrupt,
            Event::Resize(w) => EventV::Resize(w as nat),
            Event::Input(k) => EventV::Input(k),
            Event::Suggestion(s) => EventV::Suggestion(shell::opt(s)),
        }
    }
}

impl View for Step {
    type V = StepV;

    open spec fn view(&self) -> StepV {
        match *self {
            Step::Continue => StepV::Continue,
            Step::Suggest => StepV::Suggest,
            Step::Done(ReadLineResult::Line(l)) => StepV::Line(l@),
            Step::Done(ReadLineResult::Eof) => StepV::Eof,
            Step::Done(ReadLineResult::CtrlC) => StepV::CtrlC,
        }
    }
}

/// A line that is being edited.
pub struct LineEditor {
    pub prompt: String,
    pub caps: TermCaps,
    /// The last line of the prompt that is shown.
    pub last_prompt_line: String,
    pub prompt_width: usize,
    pub term_width: usize,
    /// What is to be written to the terminal.
    pub out: Out,
    /// The row in which the last line of the prompt stands, if it is known.
    pub origin_row: Option<usize>,
    pub line: Vec<char>,
    /// How many characters stand before the cursor.
    pub cursor: usize,
    /// How many rows the line takes on the terminal.
    pub prev_lines: usize,
    pub suggestion: Option<String>,
    /// Whether the line goes on one that was entered before.
    pub in_continuation: bool,
}

#[verifier::ext_equal]
pub struct EditorV {
    pub prompt: Seq<char>,
    pub caps: TermCaps,
    pub last_line: Seq<char>,
    pub prompt_width: nat,
    pub width: nat,
    pub out: Seq<char>,
    pub origin: Option<usize>,
    pub line: Seq<char>,
    pub cursor: int,
    pub rows: nat,
    pub suggestion: Option<Seq<char>>,
    pub continued: bool,
}

impl View for LineEditor {
    type V = EditorV;

    open spec fn view(&self) -> EditorV {
        EditorV {
            prompt: self.prompt@,
            caps: self.caps,
            last_line: self.last_prompt_line@,
            prompt_width: self.prompt_width as nat,
            width: self.term_width as nat,
            out: self.out@,
            origin: self.origin_row,
            line: self.line@,
            cursor: self.cursor as int,
            rows: self.prev_lines as nat,
            suggestion: shell::opt(self.suggestion),
            continued: self.in_continuation,
        }
    }
}

/// Whether the cursor is in the line or at its end, and the line takes a row.
pub open spec fn editor_wf(e: EditorV) -> bool {
    0 <= e.cursor <= e.line.len() && e.rows >= 1
}

/// How many rows of a prompt stand above its last line.
pub open spec fn rows_above(prompt: Seq<char>) -> nat {
    let n = text::lines_of(prompt).len();
    if n > 1 {
        (n - 1) as nat
    } else {
        0
    }
}

/// What asks the terminal for the place of the cursor.
pub open spec fn question() -> Seq<char> {
    "\x1b[6n"@
}

/// The editor before the first key.
pub open spec fn started(prompt: Seq<char>, caps: TermCaps, width: nat) -> EditorV {
    EditorV {
        prompt,
        caps,
        last_line: screen::last_line_of(prompt),
        prompt_width: screen::visible_from(screen::last_line_of(prompt), 0),
        width,
        out: "\r"@ + prompt + question(),
        origin: None,
        line: Seq::empty(),
        cursor: 0,
        rows: 1,
        suggestion: None,
        continued: false,
    }
}

/// The editor once the line has been drawn again.
pub open spec fn redrawn(e: EditorV) -> EditorV {
    let sug = screen::shown(e.cursor == e.line.len(), e.suggestion);
    EditorV {
        out: e.out + screen::rewound(e.origin, e.rows) + screen::drawn(
            e.caps,
            e.last_line,
            e.line,
            sug,
        ) + screen::settled(
            e.origin,
            screen::cells_shown(e.prompt_width, e.line, sug),
            screen::cells_before(e.prompt_width, e.line, e.cursor),
            e.width,
        ),
        rows: screen::rows_shown(e.prompt_width, e.line, sug, e.width),
        ..e
    }
}

/// An empty line below the prompt, on a clear screen.
pub open spec fn interrupted(e: EditorV) -> EditorV {
    EditorV {
        line: Seq::empty(),
        cursor: 0,
        rows: 1,
        suggestion: None,
        last_line: screen::last_line_of(e.prompt),
        prompt_width: screen::visible_from(screen::last_line_of(e.prompt), 0),
        continued: false,
        out: e.out + e.caps.clear_screen@ + e.prompt,
        origin: Some(rows_above(e.prompt) as usize),
        ..e
    }
}

/// The next line of a command that is not complete.
pub open spec fn continued(e: EditorV) -> EditorV {
    let line = if token::goes_on(e.line) {
        e.line.drop_last()
    } else {
        e.line.push('\n')
    };
    EditorV {
        line,
        cursor: line.len() as int,
        suggestion: None,
        out: e.out + e.line.skip(e.cursor) + e.caps.erase_to_end@ + "\r\n"@ + "> "@ + question(),
        last_line: "> "@,
        prompt_width: screen::visible_from("> "@, 0),
        origin: None,
        rows: 1,
        continued: true,
        ..e
    }
}

/// What the enter key does.
pub open spec fn pressed_enter(e: EditorV) -> (EditorV, StepV) {
    if token::line_complete(e.line) {
        (
            EditorV {
                out: e.out + e.line.skip(e.cursor) + e.caps.erase_to_end@ + "\r\n"@,
                ..e
            },
            StepV::Line(e.line),
        )
    } else {
        (continued(e), StepV::Continue)
    }
}

/// Whether typing `c` where it stands already goes past it.
pub open spec fn closes(c: char) -> bool {
    c == '"' || c == '\'' || c == ')' || c == ']' || c == '}'
}

/// What is put behind `c` when it is typed.
pub open spec fn closing(c: char) -> Seq<char> {
    if c == '{' {
        seq!['}']
    } else if c == '(' {
        seq![')']
    } else if c == '[' {
        seq![']']
    } else if c == '"' || c == '\'' {
        seq![c]
    } else {
        Seq::empty()
    }
}

/// The editor with another line, and the cursor at its end.
pub open spec fn with_line(e: EditorV, line: Seq<char>) -> EditorV {
    EditorV { line, cursor: line.len() as int, ..e }
}

/// The editor with the cursor in another place.
pub open spec fn with_cursor(e: EditorV, cursor: int) -> EditorV {
    EditorV { cursor, ..e }
}

/// What a key does to the editor, and what is to be done next.
pub open spec fn pressed(e: EditorV, h: HistoryV, key: Key) -> (EditorV, StepV) {
    match key {
        Key::Enter => pressed_enter(e),
        Key::Char(c) => if closes(c) && e.cursor < e.line.len() && e.line[e.cursor] == c {
            (redrawn(with_cursor(e, e.cursor + 1)), StepV::Continue)
        } else {
            (
                EditorV {
                    line: e.line.take(e.cursor) + seq![c] + closing(c) + e.line.skip(e.cursor),
                    cursor: e.cursor + 1,
                    ..e
                },
                StepV::Suggest,
            )
        },
        Key::Backspace => if e.cursor > 0 {
            (
                EditorV {
                    line: e.line.take(e.cursor - 1) + e.line.skip(e.cursor),
                    cursor: e.cursor - 1,
                    ..e
                },
                StepV::Suggest,
            )
        } else {
            (e, StepV::Continue)
        },
        Key::Delete => if e.cursor < e.line.len() {
            (
                EditorV { line: e.line.take(e.cursor) + e.line.skip(e.cursor + 1), ..e },
                StepV::Suggest,
            )
        } else {
            (e, StepV::Continue)
        },
        Key::Left => if e.cursor > 0 {
            (redrawn(with_cursor(e, e.cursor - 1)), StepV::Continue)
        } else {
            (e, StepV::Continue)
        },
        Key::Right => if e.cursor < e.line.len() {
            (redrawn(with_cursor(e, e.cursor + 1)), StepV::Continue)
        } else {
            match e.suggestion {
                Some(s) => if s.len() > 0 {
                    (with_line(e, e.line.push(s[0])), StepV::Suggest)
                } else {
                    (e, StepV::Continue)
                },
                None => (e, StepV::Continue),
            }
        },
        Key::Home => (redrawn(with_cursor(e, 0)), StepV::Continue),
        Key::End => (redrawn(with_cursor(e, e.line.len() as int)), StepV::Continue),
        Key::Up => match history::shown_up(h) {
            Some(l) => (with_line(e, l), StepV::Suggest),
            None => (e, StepV::Continue),
        },
        Key::Down => match history::shown_down(h) {
            Some(l) => (with_line(e, l), StepV::Suggest),
            None => (e, StepV::Continue),
        },
        Key::CtrlC => (
            EditorV { out: e.out + "\r\x1b[J"@ + e.last_line, ..e },
            StepV::CtrlC,
        ),
        Key::CtrlD => if e.line.len() == 0 {
            (e, StepV::Eof)
        } else {
            (e, StepV::Continue)
        },
        Key::CtrlL => if e.continued {
            (
                redrawn(
                    EditorV {
                        out: e.out + e.caps.clear_screen@ + e.last_line,
                        origin: Some(0),
                        ..e
                    },
                ),
                StepV::Continue,
            )
        } else {
            (
                redrawn(
                    EditorV {
                        out: e.out + e.caps.clear_screen@ + e.prompt,
                        origin: Some(rows_above(e.prompt) as usize),
                        ..e
                    },
                ),
                StepV::Continue,
            )
        },
        Key::Tab => match e.suggestion {
            Some(s) => if s.len() > 0 {
                (with_line(e, e.line + s), StepV::Suggest)
            } else {
                (e, StepV::Continue)
            },
            None => (e, StepV::Continue),
        },
        Key::CursorReport(row) => (
            EditorV {
                origin: Some(
                    if row > 0 {
                        (row - 1) as usize
                    } else {
                        0
                    },
                ),
                ..e
            },
            StepV::Continue,
        ),
        Key::Unknown => (e, StepV::Continue),
    }
}

/// What comes up does this to the editor, and this is to be done next.
pub open spec fn stepped(e: EditorV, h: HistoryV, event: EventV) -> (EditorV, StepV) {
    match event {
        EventV::Interrupt => (interrupted(e), StepV::Continue),
        EventV::Resize(w) => (redrawn(EditorV { width: w, ..e }), StepV::Continue),
        EventV::Input(None) => (e, StepV::Eof),
        EventV::Input(Some(key)) => pressed(e, h, key),
        EventV::Suggestion(s) => (redrawn(EditorV { suggestion: s, ..e }), StepV::Continue),
    }
}

/// The history after what comes up: the arrow keys move in it.
pub open spec fn history_after(h: HistoryV, line: Seq<char>, event: EventV) -> HistoryV {
    match event {
        EventV::Input(Some(Key::Up)) => history::after_up(h, line),
        EventV::Input(Some(Key::Down)) => history::after_down(h),
        _ => h,
    }
}

fn prompt_rows_above(prompt: &str) -> (r: usize)
    ensures
        r == rows_above(prompt@),
        rows_above(prompt@) <= usize::MAX,
{
    let ls = lines(prompt);
    assert(text::texts(ls@).len() == ls.len());
    if ls.len() > 1 {
        ls.len() - 1
    } else {
        0
    }
}

fn last_of(prompt: &str) -> (r: String)
    ensures
        r@ == screen::last_line_of(prompt@),
{
    let ls = lines(prompt);
    assert(text::texts(ls@).len() == ls.len());
    if ls.len() > 0 {
        ls[ls.len() - 1].clone()
    } else {
        owned(prompt)
    }
}

impl LineEditor {
    /// Starts with an empty line behind the prompt.
    pub fn new(prompt: &str, caps: TermCaps, term_width: usize) -> (r: LineEditor)
        ensures
            r@ == started(prompt@, caps, term_width as nat),
            editor_wf(r@),
    {
        let mut out = Out::new();
        out.s("\r");
        out.s(prompt);
        out.s("\x1b[6n");
        assert(out@ =~= "\r"@ + prompt@ + question());
        LineEditor {
            prompt: owned(prompt),
            caps,
            last_prompt_line: last_of(prompt),
            prompt_width: prompt_last_line_width(prompt),
            term_width,
            out,
            origin_row: None,
            line: Vec::new(),
            cursor: 0,
            prev_lines: 1,
            suggestion: None,
            in_continuation: false,
        }
    }

    /// The line so far.
    pub fn text(&self) -> (r: String)
        ensures
            r@ == self@.line,
    {
        from_chars(&self.line)
    }

    /// Draws the line again.
    fn redraw(&mut self)
        requires
            editor_wf(old(self)@),
        ensures
            final(self)@ == redrawn(old(self)@),
            editor_wf(final(self)@),
    {
        let ghost e = self@;
        let line = from_chars(&self.line);
        let at = byte_offset(line.as_str(), self.cursor);
        proof {
            text::lemma_index_at(line@, self.cursor as int);
        }
        let sug: Option<&str> = match &self.suggestion {
            Some(s) => Some(s.as_str()),
            None => None,
        };
        self.prev_lines = refresh_line(
            &mut self.out,
            &self.caps,
            self.origin_row,
            self.prompt_width,
            self.last_prompt_line.as_str(),
            line.as_str(),
            at,
            self.prev_lines,
            self.term_width,
            sug,
        );
        assert(self@ =~= redrawn(e));
    }

    /// The characters from place `from` on.
    fn tail(&self, from: usize) -> (r: String)
        requires
            from <= self.line.len(),
        ensures
            r@ == self@.line.skip(from as int),
    {
        assert(self.line@.subrange(from as int, self.line.len() as int) =~= self.line@.skip(
            from as int,
        ));
        from_range(&self.line, from, self.line.len())
    }

    fn interrupt(&mut self)
        ensures
            final(self)@ == interrupted(old(self)@),
            editor_wf(final(self)@),
    {
        let ghost e = self@;
        self.line = Vec::new();
        self.cursor = 0;
        self.prev_lines = 1;
        self.suggestion = None;
        self.last_prompt_line = last_of(self.prompt.as_str());
        self.prompt_width = prompt_last_line_width(self.prompt.as_str());
        self.in_continuation = false;
        self.out.s(self.caps.clear_screen.as_str());
        self.out.s(self.prompt.as_str());
        self.origin_row = Some(prompt_rows_above(self.prompt.as_str()));
        assert(self@ =~= interrupted(e));
    }

    fn enter(&mut self) -> (r: Step)
        requires
            editor_wf(old(self)@),
        ensures
            (final(self)@, r@) == pressed_enter(old(self)@),
            editor_wf(final(self)@),
    {
        let ghost e = self@;
        let line = from_chars(&self.line);
        let rest = self.tail(self.cursor);
        self.out.s(rest.as_str());
        if is_line_complete(line.as_str()) {
            self.out.s(self.caps.erase_to_end.as_str());
            self.out.s("\r\n");
            return Step::Done(ReadLineResult::Line(line));
        }
        if ends_in_unescaped_backslash(line.as_str()) {
            proof {
                lemma_goes_on(e.line);
            }
            self.line.pop();
            assert(self.line@ =~= e.line.drop_last());
        } else {
            self.line.push('\n');
        }
        self.cursor = self.line.len();
        self.suggestion = None;
        self.out.s(self.caps.erase_to_end.as_str());
        self.out.s("\r\n");
        self.out.s("> ");
        self.out.s("\x1b[6n");
        self.last_prompt_line = owned("> ");
        proof {
            reveal_strlit("> ");
            lemma_own_last_line("> "@);
        }
        self.prompt_width = prompt_last_line_width("> ");
        self.origin_row = None;
        self.prev_lines = 1;
        self.in_continuation = true;
        assert(self@ =~= continued(e));
        Step::Continue
    }
}

proof fn lemma_goes_on(s: Seq<char>)
    requires
        token::goes_on(s),
    ensures
        s.len() > 0,
{
}

proof fn lemma_own_last_line(s: Seq<char>)
    requires
        s.len() > 0,
        !s.contains('\n'),
    ensures
        screen::last_line_of(s) == s,
{
    assert(text::lines_of(s) == seq![s]);
}

fn is_closer(c: char) -> (r: bool)
    ensures
        r == closes(c),
{
    c == '"' || c == '\'' || c == ')' || c == ']' || c == '}'
}

fn closer_of(c: char) -> (r: Option<char>)
    ensures
        closing(c) == match r {
            Some(d) => seq![d],
            None => Seq::empty(),
        },
{
    if c == '{' {
        Some('}')
    } else if c == '(' {
        Some(')')
    } else if c == '[' {
        Some(']')
    } else if c == '"' || c == '\'' {
        Some(c)
    } else {
        None
    }
}

impl LineEditor {
    fn type_char(&mut self, c: char) -> (r: Step)
        requires
            editor_wf(old(self)@),
        ensures
            forall|h: HistoryV|
                (final(self)@, r@) == #[trigger] pressed(old(self)@, h, Key::Char(c)),
            editor_wf(final(self)@),
    {
        let ghost e = self@;
        if is_closer(c) && self.cursor < self.line.len() && self.line[self.cursor] == c {
            self.cursor = self.cursor + 1;
            self.redraw();
            return Step::Continue;
        }
        self.line.insert(self.cursor, c);
        let ghost once = self.line@;
        assert(once =~= e.line.take(e.cursor) + seq![c] + e.line.skip(e.cursor));
        assert(self.line.len() > self.cursor);
        self.cursor = self.cursor + 1;
        if let Some(d) = closer_of(c) {
            self.line.insert(self.cursor, d);
        }
        assert(self.line@ =~= e.line.take(e.cursor) + seq![c] + closing(c) + e.line.skip(e.cursor));
        Step::Suggest
    }

    /// Takes the line over, and puts the cursor at its end.
    fn set_line(&mut self, line: &str)
        ensures
            final(self)@ == with_line(old(self)@, line@),
    {
        self.line = to_chars(line);
        self.cursor = self.line.len();
    }

    fn accept(&mut self, whole: bool) -> (r: Step)
        requires
            editor_wf(old(self)@),
        ensures
            ({
                let e = old(self)@;
                (final(self)@, r@) == match e.suggestion {
                    Some(s) => if s.len() > 0 {
                        (
                            with_line(
                                e,
                                if whole {
                                    e.line + s
                                } else {
                                    e.line.push(s[0])
                                },
                            ),
                            StepV::Suggest,
                        )
                    } else {
                        (e, StepV::Continue)
                    },
                    None => (e, StepV::Continue),
                }
            }),
            editor_wf(final(self)@),
    {
        let more = match &self.suggestion {
            Some(s) => to_chars(s.as_str()),
            None => {
                return Step::Continue;
            },
        };
        if more.len() == 0 {
            return Step::Continue;
        }
        if whole {
            let mut more = more;
            self.line.append(&mut more);
        } else {
            self.line.push(more[0]);
        }
        self.cursor = self.line.len();
        Step::Suggest
    }

    fn clear_screen(&mut self)
        requires
            editor_wf(old(self)@),
        ensures
            forall|h: HistoryV|
                (final(self)@, StepV::Continue) == #[trigger] pressed(old(self)@, h, Key::CtrlL),
            editor_wf(final(self)@),
    {
        self.out.s(self.caps.clear_screen.as_str());
        if self.in_continuation {
            self.out.s(self.last_prompt_line.as_str());
            self.origin_row = Some(0);
        } else {
            self.out.s(self.prompt.as_str());
            self.origin_row = Some(prompt_rows_above(self.prompt.as_str()));
        }
        self.redraw();
    }

    fn move_to(&mut self, cursor: usize)
        requires
            editor_wf(old(self)@),
            cursor <= old(self)@.line.len(),
        ensures
            final(self)@ == redrawn(with_cursor(old(self)@, cursor as int)),
            editor_wf(final(self)@),
    {
        self.cursor = cursor;
        self.redraw();
    }

    fn press(&mut self, history: &mut History, key: Key) -> (r: Step)
        requires
            editor_wf(old(self)@),
        ensures
            (final(self)@, r@) == pressed(old(self)@, old(history)@, key),
            final(history)@ == history_after(
                old(history)@,
                old(self)@.line,
                EventV::Input(Some(key)),
            ),
            editor_wf(final(self)@),
    {
        let ghost e = self@;
        match key {
            Key::Enter => self.enter(),
            Key::Char(c) => self.type_char(c),
            Key::Backspace => {
                if self.cursor > 0 {
                    self.cursor = self.cursor - 1;
                    self.line.remove(self.cursor);
                    assert(self.line@ =~= e.line.take(e.cursor - 1) + e.line.skip(e.cursor));
                    Step::Suggest
                } else {
                    Step::Continue
                }
            },
            Key::Delete => {
                if self.cursor < self.line.len() {
                    self.line.remove(self.cursor);
                    assert(self.line@ =~= e.line.take(e.cursor) + e.line.skip(e.cursor + 1));
                    Step::Suggest
                } else {
                    Step::Continue
                }
            },
            Key::Left => {
                if self.cursor > 0 {
                    self.move_to(self.cursor - 1);
                }
                Step::Continue
            },
            Key::Right => {
                if self.cursor < self.line.len() {
                    self.move_to(self.cursor + 1);
                    Step::Continue
                } else {
                    self.accept(false)
                }
            },
            Key::Home => {
                self.move_to(0);
                Step::Continue
            },
            Key::End => {
                self.move_to(self.line.len());
                Step::Continue
            },
            Key::Up => {
                let line = self.text();
                match history.up(line.as_str()) {
                    Some(l) => {
                        self.set_line(l.as_str());
                        Step::Suggest
                    },
                    None => Step::Continue,
                }
            },
            Key::Down => match history.down() {
                Some(l) => {
                    self.set_line(l.as_str());
                    Step::Suggest
                },
                None => Step::Continue,
            },
            Key::CtrlC => {
                self.out.s("\r\x1b[J");
                self.out.s(self.last_prompt_line.as_str());
                Step::Done(ReadLineResult::CtrlC)
            },
            Key::CtrlD => {
                if self.line.len() == 0 {
                    Step::Done(ReadLineResult::Eof)
                } else {
                    Step::Continue
                }
            },
            Key::CtrlL => {
                self.clear_screen();
                Step::Continue
            },
            Key::Tab => self.accept(true),
            Key::CursorReport(row) => {
                self.origin_row = Some(
                    if row > 0 {
                        row - 1
                    } else {
                        0
                    },
                );
                Step::Continue
            },
            Key::Unknown => Step::Continue,
        }
    }
}

/// One step of reading a line: what comes up changes the line, and this says
/// what is to be done next.
pub fn read_line_interactive(editor: &mut LineEditor, history: &mut History, event: Event) -> (r:
    Step)
    requires
        editor_wf(old(editor)@),
    ensures
        (final(editor)@, r@) == stepped(old(editor)@, old(history)@, event@),
        final(history)@ == history_after(old(history)@, old(editor)@.line, event@),
        editor_wf(final(editor)@),
{
    match event {
        Event::Interrupt => {
            editor.interrupt();
            Step::Continue
        },
        Event::Resize(w) => {
            editor.term_width = w;
            editor.redraw();
            Step::Continue
        },
        Event::Input(None) => Step::Done(ReadLineResult::Eof),
        Event::Input(Some(key)) => editor.press(history, key),
        Event::Suggestion(s) => {
            editor.suggestion = s;
            editor.redraw();
            Step::Continue
        },
    }
}

// ---------------------------------------------------------------------------
// What holds of every line
// ---------------------------------------------------------------------------

proof fn lemma_redrawn_wf(e: EditorV)
    requires
        0 <= e.cursor <= e.line.len(),
    ensures
        editor_wf(redrawn(e)),
{
}

#[verifier::rlimit(40)]
proof fn lemma_pressed_wf(e: EditorV, h: HistoryV, key: Key)
    requires
        editor_wf(e),
    ensures
        editor_wf(pressed(e, h, key).0),
{
    match key {
        Key::Char(c) => {
            lemma_redrawn_wf(with_cursor(e, e.cursor));
            assert(e.line.take(e.cursor).len() + e.line.skip(e.cursor).len() == e.line.len());
        },
        Key::Enter => {
            if token::goes_on(e.line) {
                lemma_goes_on(e.line);
            }
        },
        _ => {},
    }
}

/// Whatever comes up, the cursor stays in the line.
pub proof fn law_cursor_stays_in_line(e: EditorV, h: HistoryV, event: EventV)
    requires
        editor_wf(e),
    ensures
        editor_wf(stepped(e, h, event).0),
{
    match event {
        EventV::Interrupt => {},
        EventV::Resize(w) => lemma_redrawn_wf(EditorV { width: w, ..e }),
        EventV::Input(None) => {},
        EventV::Input(Some(key)) => lemma_pressed_wf(e, h, key),
        EventV::Suggestion(s) => lemma_redrawn_wf(EditorV { suggestion: s, ..e }),
    }
}

/// Backspace takes back a character that was just typed, unless another one was
/// put in to close it.
pub proof fn law_backspace_undoes_typing(e: EditorV, h: HistoryV, c: char)
    requires
        editor_wf(e),
        pressed(e, h, Key::Char(c)).1 == StepV::Suggest,
        closing(c).len() == 0,
    ensures
        pressed(pressed(e, h, Key::Char(c)).0, h, Key::Backspace).0.line == e.line,
        pressed(pressed(e, h, Key::Char(c)).0, h, Key::Backspace).0.cursor == e.cursor,
{
    let f = pressed(e, h, Key::Char(c)).0;
    assert(f.line.take(f.cursor - 1) + f.line.skip(f.cursor) =~= e.line);
}

/// An opening bracket or quote is closed at once, and typing the closing one
/// then goes past it: the line ends up with both, once each.
pub proof fn law_typed_pairs_close(e: EditorV, h: HistoryV, open: char, close: char)
    requires
        editor_wf(e),
        closing(open) == seq![close],
        pressed(e, h, Key::Char(open)).1 == StepV::Suggest,
    ensures
        ({
            let f = pressed(pressed(e, h, Key::Char(open)).0, h, Key::Char(close)).0;
            &&& f.line == e.line.take(e.cursor) + seq![open, close] + e.line.skip(e.cursor)
            &&& f.cursor == e.cursor + 2
        }),
{
    let f = pressed(e, h, Key::Char(open)).0;
    assert(seq![close][0] == close);
    assert(closing(open)[0] == close);
    assert(seq!['}'][0] == '}' && seq![')'][0] == ')' && seq![']'][0] == ']' && seq![open][0]
        == open);
    assert(closes(close));
    assert(f.line[f.cursor] == close);
    assert(f.line =~= e.line.take(e.cursor) + seq![open, close] + e.line.skip(e.cursor));
}

/// The tab key takes a suggestion over as a whole, and the right arrow key, at
/// the end of the line, its first character.
pub proof fn law_suggestions_are_taken_over(e: EditorV, h: HistoryV, s: Seq<char>)
    requires
        editor_wf(e),
        e.suggestion == Some(s),
        s.len() > 0,
    ensures
        pressed(e, h, Key::Tab).0.line == e.line + s,
        pressed(e, h, Key::Tab).0.cursor == e.line.len() + s.len(),
        e.cursor == e.line.len() ==> pressed(e, h, Key::Right).0.line == e.line.push(s[0])
            && pressed(e, h, Key::Right).0.cursor == e.line.len() + 1,
{
}

/// A line is handed over only when it is complete, and as it stands.
pub proof fn law_only_complete_lines_end(e: EditorV, h: HistoryV, event: EventV)
    ensures
        stepped(e, h, event).1 matches StepV::Line(l) ==> l == e.line && token::line_complete(l),
{
}

/// Moving the cursor does not change the line.
pub proof fn law_moving_keeps_the_line(e: EditorV, h: HistoryV, key: Key)
    requires
        key is Left || key is Home || key is End || (key is Right && e.cursor < e.line.len()),
    ensures
        pressed(e, h, key).0.line == e.line,
{
}

} // verus!
