use btsh::editor::{read_line_interactive, Event, LineEditor, ReadLineResult, Step};
use btsh::history::{History, HistoryUpdate};
use btsh::keys::{read_key, Key, KeyRead};
use btsh::screen::{
    char_col, char_row, columns, cursor_up, is_csi_terminator, move_cursor, prompt_last_line_width,
    refresh_line, resolve_term_caps, settle_cursor, write_int, Out, TermCaps,
};

fn caps() -> TermCaps {
    resolve_term_caps(None, None, None, None)
}

#[test]
fn keys_are_read() {
    let key = |b: &[u8]| read_key(&b.to_vec(), false);
    assert_eq!(key(b"a"), KeyRead::Key(Key::Char('a')));
    assert_eq!(key(b"\x03"), KeyRead::Key(Key::CtrlC));
    assert_eq!(key(b"\x04"), KeyRead::Key(Key::CtrlD));
    assert_eq!(key(b"\x0c"), KeyRead::Key(Key::CtrlL));
    assert_eq!(key(b"\t"), KeyRead::Key(Key::Tab));
    assert_eq!(key(b"\n"), KeyRead::Key(Key::Enter));
    assert_eq!(key(b"\r"), KeyRead::Key(Key::Enter));
    assert_eq!(key(b"\x7f"), KeyRead::Key(Key::Backspace));
    assert_eq!(key(b"\x1b[A"), KeyRead::Key(Key::Up));
    assert_eq!(key(b"\x1b[B"), KeyRead::Key(Key::Down));
    assert_eq!(key(b"\x1b[C"), KeyRead::Key(Key::Right));
    assert_eq!(key(b"\x1b[D"), KeyRead::Key(Key::Left));
    assert_eq!(key(b"\x1b[H"), KeyRead::Key(Key::Home));
    assert_eq!(key(b"\x1b[F"), KeyRead::Key(Key::End));
    assert_eq!(key(b"\x1b[3~"), KeyRead::Key(Key::Delete));
    assert_eq!(key(b"\x1b[7~"), KeyRead::Key(Key::Home));
    assert_eq!(key(b"\x1b[8~"), KeyRead::Key(Key::End));
    assert_eq!(key(b"\x1b[12;34R"), KeyRead::Key(Key::CursorReport(12)));
    assert_eq!(key(b"\x1b[9~"), KeyRead::Key(Key::Unknown));
    assert_eq!(key(b"\x1bx"), KeyRead::Key(Key::Unknown));
    assert_eq!(key(b"\x01"), KeyRead::Key(Key::Char('\u{1}')));
    assert_eq!(key(b"\x1b[99999999999999999999999R"), KeyRead::Key(Key::Unknown));
}

#[test]
fn keys_that_need_more_bytes() {
    assert_eq!(read_key(&vec![], false), KeyRead::More);
    assert_eq!(read_key(&vec![], true), KeyRead::End);
    assert_eq!(read_key(&vec![0x1b], false), KeyRead::More);
    assert_eq!(read_key(&vec![0x1b, 0x5b], true), KeyRead::End);
    assert_eq!(read_key(&vec![0x1b, 0x5b, 0x33], false), KeyRead::More);
    assert_eq!(read_key(&vec![0x1b, 0x5b, 0x33], true), KeyRead::Key(Key::Delete));
    assert_eq!(read_key(&vec![0xe2, 0x82], false), KeyRead::More);
    assert_eq!(read_key(&vec![0xe2, 0x82], true), KeyRead::End);
}

#[test]
fn characters_are_read_from_their_bytes() {
    for c in ['a', '\u{e9}', '\u{20ac}', '\u{1f600}', '\u{7ff}', '\u{800}', '\u{ffff}', '\u{10000}'] {
        let mut buf = [0u8; 4];
        let bytes = c.encode_utf8(&mut buf).as_bytes().to_vec();
        assert_eq!(read_key(&bytes, false), KeyRead::Key(Key::Char(c)));
    }
    assert_eq!(read_key(&vec![0xc0, 0x80], false), KeyRead::Key(Key::Unknown));
    assert_eq!(read_key(&vec![0xed, 0xa0, 0x80], false), KeyRead::Key(Key::Unknown));
    assert_eq!(read_key(&vec![0xf5, 0x80, 0x80, 0x80], false), KeyRead::Key(Key::Unknown));
    assert_eq!(read_key(&vec![0x80], false), KeyRead::Key(Key::Unknown));
    assert_eq!(read_key(&vec![0xff], false), KeyRead::Key(Key::Unknown));
}

#[test]
fn rows_and_columns() {
    assert_eq!((char_row(0, 10), char_col(0, 10)), (0, 0));
    assert_eq!((char_row(10, 10), char_col(10, 10)), (0, 10));
    assert_eq!((char_row(11, 10), char_col(11, 10)), (1, 1));
    assert_eq!((char_row(25, 10), char_col(25, 10)), (2, 5));
    assert_eq!((char_row(25, 0), char_col(25, 0)), (0, 0));
}

#[test]
fn cursor_sequences() {
    let mut out = Out::new();
    write_int(&mut out, 0);
    write_int(&mut out, 120);
    cursor_up(&mut out, 0);
    cursor_up(&mut out, 3);
    out.c('|');
    move_cursor(&mut out, 2, 0, 5);
    out.c('|');
    move_cursor(&mut out, 1, 1, 0);
    assert_eq!(out.take(), "0120\x1b[3A|\x1b[2A\r\x1b[5C|\r");
    assert_eq!(out.take(), "");
}

#[test]
fn widths_of_prompts() {
    assert_eq!(prompt_last_line_width("u@h $ "), 6);
    assert_eq!(prompt_last_line_width("first\n\x1b[0;32m$\x1b[0m "), 2);
    assert_eq!(prompt_last_line_width("\x1bMab"), 2);
    assert_eq!(prompt_last_line_width("\x1b(Bab"), 2);
    assert_eq!(prompt_last_line_width(""), 0);
    assert!(is_csi_terminator('m'));
    assert!(!is_csi_terminator('3'));
}

#[test]
fn lines_are_drawn() {
    let mut out = Out::new();
    let rows = refresh_line(&mut out, &caps(), None, 2, "$ ", "abc", 1, 1, 80, Some("def"));
    assert_eq!(rows, 1);
    assert_eq!(out.take(), "\r\x1b[J$ abc\r\x1b[3C");
    let rows = refresh_line(&mut out, &caps(), None, 2, "$ ", "abc", 3, 2, 80, Some("def"));
    assert_eq!(rows, 1);
    assert_eq!(out.take(), "\x1b[1A\r\x1b[J$ abc\x1b[2mdef\x1b[0m\r\x1b[5C");
    let rows = refresh_line(&mut out, &caps(), Some(4), 2, "$ ", "abcdefghij", 0, 1, 5, None);
    assert_eq!(rows, 3);
    assert_eq!(out.take(), "\x1b[5;1H\x1b[J$ abcdefghij\x1b[5;3H");
}

#[test]
fn wide_characters_take_two_cells() {
    let mut out = Out::new();
    let line = "\u{65e5}\u{672c}";
    let rows = refresh_line(&mut out, &caps(), None, 0, "", line, line.len(), 1, 80, None);
    assert_eq!(rows, 1);
    assert_eq!(out.take(), "\r\x1b[J\u{65e5}\u{672c}\r\x1b[4C");
    let rows = settle_cursor(&mut out, None, 2, 10, 1, 5);
    assert_eq!(rows, 3);
    assert_eq!(out.take(), "\x1b[2A\r\x1b[3C");
}

#[test]
fn terminal_sequences_are_taken_over() {
    let c = resolve_term_caps(Some("C".to_string()), Some("".to_string()), None, Some("R".to_string()));
    assert_eq!(c.clear_screen, "C");
    assert_eq!(c.erase_to_end, "\x1b[J");
    assert_eq!(c.dim, "\x1b[2m");
    assert_eq!(c.reset, "R");
    assert_eq!(caps().clear_screen, "\x1b[2J\x1b[H");
    assert_eq!((columns(Some(120)), columns(Some(0)), columns(None)), (120, 80, 80));
}

#[test]
fn history_is_read() {
    let mut h = History::new(Some("one\n  two  \n\n# three\r\n"));
    assert_eq!(h.up("now"), Some("# three".to_string()));
    assert_eq!(h.up("now"), Some("two".to_string()));
    assert_eq!(h.up("now"), Some("one".to_string()));
    assert_eq!(h.up("now"), None);
    assert_eq!(h.down(), Some("two".to_string()));
}

#[test]
fn added_lines_become_the_newest() {
    let mut h = History::new(Some("a\nb\n"));
    assert!(matches!(h.add("  c "), HistoryUpdate::Append(t) if t == "c\n"));
    assert!(matches!(h.add("c"), HistoryUpdate::Unchanged));
    assert!(matches!(h.add("  "), HistoryUpdate::Unchanged));
    assert!(matches!(h.add("a"), HistoryUpdate::Rewrite(t) if t == "b\nc\na\n"));
    assert_eq!(h.up(""), Some("a".to_string()));
    assert_eq!(h.up(""), Some("c".to_string()));
    let mut e = History::empty();
    assert!(matches!(e.add("x"), HistoryUpdate::Unchanged));
    assert_eq!(e.up("line"), Some("x".to_string()));
}

#[test]
fn written_history_is_read_back() {
    let mut h = History::new(Some("a\nb\na\n"));
    match h.add("b") {
        HistoryUpdate::Rewrite(t) => {
            let mut again = History::new(Some(&t));
            assert_eq!(again.up(""), Some("b".to_string()));
            assert_eq!(again.up(""), Some("a".to_string()));
            assert_eq!(again.up(""), Some("a".to_string()));
            assert_eq!(again.up(""), None);
        }
        _ => panic!("not written"),
    }
}

#[test]
fn going_down_shows_the_line_again() {
    let mut h = History::new(Some("a\nb\n"));
    assert_eq!(h.down(), None);
    assert_eq!(h.up("typed"), Some("b".to_string()));
    assert_eq!(h.down(), Some("typed".to_string()));
    assert_eq!(h.down(), None);
}

#[test]
fn history_suggests() {
    let h = History::new(Some("git status\ngit commit\ncat some/file\nls -l\n"));
    assert_eq!(h.suggestion("git ", &vec![]), Some("commit".to_string()));
    assert_eq!(h.suggestion("git s", &vec![]), Some("tatus".to_string()));
    assert_eq!(h.suggestion("ls -l", &vec![]), None);
    assert_eq!(h.suggestion_files("cat "), vec!["some/file"]);
    assert_eq!(h.suggestion("cat ", &vec![]), None);
    assert_eq!(h.suggestion("cat ", &vec!["some/file".to_string()]), Some("some/file".to_string()));
}

struct Session {
    editor: LineEditor,
    history: History,
    next: Option<String>,
}

impl Session {
    fn new(prompt: &str, history: &str) -> Session {
        Session {
            editor: LineEditor::new(prompt, caps(), 80),
            history: History::new(Some(history)),
            next: None,
        }
    }

    fn event(&mut self, e: Event) -> Option<ReadLineResult> {
        match read_line_interactive(&mut self.editor, &mut self.history, e) {
            Step::Continue => None,
            Step::Suggest => {
                let s = self.next.take();
                self.event(Event::Suggestion(s))
            }
            Step::Done(r) => Some(r),
        }
    }

    fn key(&mut self, k: Key) -> Option<ReadLineResult> {
        self.event(Event::Input(Some(k)))
    }

    fn type_in(&mut self, s: &str) {
        for c in s.chars() {
            assert!(self.key(Key::Char(c)).is_none());
        }
    }

    fn line(&self) -> String {
        self.editor.text()
    }
}

#[test]
fn typing_and_moving() {
    let mut s = Session::new("$ ", "");
    assert_eq!(s.editor.out.take(), "\r$ \x1b[6n");
    s.type_in("abd");
    s.key(Key::Left);
    s.type_in("c");
    assert_eq!(s.line(), "abcd");
    assert_eq!(s.editor.cursor, 3);
    s.key(Key::Home);
    s.key(Key::Delete);
    assert_eq!(s.line(), "bcd");
    s.key(Key::End);
    s.key(Key::Backspace);
    assert_eq!(s.line(), "bc");
    s.key(Key::Right);
    assert_eq!(s.line(), "bc");
    s.editor.out.take();
    match s.key(Key::Enter) {
        Some(ReadLineResult::Line(l)) => assert_eq!(l, "bc"),
        _ => panic!("no line"),
    }
    assert_eq!(s.editor.out.take(), "\x1b[J\r\n");
}

#[test]
fn backspace_undoes_typing() {
    let mut s = Session::new("$ ", "");
    s.type_in("ab");
    s.key(Key::Char('\u{e9}'));
    s.key(Key::Backspace);
    assert_eq!(s.line(), "ab");
    assert_eq!(s.editor.cursor, 2);
    s.key(Key::Home);
    s.key(Key::Backspace);
    assert_eq!(s.line(), "ab");
}

#[test]
fn pairs_are_closed() {
    let mut s = Session::new("$ ", "");
    s.type_in("(");
    assert_eq!(s.line(), "()");
    s.type_in("a)");
    assert_eq!(s.line(), "(a)");
    assert_eq!(s.editor.cursor, 3);
    s.type_in("\"b\"");
    assert_eq!(s.line(), "(a)\"b\"");
    s.type_in("{[");
    assert_eq!(s.line(), "(a)\"b\"{[]}");
}

#[test]
fn suggestions_are_accepted() {
    let mut s = Session::new("$ ", "");
    s.next = Some("bc".to_string());
    s.type_in("a");
    s.next = Some("c".to_string());
    s.key(Key::Right);
    assert_eq!(s.line(), "ab");
    s.key(Key::Tab);
    assert_eq!(s.line(), "abc");
    s.key(Key::Tab);
    assert_eq!(s.line(), "abc");
}

#[test]
fn arrows_walk_through_history() {
    let mut s = Session::new("$ ", "one\ntwo\n");
    s.type_in("x");
    s.key(Key::Up);
    assert_eq!(s.line(), "two");
    s.key(Key::Up);
    s.key(Key::Up);
    assert_eq!(s.line(), "one");
    s.key(Key::Down);
    s.key(Key::Down);
    assert_eq!(s.line(), "x");
}

#[test]
fn lines_are_continued() {
    let mut s = Session::new("$ ", "");
    s.type_in("echo a\\");
    assert!(s.key(Key::Enter).is_none());
    assert_eq!(s.line(), "echo a");
    assert!(s.editor.in_continuation);
    s.type_in("b");
    assert!(matches!(s.key(Key::Enter), Some(ReadLineResult::Line(l)) if l == "echo ab"));
    let mut t = Session::new("$ ", "");
    t.type_in("echo '");
    t.key(Key::Delete);
    assert!(t.key(Key::Enter).is_none());
    assert_eq!(t.line(), "echo '\n");
}

#[test]
fn endings_and_interruptions() {
    let mut s = Session::new("top\n$ ", "");
    assert!(matches!(s.key(Key::CtrlD), Some(ReadLineResult::Eof)));
    s.type_in("a");
    assert!(s.key(Key::CtrlD).is_none());
    assert!(matches!(s.event(Event::Input(None)), Some(ReadLineResult::Eof)));
    s.editor.out.take();
    assert!(s.event(Event::Interrupt).is_none());
    assert_eq!(s.line(), "");
    assert_eq!(s.editor.origin_row, Some(1));
    assert_eq!(s.editor.out.take(), "\x1b[2J\x1b[Htop\n$ ");
    assert!(matches!(s.key(Key::CtrlC), Some(ReadLineResult::CtrlC)));
    assert_eq!(s.editor.out.take(), "\r\x1b[J$ ");
}

#[test]
fn reports_and_resizing() {
    let mut s = Session::new("$ ", "");
    s.key(Key::CursorReport(7));
    assert_eq!(s.editor.origin_row, Some(6));
    s.key(Key::CursorReport(0));
    assert_eq!(s.editor.origin_row, Some(0));
    s.type_in("abcdef");
    s.event(Event::Resize(4));
    assert_eq!(s.editor.prev_lines, 2);
    s.key(Key::Unknown);
    s.editor.out.take();
    s.key(Key::CtrlL);
    assert!(s.editor.out.take().starts_with("\x1b[2J\x1b[H$ \x1b[1;1H"));
}
