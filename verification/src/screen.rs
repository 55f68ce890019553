//! What is written to the terminal to draw a line that is being edited.

use vstd::prelude::*;
use vstd::string::*;

use crate::numbers;
use crate::numbers::usize_to_string;
use crate::text;
use crate::text::{char_index, is_ascii_letter, lines, to_chars};

verus! {

// ---------------------------------------------------------------------------
// Widths
// ---------------------------------------------------------------------------

/// How many cells of a terminal a text takes.
pub uninterp spec fn display_width(s: Seq<char>) -> nat;

/// Calls `UnicodeWidthStr::width`. The width depends on the text alone. A text
/// of ASCII characters without carriage returns takes one cell for each.
#[verifier::external_body]
fn width(s: &str) -> (w: usize)
    ensures
        w == display_width(s@),
        (forall|k: int| 0 <= k < s@.len() ==> (#[trigger] s@[k] as int) < 0x80 && s@[k] != '\r')
            ==> w == s@.len(),
{
    unicode_width::UnicodeWidthStr::width(s)
}

/// Whether a character ends a control sequence.
pub open spec fn ends_csi(c: char) -> bool {
    '@' <= c <= '~'
}

pub fn is_csi_terminator(c: char) -> (r: bool)
    ensures
        r == ends_csi(c),
{
    '@' <= c && c <= '~'
}

/// The place after the first character from `i` on that ends a control sequence
/// (`csi`) or is a letter (`!csi`), or the end of the text.
pub open spec fn after_terminator(s: Seq<char>, i: int, csi: bool) -> int
    decreases s.len() - i,
{
    if i < 0 || i >= s.len() {
        s.len() as int
    } else if (csi && ends_csi(s[i])) || (!csi && text::ascii_letter(s[i])) {
        i + 1
    } else {
        after_terminator(s, i + 1, csi)
    }
}

/// The place after the escape sequence whose escape character stands before
/// `i`.
pub open spec fn after_escape(s: Seq<char>, i: int) -> int {
    if i >= s.len() {
        i
    } else if s[i] == '[' {
        after_terminator(s, i + 1, true)
    } else if text::ascii_letter(s[i]) {
        i + 1
    } else {
        after_terminator(s, i + 1, false)
    }
}

proof fn lemma_after_terminator(s: Seq<char>, i: int, csi: bool)
    requires
        0 <= i <= s.len(),
    ensures
        i <= after_terminator(s, i, csi) <= s.len(),
    decreases s.len() - i,
{
    if i < s.len() {
        lemma_after_terminator(s, i + 1, csi);
    }
}

pub proof fn lemma_after_escape(s: Seq<char>, i: int)
    requires
        0 <= i <= s.len(),
    ensures
        i <= after_escape(s, i) <= s.len(),
{
    if i < s.len() {
        lemma_after_terminator(s, i + 1, true);
        lemma_after_terminator(s, i + 1, false);
    }
}

/// How many characters from place `i` on are no part of an escape sequence.
pub open spec fn visible_from(s: Seq<char>, i: int) -> nat
    decreases s.len() - i,
{
    if i < 0 || i >= s.len() {
        0
    } else if s[i] == '\x1b' {
        proof {
            lemma_after_escape(s, i + 1);
        }
        visible_from(s, after_escape(s, i + 1))
    } else {
        1 + visible_from(s, i + 1)
    }
}

/// The last line of a text; a text without lines is its own.
pub open spec fn last_line_of(s: Seq<char>) -> Seq<char> {
    let ls = text::lines_of(s);
    if ls.len() > 0 {
        ls.last()
    } else {
        s
    }
}

fn last_line(s: &str) -> (r: String)
    ensures
        r@ == last_line_of(s@),
{
    let ls = lines(s);
    assert(text::texts(ls@).len() == ls@.len());
    if ls.len() > 0 {
        ls[ls.len() - 1].clone()
    } else {
        text::owned(s)
    }
}

fn skip_terminator(v: &Vec<char>, from: usize, csi: bool) -> (r: usize)
    requires
        from <= v.len(),
    ensures
        r == after_terminator(v@, from as int, csi),
        from <= r <= v.len(),
{
    let mut i: usize = from;
    while i < v.len()
        invariant
            from <= i <= v.len(),
            after_terminator(v@, i as int, csi) == after_terminator(v@, from as int, csi),
        decreases v.len() - i,
    {
        let c = v[i];
        if (csi && is_csi_terminator(c)) || (!csi && is_ascii_letter(c)) {
            return i + 1;
        }
        i += 1;
    }
    i
}

/// How many cells the last line of a prompt takes.
pub fn prompt_last_line_width(s: &str) -> (w: usize)
    ensures
        w == visible_from(last_line_of(s@), 0),
{
    let line = last_line(s);
    let v = to_chars(line.as_str());
    let mut w: usize = 0;
    let mut i: usize = 0;
    while i < v.len()
        invariant
            w <= i <= v.len(),
            w + visible_from(v@, i as int) == visible_from(v@, 0),
        decreases v.len() - i,
    {
        if v[i] == '\x1b' {
            proof {
                lemma_after_escape(v@, i + 1);
            }
            let j = i + 1;
            i = if j >= v.len() {
                j
            } else if v[j] == '[' {
                skip_terminator(&v, j + 1, true)
            } else if is_ascii_letter(v[j]) {
                j + 1
            } else {
                skip_terminator(&v, j + 1, false)
            };
        } else {
            w += 1;
            i += 1;
        }
    }
    w
}

// ---------------------------------------------------------------------------
// Output
// ---------------------------------------------------------------------------

/// Text that waits to be written.
pub struct Out {
    pub buf: String,
}

impl View for Out {
    type V = Seq<char>;

    open spec fn view(&self) -> Seq<char> {
        self.buf@
    }
}

impl Out {
    pub fn new() -> (r: Out)
        ensures
            r@ == Seq::<char>::empty(),
    {
        Out { buf: String::new() }
    }

    pub fn s(&mut self, s: &str)
        ensures
            final(self)@ == old(self)@ + s@,
    {
        self.buf.append(s);
    }

    pub fn c(&mut self, c: char)
        ensures
            final(self)@ == old(self)@.push(c),
    {
        self.buf.push(c);
    }

    /// Hands the text over, and starts again with none.
    pub fn take(&mut self) -> (r: String)
        ensures
            r@ == old(self)@,
            final(self)@ == Seq::<char>::empty(),
    {
        let r = self.buf.clone();
        self.buf = String::new();
        r
    }
}

/// The sequences of the terminal.
pub struct TermCaps {
    pub clear_screen: String,
    pub erase_to_end: String,
    pub dim: String,
    pub reset: String,
}

/// The sequences of the terminal: those that the terminal's own description
/// gives, each as a text that may be missing, and else the usual ones.
pub fn resolve_term_caps(
    clear: Option<String>,
    ed: Option<String>,
    dim: Option<String>,
    sgr0: Option<String>,
) -> (r: TermCaps)
    ensures
        r.clear_screen@ == described(crate::shell::opt(clear), "\x1b[2J\x1b[H"@),
        r.erase_to_end@ == described(crate::shell::opt(ed), "\x1b[J"@),
        r.dim@ == described(crate::shell::opt(dim), "\x1b[2m"@),
        r.reset@ == described(crate::shell::opt(sgr0), "\x1b[0m"@),
{
    TermCaps {
        clear_screen: given_or(clear, "\x1b[2J\x1b[H"),
        erase_to_end: given_or(ed, "\x1b[J"),
        dim: given_or(dim, "\x1b[2m"),
        reset: given_or(sgr0, "\x1b[0m"),
    }
}

/// A sequence from the terminal's description, if it gives one that is not
/// empty, or else the usual one.
pub open spec fn described(given: Option<Seq<char>>, usual: Seq<char>) -> Seq<char> {
    match given {
        Some(s) => if s.len() > 0 {
            s
        } else {
            usual
        },
        None => usual,
    }
}

fn given_or(given: Option<String>, usual: &str) -> (r: String)
    ensures
        r@ == described(crate::shell::opt(given), usual@),
{
    match given {
        Some(s) => if s.as_str().unicode_len() > 0 {
            s
        } else {
            text::owned(usual)
        },
        None => text::owned(usual),
    }
}

pub fn write_int(out: &mut Out, n: usize)
    ensures
        final(out)@ == old(out)@ + numbers::digits(n as nat),
{
    out.s(usize_to_string(n).as_str());
}

/// What moves the cursor up `n` rows.
pub open spec fn up_by(n: nat) -> Seq<char> {
    if n > 0 {
        "\x1b["@ + numbers::digits(n) + seq!['A']
    } else {
        Seq::empty()
    }
}

pub fn cursor_up(out: &mut Out, n: usize)
    ensures
        final(out)@ == old(out)@ + up_by(n as nat),
{
    let ghost before = out@;
    if n > 0 {
        out.s("\x1b[");
        write_int(out, n);
        out.c('A');
    }
    assert(out@ =~= before + up_by(n as nat));
}

// ---------------------------------------------------------------------------
// Rows and columns
// ---------------------------------------------------------------------------

/// The row, counted from zero, that the cursor is in after `w` cells have been
/// written to a terminal that is `width` cells wide. A row that is just full
/// keeps the cursor until another cell is written.
pub open spec fn row_of(w: nat, width: nat) -> nat {
    if width == 0 || w == 0 {
        0
    } else {
        ((w - 1) / width as int) as nat
    }
}

/// The number of cells before the cursor in its row.
pub open spec fn column_of(w: nat, width: nat) -> nat {
    if width == 0 || w == 0 {
        0
    } else {
        (w - row_of(w, width) * width) as nat
    }
}

/// The rows above the cursor are full, and its own row holds the rest: at least
/// one cell, and at most as many as fit.
pub proof fn law_rows_and_columns(w: nat, width: nat)
    requires
        width > 0,
    ensures
        row_of(w, width) * width + column_of(w, width) == w,
        column_of(w, width) <= width,
        w > 0 ==> column_of(w, width) > 0,
{
    if w > 0 {
        lemma_row(w, width);
    }
}

proof fn lemma_row(w: nat, width: nat)
    requires
        width > 0,
        w > 0,
    ensures
        row_of(w, width) * width < w <= row_of(w, width) * width + width,
        row_of(w, width) < w,
{
    let r = row_of(w, width) as int;
    vstd::arithmetic::div_mod::lemma_fundamental_div_mod(w - 1, width as int);
    assert(r * width < w <= r * width + width && r < w) by (nonlinear_arith)
        requires
            w - 1 == width * r + (w - 1) % width as int,
            0 <= (w - 1) % width as int,
            ((w - 1) % (width as int)) < width,
            width > 0,
            w > 0,
            r >= 0,
    ;
}

pub fn char_row(w: usize, term_width: usize) -> (r: usize)
    ensures
        r == row_of(w as nat, term_width as nat),
{
    if term_width == 0 || w == 0 {
        0
    } else {
        (w - 1) / term_width
    }
}

pub fn char_col(w: usize, term_width: usize) -> (r: usize)
    ensures
        r == column_of(w as nat, term_width as nat),
{
    if term_width == 0 || w == 0 {
        0
    } else {
        proof {
            lemma_row(w as nat, term_width as nat);
        }
        let row = char_row(w, term_width);
        assert(row * term_width >= 0) by (nonlinear_arith)
            requires
                row >= 0,
                term_width >= 0,
        ;
        w - row * term_width
    }
}

/// What moves the cursor from the row `from` to a row that is not below it, and
/// there behind `col` cells.
pub open spec fn moved(from: nat, row: nat, col: nat) -> Seq<char> {
    (if row < from {
        up_by((from - row) as nat)
    } else {
        Seq::empty()
    }) + (if col > 0 {
        "\r\x1b["@ + numbers::digits(col) + seq!['C']
    } else {
        seq!['\r']
    })
}

pub fn move_cursor(out: &mut Out, from_row: usize, target_row: usize, target_col: usize)
    ensures
        final(out)@ == old(out)@ + moved(from_row as nat, target_row as nat, target_col as nat),
{
    let ghost before = out@;
    if target_row < from_row {
        cursor_up(out, from_row - target_row);
    }
    if target_col > 0 {
        out.s("\r\x1b[");
        write_int(out, target_col);
        out.c('C');
    } else {
        out.c('\r');
    }
    assert(out@ =~= before + moved(from_row as nat, target_row as nat, target_col as nat));
}

/// The sum, or the largest number there is room for.
pub open spec fn sum(a: nat, b: nat) -> nat {
    if a + b <= usize::MAX {
        a + b
    } else {
        usize::MAX as nat
    }
}

fn plus(a: usize, b: usize) -> (r: usize)
    ensures
        r == sum(a as nat, b as nat),
{
    if a <= usize::MAX - b {
        a + b
    } else {
        usize::MAX
    }
}

/// What puts the cursor into a row and a column, both counted from zero.
pub open spec fn placed(row: nat, col: nat) -> Seq<char> {
    "\x1b["@ + numbers::digits(sum(row, 1)) + ";"@ + numbers::digits(sum(col, 1)) + seq!['H']
}

/// The suggestion that is shown: the cursor has to be at the end of the line.
pub open spec fn shown(at_end: bool, suggestion: Option<Seq<char>>) -> Option<Seq<char>> {
    if at_end {
        suggestion
    } else {
        None
    }
}

/// The cells from the start of the prompt to the end of what is shown.
pub open spec fn cells_shown(prompt: nat, line: Seq<char>, sug: Option<Seq<char>>) -> nat {
    sum(
        prompt,
        sum(
            display_width(line),
            match sug {
                Some(s) => display_width(s),
                None => 0,
            },
        ),
    )
}

/// The cells from the start of the prompt to the cursor.
pub open spec fn cells_before(prompt: nat, line: Seq<char>, cursor: int) -> nat {
    sum(prompt, display_width(line.take(cursor)))
}

/// How many rows the prompt's last line, the line and what is suggested take.
pub open spec fn rows_shown(
    prompt: nat,
    line: Seq<char>,
    sug: Option<Seq<char>>,
    width: nat,
) -> nat {
    sum(row_of(cells_shown(prompt, line, sug), width), 1)
}

/// What goes back to where the prompt's last line starts: to the row where it
/// is known to be, or else up from the last row of what was shown before.
pub open spec fn rewound(origin: Option<usize>, rows: nat) -> Seq<char> {
    match origin {
        Some(row) => "\x1b["@ + numbers::digits(sum(row as nat, 1)) + ";1H"@,
        None => up_by((rows - 1) as nat) + seq!['\r'],
    }
}

/// The prompt's last line, the line, and what is suggested.
pub open spec fn drawn(
    caps: TermCaps,
    last_line: Seq<char>,
    line: Seq<char>,
    sug: Option<Seq<char>>,
) -> Seq<char> {
    caps.erase_to_end@ + last_line + line + (match sug {
        Some(s) => caps.dim@ + s + caps.reset@,
        None => Seq::empty(),
    })
}

/// What puts the cursor behind the first `before` of the `all` cells that were
/// drawn.
pub open spec fn settled(origin: Option<usize>, all: nat, before: nat, width: nat) -> Seq<char> {
    let row = row_of(before, width);
    let col = column_of(before, width);
    match origin {
        Some(first) => placed(sum(first as nat, row), col),
        None => moved(row_of(all, width), row, col),
    }
}

/// Puts the cursor where it belongs once all is drawn, and returns how many
/// rows are taken. The widths are those of the prompt's last line, of what was
/// drawn behind it, and of the line before the cursor.
pub fn settle_cursor(
    out: &mut Out,
    origin_row: Option<usize>,
    prompt_width: usize,
    total_width: usize,
    cursor_col_offset: usize,
    term_width: usize,
) -> (new_lines: usize)
    ensures
        final(out)@ == old(out)@ + settled(
            origin_row,
            sum(prompt_width as nat, total_width as nat),
            sum(prompt_width as nat, cursor_col_offset as nat),
            term_width as nat,
        ),
        new_lines == sum(
            row_of(sum(prompt_width as nat, total_width as nat), term_width as nat),
            1,
        ),
{
    let ghost done = out@;
    let w_end = plus(prompt_width, total_width);
    let target_w = plus(prompt_width, cursor_col_offset);
    let from_row = char_row(w_end, term_width);
    let target_row = char_row(target_w, term_width);
    let target_col = char_col(target_w, term_width);
    match origin_row {
        Some(row) => {
            out.s("\x1b[");
            write_int(out, plus(plus(row, target_row), 1));
            out.s(";");
            write_int(out, plus(target_col, 1));
            out.c('H');
        },
        None => {
            move_cursor(out, from_row, target_row, target_col);
        },
    }
    assert(out@ =~= done + settled(
        origin_row,
        w_end as nat,
        target_w as nat,
        term_width as nat,
    ));
    plus(from_row, 1)
}

/// How wide a terminal is taken to be that does not say so.
pub const USUAL_WIDTH: usize = 80;

/// How wide a terminal is, given how many columns it says that it has, if it
/// does.
pub fn columns(said: Option<u16>) -> (r: usize)
    ensures
        r == (match said {
            Some(n) => if n > 0 {
                n as usize
            } else {
                USUAL_WIDTH
            },
            None => USUAL_WIDTH,
        }),
{
    match said {
        Some(n) => {
            if n > 0 {
                n as usize
            } else {
                USUAL_WIDTH
            }
        },
        None => USUAL_WIDTH,
    }
}

/// An optional text, borrowed.
pub open spec fn opt_str(s: Option<&str>) -> Option<Seq<char>> {
    match s {
        Some(t) => Some(t@),
        None => None,
    }
}

/// Draws the line again, and returns how many rows it takes. `cursor` is the
/// place of the cursor in bytes.
pub fn refresh_line(
    out: &mut Out,
    caps: &TermCaps,
    origin_row: Option<usize>,
    prompt_width: usize,
    last_line: &str,
    line: &str,
    cursor: usize,
    prev_lines: usize,
    term_width: usize,
    suggestion: Option<&str>,
) -> (new_lines: usize)
    requires
        text::boundary(line@, cursor as int),
        origin_row is None ==> prev_lines >= 1,
    ensures
        ({
            let k = text::index_at(line@, cursor as int);
            let sug = shown(k == line@.len(), opt_str(suggestion));
            &&& final(out)@ == old(out)@ + rewound(origin_row, prev_lines as nat) + drawn(
                *caps,
                last_line@,
                line@,
                sug,
            ) + settled(
                origin_row,
                cells_shown(prompt_width as nat, line@, sug),
                cells_before(prompt_width as nat, line@, k),
                term_width as nat,
            )
            &&& new_lines == rows_shown(prompt_width as nat, line@, sug, term_width as nat)
        }),
{
    let ghost start = out@;
    let k = char_index(line, cursor);
    match origin_row {
        Some(row) => {
            out.s("\x1b[");
            write_int(out, plus(row, 1));
            out.s(";1H");
        },
        None => {
            cursor_up(out, prev_lines - 1);
            out.c('\r');
        },
    }
    assert(out@ =~= start + rewound(origin_row, prev_lines as nat));
    let ghost back = out@;
    out.s(caps.erase_to_end.as_str());
    out.s(last_line);
    out.s(line);
    let sug: Option<&str> = if k == line.unicode_len() {
        suggestion
    } else {
        None
    };
    let mut sug_width: usize = 0;
    if let Some(s) = sug {
        out.s(caps.dim.as_str());
        out.s(s);
        out.s(caps.reset.as_str());
        sug_width = width(s);
    }
    assert(out@ =~= back + drawn(*caps, last_line@, line@, opt_str(sug)));
    let total_width = plus(width(line), sug_width);
    let before = text::take(line, k);
    settle_cursor(
        out,
        origin_row,
        prompt_width,
        total_width,
        width(before.as_str()),
        term_width,
    )
}

} // verus!
