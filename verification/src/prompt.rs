//! The prompt: its escapes, and how it shows that a command failed.

use vstd::prelude::*;
use vstd::string::*;

use crate::numbers;
use crate::numbers::{pad, u64_to_string};
use crate::shell;
use crate::shell::{Shell, ShellV};
use crate::suggest;
use crate::suggest::dir_length;
use crate::text;
use crate::text::{from_range, owned, same, split_on, starts_with, to_chars};
use crate::token;

verus! {

// ---------------------------------------------------------------------------
// Colors
// ---------------------------------------------------------------------------

/// A text in lower case.
pub uninterp spec fn lowercase(s: Seq<char>) -> Seq<char>;

/// An ASCII character in lower case.
pub open spec fn ascii_lower(c: char) -> char {
    if 'A' <= c <= 'Z' {
        ((c as u8) + 32) as char
    } else {
        c
    }
}

/// `str::to_lowercase` depends on the text alone. In a text of ASCII characters
/// it changes the capital letters to small ones, and nothing else.
pub assume_specification[ str::to_lowercase ](s: &str) -> (r: String)
    ensures
        r@ == lowercase(s@),
        (forall|k: int| 0 <= k < s@.len() ==> (#[trigger] s@[k] as int) < 0x80) ==> r@.len()
            == s@.len() && forall|k: int|
            0 <= k < s@.len() ==> #[trigger] r@[k] == ascii_lower(s@[k]),
;

/// A text in lower case; in one of ASCII characters only the capital letters
/// change.
pub open spec fn lower(s: Seq<char>) -> Seq<char> {
    if forall|k: int| 0 <= k < s.len() ==> (#[trigger] s[k] as int) < 0x80 {
        Seq::new(s.len(), |k: int| ascii_lower(s[k]))
    } else {
        lowercase(s)
    }
}

/// A text in lower case.
pub fn lowered(s: &str) -> (r: String)
    ensures
        r@ == lower(s@),
        r@ == lowercase(s@),
{
    let r = s.to_lowercase();
    assert(r@ =~= lower(s@));
    r
}

/// The code of a color or a style, by its name in lower case.
pub open spec fn color_code(name: Seq<char>) -> Option<Seq<char>> {
    if name == "black"@ {
        Some("0;30"@)
    } else if name == "red"@ {
        Some("0;31"@)
    } else if name == "green"@ {
        Some("0;32"@)
    } else if name == "yellow"@ {
        Some("0;33"@)
    } else if name == "blue"@ {
        Some("0;34"@)
    } else if name == "magenta"@ {
        Some("0;35"@)
    } else if name == "cyan"@ {
        Some("0;36"@)
    } else if name == "white"@ {
        Some("0;37"@)
    } else if name == "bold"@ {
        Some("1"@)
    } else if name == "dim"@ {
        Some("2"@)
    } else if name == "italic"@ {
        Some("3"@)
    } else if name == "underline"@ {
        Some("4"@)
    } else if name == "blink"@ {
        Some("5"@)
    } else {
        None
    }
}

/// Whether a name in lower case is that of a style, and not that of a color.
pub open spec fn is_style(name: Seq<char>) -> bool {
    name == "bold"@ || name == "dim"@ || name == "italic"@ || name == "underline"@ || name
        == "blink"@
}

/// The sequence that switches a color or a style on.
pub open spec fn ansi(name: Seq<char>) -> Option<Seq<char>> {
    match color_code(name) {
        Some(code) => Some("\x1b["@ + code + "m"@),
        None => None,
    }
}

fn code_of(name: &str) -> (r: Option<&'static str>)
    ensures
        match r {
            Some(c) => color_code(name@) == Some(c@),
            None => color_code(name@) is None,
        },
{
    if same(name, "black") {
        Some("0;30")
    } else if same(name, "red") {
        Some("0;31")
    } else if same(name, "green") {
        Some("0;32")
    } else if same(name, "yellow") {
        Some("0;33")
    } else if same(name, "blue") {
        Some("0;34")
    } else if same(name, "magenta") {
        Some("0;35")
    } else if same(name, "cyan") {
        Some("0;36")
    } else if same(name, "white") {
        Some("0;37")
    } else if same(name, "bold") {
        Some("1")
    } else if same(name, "dim") {
        Some("2")
    } else if same(name, "italic") {
        Some("3")
    } else if same(name, "underline") {
        Some("4")
    } else if same(name, "blink") {
        Some("5")
    } else {
        None
    }
}

/// The sequence for a color or a style, by its name in lower case.
pub fn color_sequence(name: &str) -> (r: Option<String>)
    ensures
        shell::opt(r) == ansi(name@),
{
    match code_of(name) {
        Some(code) => {
            let mut s = owned("\x1b[");
            s.append(code);
            s.append("m");
            Some(s)
        },
        None => None,
    }
}

/// The sequence for a color or a style, by its name.
pub fn color_to_ansi(name: &str) -> (r: Option<String>)
    ensures
        shell::opt(r) == ansi(lowercase(name@)),
        shell::opt(r) == ansi(lower(name@)),
{
    let lower = lowered(name);
    color_sequence(lower.as_str())
}

/// The sequence that switches to red.
pub open spec fn red() -> Seq<char> {
    "\x1b[0;31m"@
}

/// The sequence that ends all colors and styles.
pub open spec fn plain() -> Seq<char> {
    "\x1b[0m"@
}

// ---------------------------------------------------------------------------
// Escapes
// ---------------------------------------------------------------------------

/// What a prompt can show.
pub struct PromptFacts {
    /// The current directory.
    pub cwd: String,
    /// The home directory, or nothing where it is not known.
    pub home: String,
    /// The name of the user, if it is known.
    pub user: Option<String>,
    /// The name that the environment gives the host, if it does.
    pub host: Option<String>,
    /// The name of the host.
    pub hostname: String,
    /// The number of the user that the shell acts for.
    pub euid: u32,
    /// The seconds since the epoch.
    pub secs: u64,
}

/// Whether the current directory is shown as one below the home directory.
pub open spec fn below_home(f: PromptFacts) -> bool {
    f.home@.len() > 0 && text::begins(f.cwd@, f.home@)
}

/// The current directory, with `~` for the home directory.
pub open spec fn short_dir(f: PromptFacts) -> Seq<char> {
    if below_home(f) {
        seq!['~'] + f.cwd@.skip(f.home@.len() as int)
    } else {
        f.cwd@
    }
}

/// The name of the current directory, with `~` for the home directory.
pub open spec fn dir_name(f: PromptFacts) -> Seq<char> {
    if below_home(f) && f.cwd@.len() == f.home@.len() {
        "~"@
    } else {
        f.cwd@.skip(suggest::dir_len(f.cwd@) as int)
    }
}

pub open spec fn user_name(f: PromptFacts) -> Seq<char> {
    match f.user {
        Some(u) => u@,
        None => "user"@,
    }
}

/// The name of the host up to its first dot.
pub open spec fn host_name(f: PromptFacts) -> Seq<char> {
    let h = match f.host {
        Some(h) => h@,
        None => f.hostname@,
    };
    h.take(text::until(h, '.') as int)
}

/// A number below a hundred in two digits.
pub open spec fn two_digits(n: nat) -> Seq<char> {
    numbers::padded(numbers::digits(n), 2, '0')
}

/// The time of day.
pub open spec fn clock(secs: nat) -> Seq<char> {
    let s = secs % 86400;
    two_digits(s / 3600) + ":"@ + two_digits(s % 3600 / 60) + ":"@ + two_digits(s % 60)
}

/// What an escape of one character stands for.
pub open spec fn escape_value(c: char, f: PromptFacts, failed: bool) -> Seq<char> {
    if c == 'w' {
        short_dir(f)
    } else if c == 'W' {
        dir_name(f)
    } else if c == 'u' {
        user_name(f)
    } else if c == 'h' {
        host_name(f)
    } else if c == '$' || c == '#' {
        if f.euid == 0 {
            "#"@
        } else {
            "$"@
        }
    } else if c == 't' {
        clock(f.secs as nat)
    } else if c == 'n' {
        seq!['\n']
    } else if c == '\\' {
        seq!['\\']
    } else if c == '%' {
        seq!['%']
    } else if c == 'f' {
        if failed {
            plain() + red()
        } else {
            plain()
        }
    } else {
        seq!['\\', c]
    }
}

/// What the escape for a color stands for. In a prompt that shows a failure
/// every color is red.
pub open spec fn color_value(name: Seq<char>, failed: bool) -> Seq<char> {
    let l = lower(name);
    match ansi(l) {
        Some(code) => if failed && !is_style(l) {
            red()
        } else {
            code
        },
        None => Seq::empty(),
    }
}

/// The place after the text from `i` up to the next `c`.
pub open spec fn after_closing(s: Seq<char>, i: int, c: char) -> int {
    let j = i + text::until(s.skip(i), c);
    if j < s.len() {
        j + 1
    } else {
        s.len() as int
    }
}

/// The text from `i` up to the next `c`, or up to the end.
pub open spec fn up_to(s: Seq<char>, i: int, c: char) -> Seq<char> {
    s.subrange(i, i + text::until(s.skip(i), c))
}

/// Where the name of a color starts: behind a brace, if there is one.
pub open spec fn color_start(s: Seq<char>, i: int) -> int {
    if token::char_at(s, i) == Some('{') {
        i + 1
    } else {
        i
    }
}

pub proof fn lemma_after_closing(s: Seq<char>, i: int, c: char)
    requires
        0 <= i <= s.len(),
    ensures
        i <= after_closing(s, i, c) <= s.len(),
{
    text::lemma_until(s.skip(i), c);
}

/// The prompt from place `i` of its description on, behind `acc`.
pub open spec fn rendered_from(
    s: Seq<char>,
    i: int,
    acc: Seq<char>,
    f: PromptFacts,
    failed: bool,
) -> Seq<char>
    decreases s.len() - i,
{
    if i < 0 || i >= s.len() {
        acc
    } else if s[i] != '\\' && s[i] != '%' {
        rendered_from(s, i + 1, acc.push(s[i]), f, failed)
    } else {
        match token::char_at(s, i + 1) {
            None => acc,
            Some(c) => if c == '[' {
                proof {
                    lemma_after_closing(s, i + 2, ']');
                }
                rendered_from(
                    s,
                    after_closing(s, i + 2, ']'),
                    acc + up_to(s, i + 2, ']'),
                    f,
                    failed,
                )
            } else if c == 'F' {
                let k = color_start(s, i + 2);
                proof {
                    lemma_after_closing(s, k, '}');
                }
                rendered_from(
                    s,
                    after_closing(s, k, '}'),
                    acc + color_value(up_to(s, k, '}'), failed),
                    f,
                    failed,
                )
            } else {
                rendered_from(s, i + 2, acc + escape_value(c, f, failed), f, failed)
            },
        }
    }
}

/// The prompt with this description.
pub open spec fn rendered(s: Seq<char>, f: PromptFacts, failed: bool) -> Seq<char> {
    rendered_from(s, 0, Seq::empty(), f, failed)
}

fn two(n: u64) -> (r: String)
    ensures
        r@ == two_digits(n as nat),
{
    pad(u64_to_string(n).as_str(), 2, '0')
}

fn clock_text(secs: u64) -> (r: String)
    ensures
        r@ == clock(secs as nat),
{
    let s = secs % 86400;
    let mut r = two(s / 3600);
    r.append(":");
    r.append(two(s % 3600 / 60).as_str());
    r.append(":");
    r.append(two(s % 60).as_str());
    r
}

fn is_below_home(f: &PromptFacts) -> (r: bool)
    ensures
        r == below_home(*f),
{
    f.home.as_str().unicode_len() > 0 && starts_with(f.cwd.as_str(), f.home.as_str())
}

fn current_dir(f: &PromptFacts) -> (r: String)
    ensures
        r@ == short_dir(*f),
{
    if is_below_home(f) {
        let mut r = owned("~");
        proof {
            reveal_strlit("~");
        }
        r.append(text::skip(f.cwd.as_str(), f.home.as_str().unicode_len()).as_str());
        assert(r@ =~= short_dir(*f));
        r
    } else {
        f.cwd.clone()
    }
}

fn current_name(f: &PromptFacts) -> (r: String)
    ensures
        r@ == dir_name(*f),
{
    if is_below_home(f) && f.cwd.as_str().unicode_len() == f.home.as_str().unicode_len() {
        owned("~")
    } else {
        let v = to_chars(f.cwd.as_str());
        let n = dir_length(&v);
        assert(v@.subrange(n as int, v.len() as int) =~= v@.skip(n as int));
        from_range(&v, n, v.len())
    }
}

fn host(f: &PromptFacts) -> (r: String)
    ensures
        r@ == host_name(*f),
{
    let h = match &f.host {
        Some(h) => h.as_str(),
        None => f.hostname.as_str(),
    };
    match text::index_of(h, '.') {
        Some(k) => text::take(h, k),
        None => {
            assert(h@.take(h@.len() as int) =~= h@);
            owned(h)
        },
    }
}

fn escape(c: char, f: &PromptFacts, failed: bool) -> (r: String)
    ensures
        r@ == escape_value(c, *f, failed),
{
    if c == 'w' {
        current_dir(f)
    } else if c == 'W' {
        current_name(f)
    } else if c == 'u' {
        match &f.user {
            Some(u) => u.clone(),
            None => owned("user"),
        }
    } else if c == 'h' {
        host(f)
    } else if c == '$' || c == '#' {
        if f.euid == 0 {
            owned("#")
        } else {
            owned("$")
        }
    } else if c == 't' {
        clock_text(f.secs)
    } else if c == 'f' {
        let mut r = owned("\x1b[0m");
        if failed {
            r.append("\x1b[0;31m");
        }
        r
    } else {
        let mut r = String::new();
        assert(r@ =~= Seq::empty());
        if c == 'n' {
            r.push('\n');
            assert(r@ =~= seq!['\n']);
        } else if c == '\\' || c == '%' {
            r.push(c);
            assert(r@ =~= seq![c]);
        } else {
            r.push('\\');
            r.push(c);
            assert(r@ =~= seq!['\\', c]);
        }
        r
    }
}

fn is_style_name(name: &str) -> (r: bool)
    ensures
        r == is_style(name@),
{
    same(name, "bold") || same(name, "dim") || same(name, "italic") || same(name, "underline")
        || same(name, "blink")
}

/// What a prompt shows for a color, by its name in lower case.
pub fn prompt_color(lower: &str, failed: bool) -> (r: String)
    ensures
        r@ == match ansi(lower@) {
            Some(code) => if failed && !is_style(lower@) {
                red()
            } else {
                code
            },
            None => Seq::empty(),
        },
{
    match color_sequence(lower) {
        Some(code) => {
            if failed && !is_style_name(lower) {
                owned("\x1b[0;31m")
            } else {
                code
            }
        },
        None => {
            let r = String::new();
            assert(r@ =~= Seq::empty());
            r
        },
    }
}

/// Where the text from `from` up to the next `c` ends.
pub fn closing_at(v: &Vec<char>, from: usize, c: char) -> (r: usize)
    requires
        from <= v.len(),
    ensures
        r == from + text::until(v@.skip(from as int), c),
        from <= r <= v.len(),
        r < v.len() ==> v@[r as int] == c,
{
    let mut i: usize = from;
    let ghost rest = v@.skip(from as int);
    while i < v.len() && v[i] != c
        invariant
            from <= i <= v.len(),
            rest == v@.skip(from as int),
            text::until(rest, c) == (i - from) + text::until(v@.skip(i as int), c),
        decreases v.len() - i,
    {
        assert(v@.skip(i as int).drop_first() =~= v@.skip(i + 1));
        i += 1;
    }
    i
}

/// The prompt with this description.
pub fn render_ps1_format(fmt: &str, f: &PromptFacts, failed: bool) -> (r: String)
    ensures
        r@ == rendered(fmt@, *f, failed),
{
    let v = to_chars(fmt);
    let mut out = String::new();
    let mut i: usize = 0;
    assert(out@ =~= Seq::empty());
    while i < v.len()
        invariant
            i <= v.len(),
            v@ == fmt@,
            rendered_from(v@, i as int, out@, *f, failed) == rendered(fmt@, *f, failed),
        decreases v.len() - i,
    {
        if v[i] != '\\' && v[i] != '%' {
            out.push(v[i]);
            i += 1;
            continue;
        }
        if i + 1 == v.len() {
            return out;
        }
        let c = v[i + 1];
        if c == '[' {
            let end = closing_at(&v, i + 2, ']');
            out.append(from_range(&v, i + 2, end).as_str());
            i = if end < v.len() {
                end + 1
            } else {
                end
            };
        } else if c == 'F' {
            let start = if i + 2 < v.len() && v[i + 2] == '{' {
                i + 3
            } else {
                i + 2
            };
            assert(start == color_start(v@, i + 2));
            let end = closing_at(&v, start, '}');
            let name = from_range(&v, start, end);
            let lower = lowered(name.as_str());
            out.append(prompt_color(lower.as_str(), failed).as_str());
            i = if end < v.len() {
                end + 1
            } else {
                end
            };
        } else {
            out.append(escape(c, f, failed).as_str());
            i += 2;
        }
    }
    out
}

// ---------------------------------------------------------------------------
// Failure
// ---------------------------------------------------------------------------

/// Whether the prompt shows that the last command failed.
pub open spec fn shows_failure(s: ShellV) -> bool {
    s.prompt_on_failure && s.last_exit != 0
}

/// Each line in red.
pub open spec fn reddened(ls: Seq<Seq<char>>) -> Seq<Seq<char>> {
    Seq::new(ls.len(), |k: int| red() + ls[k] + plain())
}

/// The prompt with this description, in red where the last command failed and
/// this is to be shown. Each line has its own color, since the last one is
/// drawn again by itself.
pub open spec fn prompt_of(fmt: Seq<char>, f: PromptFacts, s: ShellV) -> Seq<char> {
    let p = rendered(fmt, f, shows_failure(s));
    if shows_failure(s) && p.len() > 0 {
        text::joined(reddened(text::pieces(p, "\n"@)), "\n"@)
    } else {
        p
    }
}

/// The prompt with this description.
pub fn render_format(fmt: &str, f: &PromptFacts, shell: &Shell) -> (r: String)
    ensures
        r@ == prompt_of(fmt@, *f, shell@),
{
    let failed = shell.prompt_on_failure && shell.last_exit != 0;
    let p = render_ps1_format(fmt, f, failed);
    if !failed || p.as_str().unicode_len() == 0 {
        return p;
    }
    proof {
        reveal_strlit("\n");
    }
    let ls = split_on(p.as_str(), "\n");
    let ghost all = text::texts(ls@);
    let mut colored: Vec<String> = Vec::new();
    let mut i: usize = 0;
    while i < ls.len()
        invariant
            i <= ls.len(),
            colored.len() == i,
            all == text::texts(ls@),
            forall|k: int| 0 <= k < i ==> (#[trigger] colored@[k])@ == red() + all[k] + plain(),
        decreases ls.len() - i,
    {
        assert(all[i as int] == ls@[i as int]@);
        let mut line = owned("\x1b[0;31m");
        line.append(ls[i].as_str());
        line.append("\x1b[0m");
        colored.push(line);
        i += 1;
    }
    assert(text::texts(colored@) =~= reddened(all));
    text::join(&colored, "\n")
}

/// The description of a prompt that the environment gives, or the usual one.
pub open spec fn description(ps1: Option<Seq<char>>) -> Seq<char> {
    match ps1 {
        Some(s) => s,
        None => "\\u@\\h \\$ "@,
    }
}

/// The prompt that the environment describes, or else the usual one.
pub fn render_prompt(ps1: &Option<String>, f: &PromptFacts, shell: &Shell) -> (r: String)
    ensures
        r@ == prompt_of(description(shell::opt(*ps1)), *f, shell@),
{
    match ps1 {
        Some(s) => render_format(s.as_str(), f, shell),
        None => render_format("\\u@\\h \\$ ", f, shell),
    }
}

// ---------------------------------------------------------------------------
// What holds of all prompts
// ---------------------------------------------------------------------------

proof fn lemma_plain_text(s: Seq<char>, i: int, acc: Seq<char>, f: PromptFacts, failed: bool)
    requires
        0 <= i <= s.len(),
        forall|k: int| i <= k < s.len() ==> #[trigger] s[k] != '\\' && s[k] != '%',
    ensures
        rendered_from(s, i, acc, f, failed) == acc + s.skip(i),
    decreases s.len() - i,
{
    if i < s.len() {
        lemma_plain_text(s, i + 1, acc.push(s[i]), f, failed);
        assert(acc.push(s[i]) + s.skip(i + 1) =~= acc + s.skip(i));
    } else {
        assert(acc + s.skip(i) =~= acc);
    }
}

/// Text without escapes is shown as it is.
pub proof fn law_text_is_shown(s: Seq<char>, f: PromptFacts, failed: bool)
    requires
        !s.contains('\\'),
        !s.contains('%'),
    ensures
        rendered(s, f, failed) == s,
{
    assert forall|k: int| 0 <= k < s.len() implies #[trigger] s[k] != '\\' && s[k] != '%' by {
        assert(s.contains(s[k]));
    }
    lemma_plain_text(s, 0, Seq::empty(), f, failed);
    assert(Seq::empty() + s.skip(0) =~= s);
}

/// The prompt of a shell whose last command did not fail, or that is told not
/// to show failures, does not depend on exit codes.
pub proof fn law_unchanged_without_failure(fmt: Seq<char>, f: PromptFacts, a: ShellV, b: ShellV)
    requires
        a.last_exit == 0 || !a.prompt_on_failure,
        b.last_exit == 0 || !b.prompt_on_failure,
    ensures
        prompt_of(fmt, f, a) == prompt_of(fmt, f, b),
        prompt_of(fmt, f, a) == rendered(fmt, f, false),
{
}

/// Where a failure is shown, every line of the prompt starts in red.
pub proof fn law_failure_is_red(fmt: Seq<char>, f: PromptFacts, s: ShellV)
    requires
        s.last_exit != 0,
        s.prompt_on_failure,
        rendered(fmt, f, true).len() > 0,
    ensures
        prompt_of(fmt, f, s) == text::joined(
            reddened(text::pieces(rendered(fmt, f, true), "\n"@)),
            "\n"@,
        ),
        forall|k: int|
            0 <= k < reddened(text::pieces(rendered(fmt, f, true), "\n"@)).len() ==> text::begins(
                #[trigger] reddened(text::pieces(rendered(fmt, f, true), "\n"@))[k],
                red(),
            ),
{
    let ls = text::pieces(rendered(fmt, f, true), "\n"@);
    assert forall|k: int| 0 <= k < reddened(ls).len() implies text::begins(
        #[trigger] reddened(ls)[k],
        red(),
    ) by {
        assert(reddened(ls)[k] == red() + ls[k] + plain());
        assert((red() + ls[k] + plain()).take(red().len() as int) =~= red());
    }
}

} // verus!
