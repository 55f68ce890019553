//! What holds of prompts: what each escape shows, and that they show it one
//! behind the other.

use vstd::prelude::*;
use vstd::string::*;

use crate::numbers;
use crate::prompt;
use crate::prompt::PromptFacts;
use crate::suggest;
use crate::text;

verus! {

// ---------------------------------------------------------------------------
// One behind the other
// ---------------------------------------------------------------------------

/// A piece of the description of a prompt.
pub enum Piece {
    /// Characters that are shown as they are.
    Text(Seq<char>),
    /// An escape of one character, behind a `\` or a `%`.
    Escape(char, char),
    /// A color or a style by its name, in braces.
    Color(char, Seq<char>),
    /// What is not to be counted as text, in brackets.
    Hidden(char, Seq<char>),
}

pub open spec fn leads(c: char) -> bool {
    c == '\\' || c == '%'
}

pub open spec fn written_piece(p: Piece) -> Seq<char> {
    match p {
        Piece::Text(t) => t,
        Piece::Escape(lead, c) => seq![lead, c],
        Piece::Color(lead, name) => seq![lead, 'F', '{'] + name + seq!['}'],
        Piece::Hidden(lead, t) => seq![lead, '['] + t + seq![']'],
    }
}

pub open spec fn piece_ok(p: Piece) -> bool {
    match p {
        Piece::Text(t) => !t.contains('\\') && !t.contains('%'),
        Piece::Escape(lead, c) => leads(lead) && c != '[' && c != 'F',
        Piece::Color(lead, name) => leads(lead) && !name.contains('}'),
        Piece::Hidden(lead, t) => leads(lead) && !t.contains(']'),
    }
}

pub open spec fn written(ps: Seq<Piece>) -> Seq<char>
    decreases ps.len(),
{
    if ps.len() == 0 {
        Seq::empty()
    } else {
        written_piece(ps[0]) + written(ps.drop_first())
    }
}

/// What the pieces show when each stands alone, one behind the other.
pub open spec fn shown_alone(ps: Seq<Piece>, f: PromptFacts, failed: bool) -> Seq<char>
    decreases ps.len(),
{
    if ps.len() == 0 {
        Seq::empty()
    } else {
        prompt::rendered(written_piece(ps[0]), f, failed) + shown_alone(
            ps.drop_first(),
            f,
            failed,
        )
    }
}

spec fn at(s: Seq<char>, i: int, p: Seq<char>) -> bool {
    &&& 0 <= i
    &&& i + p.len() <= s.len()
    &&& forall|k: int| 0 <= k < p.len() ==> s[i + k] == #[trigger] p[k]
}

proof fn lemma_at_add(s: Seq<char>, i: int, p: Seq<char>, q: Seq<char>)
    requires
        at(s, i, p + q),
    ensures
        at(s, i, p),
        at(s, i + p.len(), q),
{
    assert forall|k: int| 0 <= k < p.len() implies s[i + k] == #[trigger] p[k] by {
        assert((p + q)[k] == p[k]);
    }
    assert forall|k: int| 0 <= k < q.len() implies s[i + p.len() + k] == #[trigger] q[k] by {
        assert((p + q)[p.len() + k] == q[k]);
    }
}

proof fn lemma_closing(s: Seq<char>, i: int, t: Seq<char>, c: char)
    requires
        at(s, i, t + seq![c]),
        !t.contains(c),
    ensures
        prompt::after_closing(s, i, c) == i + t.len() + 1,
        prompt::up_to(s, i, c) == t,
{
    let rest = s.skip(i);
    text::lemma_until(rest, c);
    let u = text::until(rest, c) as int;
    assert(s[i + t.len()] == (t + seq![c])[t.len() as int]);
    assert(rest[t.len() as int] == c);
    if u < t.len() {
        assert(s[i + u] == (t + seq![c])[u]);
        assert(t.contains(t[u]));
    }
    assert(u == t.len());
    assert(s.subrange(i, i + u) =~= t) by {
        assert forall|k: int| 0 <= k < t.len() implies s[i + k] == t[k] by {
            assert(s[i + k] == (t + seq![c])[k]);
        }
    }
}

/// What a piece adds to what is shown.
spec fn adds(p: Piece, f: PromptFacts, failed: bool) -> Seq<char> {
    match p {
        Piece::Text(t) => t,
        Piece::Escape(_, c) => prompt::escape_value(c, f, failed),
        Piece::Color(_, name) => prompt::color_value(name, failed),
        Piece::Hidden(_, t) => t,
    }
}

proof fn lemma_text(s: Seq<char>, i: int, t: Seq<char>, acc: Seq<char>, f: PromptFacts, failed: bool)
    requires
        at(s, i, t),
        !t.contains('\\'),
        !t.contains('%'),
    ensures
        prompt::rendered_from(s, i, acc, f, failed) == prompt::rendered_from(
            s,
            i + t.len(),
            acc + t,
            f,
            failed,
        ),
    decreases t.len(),
{
    if t.len() == 0 {
        assert(acc + t =~= acc);
    } else {
        let rest = t.drop_first();
        assert(s[i + 0] == t[0]);
        assert(t.contains(t[0]));
        assert forall|k: int| 0 <= k < rest.len() implies s[i + 1 + k] == #[trigger] rest[k] by {
            assert(s[i + (k + 1)] == t[k + 1]);
        }
        assert forall|c: char| rest.contains(c) implies t.contains(c) by {
            let k = rest.index_of(c);
            assert(t[k + 1] == c);
        }
        lemma_text(s, i + 1, rest, acc.push(t[0]), f, failed);
        assert(acc.push(t[0]) + rest =~= acc + t);
    }
}

proof fn lemma_piece(s: Seq<char>, i: int, p: Piece, acc: Seq<char>, f: PromptFacts, failed: bool)
    requires
        at(s, i, written_piece(p)),
        piece_ok(p),
    ensures
        prompt::rendered_from(s, i, acc, f, failed) == prompt::rendered_from(
            s,
            i + written_piece(p).len(),
            acc + adds(p, f, failed),
            f,
            failed,
        ),
{
    let w = written_piece(p);
    match p {
        Piece::Text(t) => {
            lemma_text(s, i, t, acc, f, failed);
        },
        Piece::Escape(_, _) => {
            assert(s[i + 0] == w[0]);
            assert(s[i + 1] == w[1]);
        },
        Piece::Color(lead, name) => {
            assert(s[i + 0] == w[0]);
            assert(s[i + 1] == w[1]);
            assert(s[i + 2] == w[2]);
            assert(w =~= seq![lead, 'F', '{'] + (name + seq!['}']));
            lemma_at_add(s, i, seq![lead, 'F', '{'], name + seq!['}']);
            lemma_closing(s, i + 3, name, '}');
        },
        Piece::Hidden(lead, t) => {
            assert(s[i + 0] == w[0]);
            assert(s[i + 1] == w[1]);
            assert(w =~= seq![lead, '['] + (t + seq![']']));
            lemma_at_add(s, i, seq![lead, '['], t + seq![']']);
            lemma_closing(s, i + 2, t, ']');
        },
    }
}

proof fn lemma_alone(p: Piece, f: PromptFacts, failed: bool)
    requires
        piece_ok(p),
    ensures
        prompt::rendered(written_piece(p), f, failed) == adds(p, f, failed),
{
    let w = written_piece(p);
    lemma_piece(w, 0, p, Seq::empty(), f, failed);
    assert(Seq::empty() + adds(p, f, failed) =~= adds(p, f, failed));
}

proof fn lemma_pieces(
    s: Seq<char>,
    i: int,
    ps: Seq<Piece>,
    acc: Seq<char>,
    f: PromptFacts,
    failed: bool,
)
    requires
        at(s, i, written(ps)),
        forall|k: int| 0 <= k < ps.len() ==> piece_ok(#[trigger] ps[k]),
    ensures
        prompt::rendered_from(s, i, acc, f, failed) == prompt::rendered_from(
            s,
            i + written(ps).len(),
            acc + shown_alone(ps, f, failed),
            f,
            failed,
        ),
    decreases ps.len(),
{
    if ps.len() == 0 {
        assert(acc + shown_alone(ps, f, failed) =~= acc);
    } else {
        let rest = ps.drop_first();
        let w = written_piece(ps[0]);
        assert(piece_ok(ps[0]));
        lemma_at_add(s, i, w, written(rest));
        lemma_piece(s, i, ps[0], acc, f, failed);
        lemma_alone(ps[0], f, failed);
        let a = acc + adds(ps[0], f, failed);
        assert forall|k: int| 0 <= k < rest.len() implies piece_ok(#[trigger] rest[k]) by {
            assert(rest[k] == ps[k + 1]);
        }
        lemma_pieces(s, i + w.len(), rest, a, f, failed);
        assert(a + shown_alone(rest, f, failed) =~= acc + shown_alone(ps, f, failed));
    }
}

/// The pieces of a prompt show what each shows alone, one behind the other.
pub proof fn law_pieces_are_shown_in_turn(ps: Seq<Piece>, f: PromptFacts, failed: bool)
    requires
        forall|k: int| 0 <= k < ps.len() ==> piece_ok(#[trigger] ps[k]),
    ensures
        prompt::rendered(written(ps), f, failed) == shown_alone(ps, f, failed),
{
    lemma_pieces(written(ps), 0, ps, Seq::empty(), f, failed);
    assert(Seq::empty() + shown_alone(ps, f, failed) =~= shown_alone(ps, f, failed));
}

/// What an escape of one character shows when it stands alone.
pub open spec fn shows(lead: char, c: char, f: PromptFacts, failed: bool) -> Seq<char> {
    prompt::rendered(seq![lead, c], f, failed)
}

proof fn lemma_shows(lead: char, c: char, f: PromptFacts, failed: bool)
    requires
        leads(lead),
        c != '[',
        c != 'F',
    ensures
        shows(lead, c, f, failed) == prompt::escape_value(c, f, failed),
{
    lemma_alone(Piece::Escape(lead, c), f, failed);
}

// ---------------------------------------------------------------------------
// Directories
// ---------------------------------------------------------------------------

proof fn lemma_after_last_slash(s: Seq<char>)
    ensures
        suggest::dir_len(s) <= s.len(),
        !s.skip(suggest::dir_len(s) as int).contains('/'),
        suggest::dir_len(s) > 0 ==> s[suggest::dir_len(s) - 1] == '/',
    decreases s.len(),
{
    if s.len() > 0 && s.last() != '/' {
        let front = s.drop_last();
        lemma_after_last_slash(front);
        let n = suggest::dir_len(s) as int;
        let name = s.skip(n);
        if name.contains('/') {
            let k = name.index_of('/');
            assert(s[n + k] == '/');
            if n + k < front.len() {
                assert(front.skip(n)[k] == '/');
                assert(front.skip(n).contains('/'));
            }
        }
    }
}

/// `\W` shows the last part of the current directory: it holds no `/`, and the
/// directory ends with it, behind a `/` where it is not the whole. The home
/// directory itself is shown as `~`.
pub proof fn law_name_of_directory(lead: char, f: PromptFacts, failed: bool)
    requires
        leads(lead),
    ensures
        ({
            let name = shows(lead, 'W', f, failed);
            let cwd = f.cwd@;
            let home = f.home@;
            &&& home.len() > 0 && cwd == home ==> name == seq!['~']
            &&& home.len() == 0 || cwd != home ==> {
                &&& !name.contains('/')
                &&& name.len() <= cwd.len()
                &&& cwd.skip(cwd.len() - name.len()) == name
                &&& name.len() < cwd.len() ==> cwd[cwd.len() - name.len() - 1] == '/'
            }
        }),
{
    lemma_shows(lead, 'W', f, failed);
    let cwd = f.cwd@;
    let home = f.home@;
    let name = shows(lead, 'W', f, failed);
    reveal_strlit("~");
    assert("~"@ =~= seq!['~']);
    if cwd == home {
        assert(cwd.take(home.len() as int) =~= home);
    } else if cwd.len() == home.len() {
        assert(cwd.take(home.len() as int) =~= cwd);
    }
    lemma_after_last_slash(cwd);
    if home.len() == 0 || cwd != home {
        assert(cwd.skip(cwd.len() - name.len()) =~= name);
    }
}

/// `\w` shows the current directory, with `~` for the home directory where the
/// current one starts with it.
pub proof fn law_path_of_directory(lead: char, f: PromptFacts, failed: bool, rest: Seq<char>)
    requires
        leads(lead),
    ensures
        f.home@.len() > 0 && f.cwd@ == f.home@ + rest ==> shows(lead, 'w', f, failed) == seq!['~']
            + rest,
        f.home@.len() == 0 ==> shows(lead, 'w', f, failed) == f.cwd@,
        (forall|r: Seq<char>| f.cwd@ != #[trigger] (f.home@ + r)) ==> shows(
            lead,
            'w',
            f,
            failed,
        ) == f.cwd@,
{
    lemma_shows(lead, 'w', f, failed);
    let cwd = f.cwd@;
    let home = f.home@;
    if home.len() > 0 && cwd == home + rest {
        assert(cwd.take(home.len() as int) =~= home);
        assert(cwd.skip(home.len() as int) =~= rest);
    }
    if text::begins(cwd, home) {
        assert(cwd =~= home + cwd.skip(home.len() as int));
    }
}

// ---------------------------------------------------------------------------
// Names and signs
// ---------------------------------------------------------------------------

proof fn lemma_until_dot(a: Seq<char>, b: Seq<char>)
    requires
        !a.contains('.'),
        b.len() > 0 ==> b[0] == '.',
    ensures
        text::until(a + b, '.') == a.len(),
    decreases a.len(),
{
    let s = a + b;
    if a.len() > 0 {
        assert(a.contains(a[0]));
        assert(s[0] == a[0]);
        assert(s.drop_first() =~= a.drop_first() + b);
        assert(!a.drop_first().contains('.')) by {
            if a.drop_first().contains('.') {
                let k = a.drop_first().index_of('.');
                assert(a[k + 1] == '.');
            }
        }
        lemma_until_dot(a.drop_first(), b);
    } else {
        assert(s =~= b);
    }
}

/// `\u` shows the user, and `\h` the host up to its first dot; the name that the
/// environment gives the host comes before its own.
pub proof fn law_user_and_host(
    lead: char,
    f: PromptFacts,
    failed: bool,
    a: Seq<char>,
    b: Seq<char>,
)
    requires
        leads(lead),
        !a.contains('.'),
        b.len() > 0 ==> b[0] == '.',
    ensures
        f.user matches Some(u) ==> shows(lead, 'u', f, failed) == u@,
        f.user is None ==> shows(lead, 'u', f, failed) == "user"@,
        (f.host matches Some(h) && h@ == a + b) ==> shows(lead, 'h', f, failed) == a,
        f.host is None && f.hostname@ == a + b ==> shows(lead, 'h', f, failed) == a,
{
    lemma_shows(lead, 'u', f, failed);
    lemma_shows(lead, 'h', f, failed);
    lemma_until_dot(a, b);
    assert((a + b).take(a.len() as int) =~= a);
}

/// `\$` and `\#` show a `#` to the user with the number zero, and a `$` to all
/// others. `\n` ends the line, a doubled `\` or `%` is one, `\f` ends colors, and
/// a character that is no escape keeps its backslash.
pub proof fn law_signs(lead: char, c: char, f: PromptFacts, failed: bool)
    requires
        leads(lead),
    ensures
        f.euid == 0 ==> shows(lead, '$', f, failed) == seq!['#'] && shows(lead, '#', f, failed)
            == seq!['#'],
        f.euid != 0 ==> shows(lead, '$', f, failed) == seq!['$'] && shows(lead, '#', f, failed)
            == seq!['$'],
        shows(lead, 'n', f, failed) == seq!['\n'],
        shows(lead, '\\', f, failed) == seq!['\\'],
        shows(lead, '%', f, failed) == seq!['%'],
        shows(lead, 'f', f, false) == "\x1b[0m"@,
        shows(lead, 'f', f, true) == "\x1b[0m"@ + "\x1b[0;31m"@,
        !"wWuh$#tn\\%f[F"@.contains(c) ==> shows(lead, c, f, failed) == seq!['\\', c],
{
    lemma_shows(lead, '$', f, failed);
    lemma_shows(lead, '#', f, failed);
    lemma_shows(lead, 'n', f, failed);
    lemma_shows(lead, '\\', f, failed);
    lemma_shows(lead, '%', f, failed);
    lemma_shows(lead, 'f', f, false);
    lemma_shows(lead, 'f', f, true);
    reveal_strlit("#");
    reveal_strlit("$");
    assert("#"@ =~= seq!['#']);
    assert("$"@ =~= seq!['$']);
    reveal_strlit("wWuh$#tn\\%f[F");
    let all = "wWuh$#tn\\%f[F"@;
    assert(all[0] == 'w' && all[1] == 'W' && all[2] == 'u' && all[3] == 'h' && all[4] == '$'
        && all[5] == '#' && all[6] == 't' && all[7] == 'n' && all[8] == '\\' && all[9] == '%'
        && all[10] == 'f' && all[11] == '[' && all[12] == 'F');
    if !all.contains(c) {
        assert(c != '[' && c != 'F');
        lemma_shows(lead, c, f, failed);
    }
}

/// What stands in brackets is shown as it is, without the brackets.
pub proof fn law_hidden_text_is_shown(lead: char, t: Seq<char>, f: PromptFacts, failed: bool)
    requires
        leads(lead),
        !t.contains(']'),
    ensures
        prompt::rendered(seq![lead, '['] + t + seq![']'], f, failed) == t,
{
    lemma_alone(Piece::Hidden(lead, t), f, failed);
}

// ---------------------------------------------------------------------------
// The time
// ---------------------------------------------------------------------------

/// A number below a hundred in two digits.
pub open spec fn in_two_digits(n: int) -> Seq<char> {
    seq![('0' as int + n / 10) as char, ('0' as int + n % 10) as char]
}

proof fn lemma_two_digits(n: nat)
    requires
        n < 100,
    ensures
        prompt::two_digits(n) == in_two_digits(n as int),
{
    if n < 10 {
        assert(numbers::digits(n) == seq![numbers::digit(n as int)]);
        assert(prompt::two_digits(n) =~= in_two_digits(n as int));
    } else {
        assert(n / 10 < 10);
        assert(numbers::digits(n / 10) == seq![numbers::digit((n / 10) as int)]);
        assert(numbers::digits(n) =~= seq![
            numbers::digit((n / 10) as int),
            numbers::digit((n % 10) as int),
        ]);
        assert(prompt::two_digits(n) =~= in_two_digits(n as int));
    }
}

/// `\t` shows the time of day: the hours, minutes and seconds that have passed
/// since the last midnight, in two digits each.
pub proof fn law_time_of_day(
    lead: char,
    f: PromptFacts,
    failed: bool,
    days: int,
    h: int,
    m: int,
    s: int,
)
    requires
        leads(lead),
        days >= 0,
        0 <= h < 24,
        0 <= m < 60,
        0 <= s < 60,
        f.secs == days * 86400 + h * 3600 + m * 60 + s,
    ensures
        shows(lead, 't', f, failed) == in_two_digits(h) + seq![':'] + in_two_digits(m) + seq![':']
            + in_two_digits(s),
{
    lemma_shows(lead, 't', f, failed);
    let t = h * 3600 + m * 60 + s;
    assert(0 <= t < 86400);
    assert(f.secs as int % 86400 == t) by {
        vstd::arithmetic::div_mod::lemma_fundamental_div_mod_converse(
            f.secs as int,
            86400,
            days,
            t,
        );
    }
    assert(t / 3600 == h) by {
        vstd::arithmetic::div_mod::lemma_fundamental_div_mod_converse(t, 3600, h, m * 60 + s);
    }
    assert(t % 3600 == m * 60 + s) by {
        vstd::arithmetic::div_mod::lemma_fundamental_div_mod_converse(t, 3600, h, m * 60 + s);
    }
    assert((m * 60 + s) / 60 == m) by {
        vstd::arithmetic::div_mod::lemma_fundamental_div_mod_converse(m * 60 + s, 60, m, s);
    }
    assert(t % 60 == s) by {
        vstd::arithmetic::div_mod::lemma_fundamental_div_mod_converse(t, 60, h * 60 + m, s);
    }
    lemma_two_digits(h as nat);
    lemma_two_digits(m as nat);
    lemma_two_digits(s as nat);
    reveal_strlit(":");
    assert(":"@ =~= seq![':']);
}

// ---------------------------------------------------------------------------
// Colors
// ---------------------------------------------------------------------------

/// The names of the colors, in the order of their numbers.
pub open spec fn color_names() -> Seq<Seq<char>> {
    seq![
        "black"@,
        "red"@,
        "green"@,
        "yellow"@,
        "blue"@,
        "magenta"@,
        "cyan"@,
        "white"@,
    ]
}

/// The names of the styles, in the order of their numbers.
pub open spec fn style_names() -> Seq<Seq<char>> {
    seq!["bold"@, "dim"@, "italic"@, "underline"@, "blink"@]
}

/// Whether `t` is the ASCII text `s` with some of its small letters as capitals.
pub open spec fn same_but_for_case(t: Seq<char>, s: Seq<char>) -> bool {
    &&& t.len() == s.len()
    &&& forall|k: int|
        0 <= k < t.len() ==> (#[trigger] t[k] as int) < 0x80 && (t[k] == s[k] && !('A' <= t[k]
            <= 'Z') || 'A' <= t[k] <= 'Z' && t[k] as int + 32 == s[k] as int)
}

proof fn lemma_lower(t: Seq<char>, s: Seq<char>)
    requires
        same_but_for_case(t, s),
    ensures
        prompt::lower(t) == s,
{
    assert forall|k: int| 0 <= k < t.len() implies prompt::lower(t)[k] == s[k] by {
        assert((t[k] as int) < 0x80);
    }
    assert(prompt::lower(t) =~= s);
}

proof fn lemma_codes()
    ensures
        forall|k: int|
            0 <= k < 8 ==> #[trigger] color_names()[k].len() > 0 && prompt::ansi(color_names()[k])
                == Some(seq!['\x1b', '[', '0', ';', '3', ('0' as int + k) as char, 'm'])
                && !prompt::is_style(color_names()[k]),
        forall|k: int|
            0 <= k < 5 ==> #[trigger] style_names()[k].len() > 0 && prompt::ansi(style_names()[k])
                == Some(seq!['\x1b', '[', ('1' as int + k) as char, 'm']) && prompt::is_style(
                style_names()[k],
            ),
{
    reveal_strlit("black");
    reveal_strlit("red");
    reveal_strlit("green");
    reveal_strlit("yellow");
    reveal_strlit("blue");
    reveal_strlit("magenta");
    reveal_strlit("cyan");
    reveal_strlit("white");
    reveal_strlit("bold");
    reveal_strlit("dim");
    reveal_strlit("italic");
    reveal_strlit("underline");
    reveal_strlit("blink");
    reveal_strlit("0;30");
    reveal_strlit("0;31");
    reveal_strlit("0;32");
    reveal_strlit("0;33");
    reveal_strlit("0;34");
    reveal_strlit("0;35");
    reveal_strlit("0;36");
    reveal_strlit("0;37");
    reveal_strlit("1");
    reveal_strlit("2");
    reveal_strlit("3");
    reveal_strlit("4");
    reveal_strlit("5");
    reveal_strlit("\x1b[");
    reveal_strlit("m");
    assert("black"@[2] == 'a' && "blink"@[2] == 'i' && "black"@[0] == 'b' && "red"@[0] == 'r'
        && "green"@[0] == 'g' && "yellow"@[0] == 'y' && "blue"@[0] == 'b' && "blue"@[1] == 'l'
        && "magenta"@[0] == 'm' && "cyan"@[0] == 'c' && "white"@[0] == 'w' && "bold"@[0] == 'b'
        && "bold"@[1] == 'o' && "dim"@[0] == 'd' && "italic"@[0] == 'i' && "underline"@[0] == 'u'
        && "blink"@[0] == 'b');
    assert("black"@.len() == 5 && "blink"@.len() == 5 && "blue"@.len() == 4 && "bold"@.len() == 4);
    let open = "\x1b["@;
    let end = "m"@;
    assert(open + "0;30"@ + end =~= seq!['\x1b', '[', '0', ';', '3', '0', 'm']);
    assert(open + "0;31"@ + end =~= seq!['\x1b', '[', '0', ';', '3', '1', 'm']);
    assert(open + "0;32"@ + end =~= seq!['\x1b', '[', '0', ';', '3', '2', 'm']);
    assert(open + "0;33"@ + end =~= seq!['\x1b', '[', '0', ';', '3', '3', 'm']);
    assert(open + "0;34"@ + end =~= seq!['\x1b', '[', '0', ';', '3', '4', 'm']);
    assert(open + "0;35"@ + end =~= seq!['\x1b', '[', '0', ';', '3', '5', 'm']);
    assert(open + "0;36"@ + end =~= seq!['\x1b', '[', '0', ';', '3', '6', 'm']);
    assert(open + "0;37"@ + end =~= seq!['\x1b', '[', '0', ';', '3', '7', 'm']);
    assert(open + "1"@ + end =~= seq!['\x1b', '[', '1', 'm']);
    assert(open + "2"@ + end =~= seq!['\x1b', '[', '2', 'm']);
    assert(open + "3"@ + end =~= seq!['\x1b', '[', '3', 'm']);
    assert(open + "4"@ + end =~= seq!['\x1b', '[', '4', 'm']);
    assert(open + "5"@ + end =~= seq!['\x1b', '[', '5', 'm']);
    let cs = color_names();
    assert(cs[0] == "black"@ && cs[1] == "red"@ && cs[2] == "green"@ && cs[3] == "yellow"@ && cs[4]
        == "blue"@ && cs[5] == "magenta"@ && cs[6] == "cyan"@ && cs[7] == "white"@);
    let ss = style_names();
    assert(ss[0] == "bold"@ && ss[1] == "dim"@ && ss[2] == "italic"@ && ss[3] == "underline"@
        && ss[4] == "blink"@);
    assert forall|k: int| 0 <= k < 8 implies #[trigger] cs[k].len() > 0 && prompt::ansi(cs[k])
        == Some(seq!['\x1b', '[', '0', ';', '3', ('0' as int + k) as char, 'm'])
        && !prompt::is_style(cs[k]) by {
        assert(k == 0 || k == 1 || k == 2 || k == 3 || k == 4 || k == 5 || k == 6 || k == 7);
    }
    assert forall|k: int| 0 <= k < 5 implies #[trigger] ss[k].len() > 0 && prompt::ansi(ss[k])
        == Some(seq!['\x1b', '[', ('1' as int + k) as char, 'm']) && prompt::is_style(ss[k]) by {
        assert(k == 0 || k == 1 || k == 2 || k == 3 || k == 4);
    }
}

/// A color is switched on by its number among the eight, and a style by its own,
/// however the name is written. In a prompt that shows a failure every color is
/// red, and styles stay. A name that is none shows nothing.
pub proof fn law_colors(
    lead: char,
    name: Seq<char>,
    k: int,
    f: PromptFacts,
    failed: bool,
)
    requires
        leads(lead),
        !name.contains('}'),
    ensures
        ({
            let shown = |failed: bool|
                prompt::rendered(seq![lead, 'F', '{'] + name + seq!['}'], f, failed);
            &&& 0 <= k < 8 && same_but_for_case(name, color_names()[k]) ==> shown(false) == seq![
                '\x1b',
                '[',
                '0',
                ';',
                '3',
                ('0' as int + k) as char,
                'm',
            ] && shown(true) == seq!['\x1b', '[', '0', ';', '3', '1', 'm']
            &&& 0 <= k < 5 && same_but_for_case(name, style_names()[k]) ==> shown(failed) == seq![
                '\x1b',
                '[',
                ('1' as int + k) as char,
                'm',
            ]
            &&& !color_names().contains(prompt::lower(name)) && !style_names().contains(
                prompt::lower(name),
            ) ==> shown(failed) == Seq::<char>::empty()
        }),
{
    lemma_alone(Piece::Color(lead, name), f, failed);
    lemma_alone(Piece::Color(lead, name), f, true);
    lemma_alone(Piece::Color(lead, name), f, false);
    lemma_codes();
    reveal_strlit("\x1b[0;31m");
    assert(prompt::red() =~= seq!['\x1b', '[', '0', ';', '3', '1', 'm']);
    if 0 <= k < 8 && same_but_for_case(name, color_names()[k]) {
        lemma_lower(name, color_names()[k]);
        assert(color_names()[k].len() > 0);
    }
    if 0 <= k < 5 && same_but_for_case(name, style_names()[k]) {
        lemma_lower(name, style_names()[k]);
        assert(style_names()[k].len() > 0);
    }
    let l = prompt::lower(name);
    let cs = color_names();
    let ss = style_names();
    assert(cs[0] == "black"@ && cs[1] == "red"@ && cs[2] == "green"@ && cs[3] == "yellow"@ && cs[4]
        == "blue"@ && cs[5] == "magenta"@ && cs[6] == "cyan"@ && cs[7] == "white"@);
    assert(ss[0] == "bold"@ && ss[1] == "dim"@ && ss[2] == "italic"@ && ss[3] == "underline"@
        && ss[4] == "blink"@);
}

/// Where a failure is shown, each line of the prompt is put between the sequence
/// for red and the one that ends colors; else nothing is put around it.
pub proof fn law_failure_reddens_each_line(
    fmt: Seq<char>,
    f: PromptFacts,
    s: crate::shell::ShellV,
    line: Seq<char>,
)
    requires
        !line.contains('\n'),
        line.len() > 0,
    ensures
        s.last_exit != 0 && s.prompt_on_failure && prompt::rendered(fmt, f, true) == line
            ==> prompt::prompt_of(fmt, f, s) == "\x1b[0;31m"@ + line + "\x1b[0m"@,
        (s.last_exit == 0 || !s.prompt_on_failure) && prompt::rendered(fmt, f, false) == line
            ==> prompt::prompt_of(fmt, f, s) == line,
{
    reveal_strlit("\n");
    if text::mentions(line, "\n"@) {
        let i = choose|i: int| text::occurs_at(line, "\n"@, i);
        assert(line.subrange(i, i + 1)[0] == line[i]);
        assert("\n"@[0] == '\n');
        assert(line.contains('\n'));
    }
    text::lemma_mentions(line, "\n"@);
    assert(text::pieces(line, "\n"@) == seq![line]);
    assert(prompt::reddened(seq![line])[0] == prompt::red() + line + prompt::plain());
}

/// Without a description of its own a prompt shows the user, the host and the sign.
pub proof fn law_usual_prompt()
    ensures
        prompt::description(None) == seq!['\\', 'u', '@', '\\', 'h', ' ', '\\', '$', ' '],
        forall|s: Seq<char>| #[trigger] prompt::description(Some(s)) == s,
{
    reveal_strlit("\\u@\\h \\$ ");
    assert(prompt::description(None) =~= seq!['\\', 'u', '@', '\\', 'h', ' ', '\\', '$', ' ']);
}

} // verus!
