//! Writing words down with quotes, escapes and references, and what the shell
//! makes of that.

use vstd::prelude::*;

use crate::brace;
use crate::expand;
use crate::expand::{EnvironmentV, Fields, PartV, Quote, ReferenceV};
use crate::numbers;
use crate::order;
use crate::shell::ShellV;
use crate::text;
use crate::token;

verus! {

// ---------------------------------------------------------------------------
// Words in pieces
// ---------------------------------------------------------------------------

/// Something that a `$` refers to.
pub enum Ref {
    /// A variable, as `$name`.
    Named(Seq<char>),
    /// A variable, as `${name}`.
    Braced(Seq<char>),
    /// The exit code of the last command, as `$?`.
    Status,
    /// The number of the shell's process, as `$$`.
    Pid,
    /// The process that was put into the background last, as `$!`.
    Last,
    /// A command, as `$(command)`, and its output.
    Command(Seq<char>, Seq<char>),
}

/// What can stand between double quotes.
pub enum Inner {
    /// Characters that stand for themselves there.
    Text(Seq<char>),
    /// A backslash that is taken away from before this character.
    Escaped(char),
    /// A backslash that stays before this character.
    Kept(char),
    /// A backslash at the end of a line, which is taken away with the end.
    Broken,
    Value(Ref),
}

/// A piece of a word.
pub enum Piece {
    /// Characters that stand for themselves outside quotes.
    Text(Seq<char>),
    /// A character with a backslash before it.
    Escaped(char),
    /// What stands between single quotes.
    Single(Seq<char>),
    /// What stands between double quotes.
    Double(Seq<Inner>),
    Value(Ref),
}

pub open spec fn written_ref(r: Ref) -> Seq<char> {
    match r {
        Ref::Named(n) => seq!['$'] + n,
        Ref::Braced(n) => seq!['$', '{'] + n + seq!['}'],
        Ref::Status => seq!['$', '?'],
        Ref::Pid => seq!['$', '$'],
        Ref::Last => seq!['$', '!'],
        Ref::Command(c, _) => seq!['$', '('] + c + seq![')'],
    }
}

pub open spec fn written_inner(p: Inner) -> Seq<char> {
    match p {
        Inner::Text(t) => t,
        Inner::Escaped(c) => seq!['\\', c],
        Inner::Kept(c) => seq!['\\', c],
        Inner::Broken => seq!['\\', '\n'],
        Inner::Value(r) => written_ref(r),
    }
}

pub open spec fn written_inners(ps: Seq<Inner>) -> Seq<char>
    decreases ps.len(),
{
    if ps.len() == 0 {
        Seq::empty()
    } else {
        written_inner(ps[0]) + written_inners(ps.drop_first())
    }
}

pub open spec fn written_piece(p: Piece) -> Seq<char> {
    match p {
        Piece::Text(t) => t,
        Piece::Escaped(c) => seq!['\\', c],
        Piece::Single(t) => seq!['\''] + t + seq!['\''],
        Piece::Double(ps) => seq!['"'] + written_inners(ps) + seq!['"'],
        Piece::Value(r) => written_ref(r),
    }
}

/// The word of these pieces.
pub open spec fn written(ps: Seq<Piece>) -> Seq<char>
    decreases ps.len(),
{
    if ps.len() == 0 {
        Seq::empty()
    } else {
        written_piece(ps[0]) + written(ps.drop_first())
    }
}

// ---------------------------------------------------------------------------
// What the pieces stand for
// ---------------------------------------------------------------------------

/// The value of a variable: the environment comes first, and a variable that is
/// not set is empty.
pub open spec fn variable(name: Seq<char>, shell: ShellV, env: EnvironmentV) -> Seq<char> {
    if env.vars.dom().contains(name) {
        env.vars[name]
    } else if shell.vars.dom().contains(name) {
        shell.vars[name]
    } else {
        Seq::empty()
    }
}

pub open spec fn ref_value(r: Ref, shell: ShellV, env: EnvironmentV) -> Seq<char> {
    match r {
        Ref::Named(n) => variable(n, shell, env),
        Ref::Braced(n) => variable(n, shell, env),
        Ref::Status => numbers::decimal(shell.last_exit as int),
        Ref::Pid => numbers::decimal(env.pid as int),
        Ref::Last => match shell.last_bg_pid {
            Some(p) => numbers::decimal(p as int),
            None => Seq::empty(),
        },
        Ref::Command(_, out) => out,
    }
}

pub open spec fn inner_value(p: Inner, shell: ShellV, env: EnvironmentV) -> Seq<char> {
    match p {
        Inner::Text(t) => t,
        Inner::Escaped(c) => seq![c],
        Inner::Kept(c) => seq!['\\', c],
        Inner::Broken => Seq::empty(),
        Inner::Value(r) => ref_value(r, shell, env),
    }
}

pub open spec fn inner_values(ps: Seq<Inner>, shell: ShellV, env: EnvironmentV) -> Seq<char>
    decreases ps.len(),
{
    if ps.len() == 0 {
        Seq::empty()
    } else {
        inner_value(ps[0], shell, env) + inner_values(ps.drop_first(), shell, env)
    }
}

pub open spec fn piece_value(p: Piece, shell: ShellV, env: EnvironmentV) -> Seq<char> {
    match p {
        Piece::Text(t) => t,
        Piece::Escaped(c) => seq![c],
        Piece::Single(t) => t,
        Piece::Double(ps) => inner_values(ps, shell, env),
        Piece::Value(r) => ref_value(r, shell, env),
    }
}

/// What the pieces stand for, one behind the other.
pub open spec fn meaning(ps: Seq<Piece>, shell: ShellV, env: EnvironmentV) -> Seq<char>
    decreases ps.len(),
{
    if ps.len() == 0 {
        Seq::empty()
    } else {
        piece_value(ps[0], shell, env) + meaning(ps.drop_first(), shell, env)
    }
}

/// The commands that are run for a reference, and their outputs.
pub open spec fn ref_runs(r: Ref) -> Seq<(Seq<char>, Seq<char>)> {
    match r {
        Ref::Command(c, out) => seq![(c, out)],
        _ => Seq::empty(),
    }
}

pub open spec fn inner_runs(ps: Seq<Inner>) -> Seq<(Seq<char>, Seq<char>)>
    decreases ps.len(),
{
    if ps.len() == 0 {
        Seq::empty()
    } else {
        (match ps[0] {
            Inner::Value(r) => ref_runs(r),
            _ => Seq::empty(),
        }) + inner_runs(ps.drop_first())
    }
}

/// The commands that are run for the pieces, in order, and their outputs.
pub open spec fn runs(ps: Seq<Piece>) -> Seq<(Seq<char>, Seq<char>)>
    decreases ps.len(),
{
    if ps.len() == 0 {
        Seq::empty()
    } else {
        (match ps[0] {
            Piece::Value(r) => ref_runs(r),
            Piece::Double(qs) => inner_runs(qs),
            _ => Seq::empty(),
        }) + runs(ps.drop_first())
    }
}

pub open spec fn commands(rs: Seq<(Seq<char>, Seq<char>)>) -> Seq<Seq<char>> {
    Seq::new(rs.len(), |k: int| rs[k].0)
}

pub open spec fn outputs(rs: Seq<(Seq<char>, Seq<char>)>) -> Seq<Seq<char>> {
    Seq::new(rs.len(), |k: int| rs[k].1)
}

// ---------------------------------------------------------------------------
// Which pieces can be written
// ---------------------------------------------------------------------------

/// The characters of ordinary names.
pub open spec fn in_names(c: char) -> bool {
    'a' <= c <= 'z' || 'A' <= c <= 'Z' || '0' <= c <= '9' || c == '_'
}

/// How many more parentheses are opened than closed in the first `k` characters.
pub open spec fn level(s: Seq<char>, k: int) -> int
    decreases k,
{
    if k <= 0 || k > s.len() {
        0
    } else if s[k - 1] == '(' {
        level(s, k - 1) + 1
    } else if s[k - 1] == ')' {
        level(s, k - 1) - 1
    } else {
        level(s, k - 1)
    }
}

pub open spec fn balanced(s: Seq<char>) -> bool {
    &&& level(s, s.len() as int) == 0
    &&& forall|k: int| 0 <= k <= s.len() ==> #[trigger] level(s, k) >= 0
}

/// Whether a reference can be written before `next`: a name must not run on.
pub open spec fn ref_ok(r: Ref, next: Option<char>) -> bool {
    match r {
        Ref::Named(n) => {
            &&& n.len() > 0
            &&& forall|k: int| 0 <= k < n.len() ==> in_names(#[trigger] n[k])
            &&& next matches Some(c) ==> (c as int) < 0x80 && !in_names(c)
        },
        Ref::Braced(n) => !n.contains('}'),
        Ref::Command(c, _) => balanced(c),
        _ => true,
    }
}

pub open spec fn inner_ok(p: Inner, next: Option<char>) -> bool {
    match p {
        Inner::Text(t) => forall|k: int|
            0 <= k < t.len() ==> #[trigger] t[k] != '"' && t[k] != '\\' && t[k] != '$',
        Inner::Escaped(c) => c == '$' || c == '`' || c == '"' || c == '\\',
        Inner::Kept(c) => c != '$' && c != '`' && c != '"' && c != '\\' && c != '\n',
        Inner::Broken => true,
        Inner::Value(r) => ref_ok(r, next),
    }
}

pub open spec fn inners_ok(ps: Seq<Inner>) -> bool
    decreases ps.len(),
{
    ps.len() > 0 ==> {
        &&& inner_ok(ps[0], token::char_at(written_inners(ps.drop_first()) + seq!['"'], 0))
        &&& inners_ok(ps.drop_first())
    }
}

/// Whether the value of a reference is free of the white space that would end a
/// word.
pub open spec fn unbroken(t: Seq<char>) -> bool {
    forall|k: int|
        0 <= k < t.len() ==> #[trigger] t[k] != ' ' && t[k] != '\t' && t[k] != '\n' && t[k]
            != '\x0c' && t[k] != '\r'
}

pub open spec fn piece_ok(p: Piece, next: Option<char>, shell: ShellV, env: EnvironmentV) -> bool {
    match p {
        Piece::Text(t) => forall|k: int|
            0 <= k < t.len() ==> #[trigger] t[k] != '\\' && t[k] != '\'' && t[k] != '"' && t[k]
                != '$' && t[k] != '~',
        Piece::Escaped(_) => true,
        Piece::Single(t) => !t.contains('\''),
        Piece::Double(ps) => inners_ok(ps),
        Piece::Value(r) => ref_ok(r, next) && unbroken(ref_value(r, shell, env)),
    }
}

/// Whether the pieces can stand before `next`.
pub open spec fn pieces_ok(
    ps: Seq<Piece>,
    next: Option<char>,
    shell: ShellV,
    env: EnvironmentV,
) -> bool
    decreases ps.len(),
{
    ps.len() > 0 ==> {
        &&& piece_ok(
            ps[0],
            if written(ps.drop_first()).len() > 0 {
                Some(written(ps.drop_first())[0])
            } else {
                next
            },
            shell,
            env,
        )
        &&& pieces_ok(ps.drop_first(), next, shell, env)
    }
}

// ---------------------------------------------------------------------------
// Reading the pieces
// ---------------------------------------------------------------------------

/// A part of a word, and what it stands for.
struct Bit {
    part: PartV,
    said: Seq<char>,
}

spec fn text_bits(t: Seq<char>) -> Seq<Bit> {
    Seq::new(t.len(), |k: int| Bit { part: PartV::Literal(seq![t[k]]), said: seq![t[k]] })
}

spec fn reference(r: Ref) -> ReferenceV {
    match r {
        Ref::Named(n) => ReferenceV::Named(n),
        Ref::Braced(n) => ReferenceV::Named(n),
        Ref::Status => ReferenceV::LastExit,
        Ref::Pid => ReferenceV::Pid,
        Ref::Last => ReferenceV::LastBackground,
        Ref::Command(c, _) => ReferenceV::Command(c),
    }
}

spec fn ref_bits(r: Ref, quoted: bool, shell: ShellV, env: EnvironmentV) -> Seq<Bit> {
    seq![Bit { part: PartV::Value(reference(r), quoted), said: ref_value(r, shell, env) }]
}

spec fn inner_bits(p: Inner, shell: ShellV, env: EnvironmentV) -> Seq<Bit> {
    match p {
        Inner::Text(t) => text_bits(t),
        Inner::Escaped(c) => text_bits(seq![c]),
        Inner::Kept(c) => text_bits(seq!['\\', c]),
        Inner::Broken => Seq::empty(),
        Inner::Value(r) => ref_bits(r, true, shell, env),
    }
}

spec fn inners_bits(ps: Seq<Inner>, shell: ShellV, env: EnvironmentV) -> Seq<Bit>
    decreases ps.len(),
{
    if ps.len() == 0 {
        Seq::empty()
    } else {
        inner_bits(ps[0], shell, env) + inners_bits(ps.drop_first(), shell, env)
    }
}

spec fn piece_bits(p: Piece, shell: ShellV, env: EnvironmentV) -> Seq<Bit> {
    match p {
        Piece::Text(t) => text_bits(t),
        Piece::Escaped(c) => text_bits(seq![c]),
        Piece::Single(t) => text_bits(t),
        Piece::Double(ps) => inners_bits(ps, shell, env),
        Piece::Value(r) => ref_bits(r, false, shell, env),
    }
}

spec fn bits(ps: Seq<Piece>, shell: ShellV, env: EnvironmentV) -> Seq<Bit>
    decreases ps.len(),
{
    if ps.len() == 0 {
        Seq::empty()
    } else {
        piece_bits(ps[0], shell, env) + bits(ps.drop_first(), shell, env)
    }
}

spec fn parts(bs: Seq<Bit>) -> Seq<PartV> {
    Seq::new(bs.len(), |k: int| bs[k].part)
}

spec fn said(bs: Seq<Bit>) -> Seq<char>
    decreases bs.len(),
{
    if bs.len() == 0 {
        Seq::empty()
    } else {
        bs[0].said + said(bs.drop_first())
    }
}

/// The commands in the bits, and what they stand for.
spec fn asked(bs: Seq<Bit>) -> Seq<(Seq<char>, Seq<char>)>
    decreases bs.len(),
{
    if bs.len() == 0 {
        Seq::empty()
    } else {
        (match bs[0].part {
            PartV::Value(ReferenceV::Command(c), _) => seq![(c, bs[0].said)],
            _ => Seq::empty(),
        }) + asked(bs.drop_first())
    }
}

proof fn lemma_bits_add(a: Seq<Bit>, b: Seq<Bit>)
    ensures
        said(a + b) == said(a) + said(b),
        asked(a + b) == asked(a) + asked(b),
        parts(a + b) == parts(a) + parts(b),
    decreases a.len(),
{
    assert(parts(a + b) =~= parts(a) + parts(b));
    if a.len() == 0 {
        assert(a + b =~= b);
        assert(said(a) + said(b) =~= said(b));
        assert(asked(a) + asked(b) =~= asked(b));
    } else {
        assert((a + b)[0] == a[0]);
        assert((a + b).drop_first() =~= a.drop_first() + b);
        lemma_bits_add(a.drop_first(), b);
        assert(said(a + b) =~= said(a) + said(b));
        assert(asked(a + b) =~= asked(a) + asked(b));
    }
}

proof fn lemma_text_bits(t: Seq<char>)
    ensures
        said(text_bits(t)) == t,
        asked(text_bits(t)).len() == 0,
    decreases t.len(),
{
    let bs = text_bits(t);
    if t.len() == 0 {
        assert(said(bs) =~= t);
    } else {
        assert(bs.drop_first() =~= text_bits(t.drop_first()));
        lemma_text_bits(t.drop_first());
        assert(bs[0].said == seq![t[0]]);
        assert(said(bs) =~= t);
    }
}

proof fn lemma_ref_bits(r: Ref, quoted: bool, shell: ShellV, env: EnvironmentV)
    ensures
        said(ref_bits(r, quoted, shell, env)) == ref_value(r, shell, env),
        asked(ref_bits(r, quoted, shell, env)) == ref_runs(r),
{
    let bs = ref_bits(r, quoted, shell, env);
    assert(bs.drop_first() =~= Seq::empty());
    assert(said(bs.drop_first()) =~= Seq::empty());
    assert(asked(bs.drop_first()) =~= Seq::empty());
    assert(said(bs) =~= ref_value(r, shell, env));
    assert(asked(bs) =~= ref_runs(r));
}

proof fn lemma_inners_bits(ps: Seq<Inner>, shell: ShellV, env: EnvironmentV)
    ensures
        said(inners_bits(ps, shell, env)) == inner_values(ps, shell, env),
        asked(inners_bits(ps, shell, env)) == inner_runs(ps),
    decreases ps.len(),
{
    if ps.len() > 0 {
        let rest = ps.drop_first();
        lemma_inners_bits(rest, shell, env);
        lemma_bits_add(inner_bits(ps[0], shell, env), inners_bits(rest, shell, env));
        match ps[0] {
            Inner::Text(t) => {
                lemma_text_bits(t);
            },
            Inner::Escaped(c) => {
                lemma_text_bits(seq![c]);
            },
            Inner::Kept(c) => {
                lemma_text_bits(seq!['\\', c]);
            },
            Inner::Broken => {},
            Inner::Value(r) => {
                lemma_ref_bits(r, true, shell, env);
            },
        }
        assert(asked(inners_bits(ps, shell, env)) =~= inner_runs(ps));
    }
}

proof fn lemma_bits(ps: Seq<Piece>, shell: ShellV, env: EnvironmentV)
    ensures
        said(bits(ps, shell, env)) == meaning(ps, shell, env),
        asked(bits(ps, shell, env)) == runs(ps),
    decreases ps.len(),
{
    if ps.len() > 0 {
        let rest = ps.drop_first();
        lemma_bits(rest, shell, env);
        lemma_bits_add(piece_bits(ps[0], shell, env), bits(rest, shell, env));
        match ps[0] {
            Piece::Text(t) => {
                lemma_text_bits(t);
            },
            Piece::Escaped(c) => {
                lemma_text_bits(seq![c]);
            },
            Piece::Single(t) => {
                lemma_text_bits(t);
            },
            Piece::Double(qs) => {
                lemma_inners_bits(qs, shell, env);
            },
            Piece::Value(r) => {
                lemma_ref_bits(r, false, shell, env);
            },
        }
        assert(asked(bits(ps, shell, env)) =~= runs(ps));
    }
}

/// Whether the text from `i` on starts with `p`.
pub open spec fn at(s: Seq<char>, i: int, p: Seq<char>) -> bool {
    &&& 0 <= i
    &&& i + p.len() <= s.len()
    &&& forall|k: int| 0 <= k < p.len() ==> s[i + k] == #[trigger] p[k]
}

pub proof fn lemma_at_add(s: Seq<char>, i: int, p: Seq<char>, q: Seq<char>)
    requires
        at(s, i, p + q),
    ensures
        at(s, i, p),
        at(s, i + p.len(), q),
{
    assert forall|k: int| 0 <= k < p.len() implies s[i + k] == #[trigger] p[k] by {
        assert((p + q)[k] == p[k]);
    }
    assert forall|k: int| 0 <= k < q.len() implies s[i + p.len() + k] == #[trigger] q[k] by {
        assert((p + q)[p.len() + k] == q[k]);
    }
}

proof fn lemma_name(s: Seq<char>, i: int, n: Seq<char>)
    requires
        at(s, i, n),
        forall|k: int| 0 <= k < n.len() ==> in_names(#[trigger] n[k]),
        token::char_at(s, i + n.len()) matches Some(c) ==> (c as int) < 0x80 && !in_names(c),
    ensures
        expand::name_end(s, i) == i + n.len(),
    decreases n.len(),
{
    if n.len() > 0 {
        assert(s[i + 0] == n[0]);
        assert(in_names(n[0]));
        let rest = n.drop_first();
        assert forall|k: int| 0 <= k < rest.len() implies s[i + 1 + k] == #[trigger] rest[k] by {
            assert(s[i + (k + 1)] == n[k + 1]);
        }
        assert forall|k: int| 0 <= k < rest.len() implies in_names(#[trigger] rest[k]) by {
            assert(in_names(n[k + 1]));
        }
        lemma_name(s, i + 1, rest);
    }
}

proof fn lemma_level_nonneg(c: Seq<char>, k: int)
    requires
        balanced(c),
        0 <= k <= c.len(),
    ensures
        level(c, k) >= 0,
{
}

pub proof fn lemma_parens(s: Seq<char>, i: int, c: Seq<char>, k: int)
    requires
        at(s, i, c + seq![')']),
        balanced(c),
        0 <= k <= c.len(),
    ensures
        token::paren_end(s, i + k, (1 + level(c, k)) as nat) == Some(i + c.len() + 1),
    decreases c.len() - k,
{
    lemma_level_nonneg(c, k);
    if k < c.len() {
        assert(s[i + k] == (c + seq![')'])[k]);
        lemma_level_nonneg(c, k + 1);
        lemma_parens(s, i, c, k + 1);
        assert(i + (k + 1) == i + k + 1);
    } else {
        assert(s[i + k] == (c + seq![')'])[k]);
    }
}

proof fn lemma_ref(s: Seq<char>, i: int, r: Ref)
    requires
        at(s, i, written_ref(r)),
        ref_ok(r, token::char_at(s, i + written_ref(r).len())),
    ensures
        s[i] == '$',
        expand::reference_at(s, i + 1) == (reference(r), i + written_ref(r).len()),
{
    let w = written_ref(r);
    assert(s[i + 0] == w[0]);
    assert(s[i + 1] == w[1]);
    match r {
        Ref::Named(n) => {
            lemma_at_add(s, i, seq!['$'], n);
            assert(in_names(n[0]));
            assert(s[i + 1 + 0] == n[0]);
            lemma_name(s, i + 1, n);
            assert(s.subrange(i + 1, i + 1 + n.len()) =~= n);
        },
        Ref::Braced(n) => {
            assert(w =~= seq!['$', '{'] + (n + seq!['}']));
            lemma_at_add(s, i, seq!['$', '{'], n + seq!['}']);
            let rest = s.skip(i + 2);
            assert(at(rest, 0, n + seq!['}'])) by {
                let m = n + seq!['}'];
                assert forall|k: int| 0 <= k < m.len() implies rest[0 + k] == #[trigger] m[k] by {
                    assert(s[i + 2 + k] == m[k]);
                }
            }
            text::lemma_until(rest, '}');
            let u = text::until(rest, '}') as int;
            assert(rest[0 + n.len() as int] == (n + seq!['}'])[n.len() as int]);
            if u < n.len() {
                assert(rest[0 + u] == (n + seq!['}'])[u]);
                assert(n.contains(n[u]));
            }
            assert(u == n.len());
            assert(s.subrange(i + 2, i + 2 + n.len()) =~= n) by {
                assert forall|k: int| 0 <= k < n.len() implies s[i + 2 + k] == n[k] by {
                    assert(s[i + 2 + k] == (n + seq!['}'])[k]);
                }
            }
        },
        Ref::Command(c, _) => {
            assert(w =~= seq!['$', '('] + (c + seq![')']));
            lemma_at_add(s, i, seq!['$', '('], c + seq![')']);
            lemma_parens(s, i + 2, c, 0);
            assert(s.subrange(i + 2, i + 2 + c.len()) =~= c) by {
                assert forall|k: int| 0 <= k < c.len() implies s[i + 2 + k] == c[k] by {
                    assert(s[i + 2 + k] == (c + seq![')'])[k]);
                }
            }
        },
        _ => {},
    }
}

proof fn lemma_text(s: Seq<char>, i: int, t: Seq<char>, q: Quote, acc: Seq<PartV>)
    requires
        at(s, i, t),
        forall|k: int|
            0 <= k < t.len() ==> match q {
                Quote::Plain => #[trigger] t[k] != '\\' && t[k] != '\'' && t[k] != '"' && t[k] != '$'
                    && t[k] != '~',
                Quote::Single => t[k] != '\'',
                Quote::Double => t[k] != '"' && t[k] != '\\' && t[k] != '$',
            },
    ensures
        expand::parts_from(s, i, q, acc) == expand::parts_from(
            s,
            i + t.len(),
            q,
            acc + parts(text_bits(t)),
        ),
    decreases t.len(),
{
    if t.len() == 0 {
        assert(acc + parts(text_bits(t)) =~= acc);
    } else {
        let rest = t.drop_first();
        assert(s[i + 0] == t[0]);
        assert forall|k: int| 0 <= k < rest.len() implies s[i + 1 + k] == #[trigger] rest[k] by {
            assert(s[i + (k + 1)] == t[k + 1]);
        }
        assert forall|k: int| 0 <= k < rest.len() implies match q {
            Quote::Plain => #[trigger] rest[k] != '\\' && rest[k] != '\'' && rest[k] != '"'
                && rest[k] != '$' && rest[k] != '~',
            Quote::Single => rest[k] != '\'',
            Quote::Double => rest[k] != '"' && rest[k] != '\\' && rest[k] != '$',
        } by {
            assert(rest[k] == t[k + 1]);
        }
        let p = PartV::Literal(seq![t[0]]);
        lemma_text(s, i + 1, rest, q, acc.push(p));
        assert(acc.push(p) + parts(text_bits(rest)) =~= acc + parts(text_bits(t)));
    }
}

proof fn lemma_inner(
    s: Seq<char>,
    i: int,
    p: Inner,
    acc: Seq<PartV>,
    shell: ShellV,
    env: EnvironmentV,
)
    requires
        at(s, i, written_inner(p)),
        inner_ok(p, token::char_at(s, i + written_inner(p).len())),
    ensures
        expand::parts_from(s, i, Quote::Double, acc) == expand::parts_from(
            s,
            i + written_inner(p).len(),
            Quote::Double,
            acc + parts(inner_bits(p, shell, env)),
        ),
{
    let w = written_inner(p);
    let bs = parts(inner_bits(p, shell, env));
    match p {
        Inner::Text(t) => {
            lemma_text(s, i, t, Quote::Double, acc);
        },
        Inner::Value(r) => {
            lemma_ref(s, i, r);
            assert(acc.push(PartV::Value(reference(r), true)) =~= acc + bs);
        },
        Inner::Escaped(c) => {
            assert(s[i + 0] == w[0]);
            assert(s[i + 1] == w[1]);
            assert(acc.push(PartV::Literal(seq![c])) =~= acc + bs);
        },
        Inner::Kept(c) => {
            assert(s[i + 0] == w[0]);
            assert(s[i + 1] == w[1]);
            assert(acc.push(PartV::Literal(seq!['\\'])).push(PartV::Literal(seq![c])) =~= acc + bs);
        },
        Inner::Broken => {
            assert(s[i + 0] == w[0]);
            assert(s[i + 1] == w[1]);
            assert(acc + bs =~= acc);
        },
    }
}

proof fn lemma_inners(
    s: Seq<char>,
    i: int,
    ps: Seq<Inner>,
    acc: Seq<PartV>,
    shell: ShellV,
    env: EnvironmentV,
)
    requires
        at(s, i, written_inners(ps) + seq!['"']),
        inners_ok(ps),
    ensures
        expand::parts_from(s, i, Quote::Double, acc) == expand::parts_from(
            s,
            i + written_inners(ps).len() + 1,
            Quote::Plain,
            acc + parts(inners_bits(ps, shell, env)),
        ),
    decreases ps.len(),
{
    if ps.len() == 0 {
        assert(s[i + 0] == (written_inners(ps) + seq!['"'])[0]);
        assert(acc + parts(inners_bits(ps, shell, env)) =~= acc);
    } else {
        let rest = ps.drop_first();
        let w = written_inner(ps[0]);
        let more = written_inners(rest) + seq!['"'];
        assert(written_inners(ps) + seq!['"'] =~= w + more);
        lemma_at_add(s, i, w, more);
        assert(s[i + w.len() + 0] == more[0]);
        lemma_inner(s, i, ps[0], acc, shell, env);
        let b = parts(inner_bits(ps[0], shell, env));
        lemma_inners(s, i + w.len(), rest, acc + b, shell, env);
        lemma_bits_add(inner_bits(ps[0], shell, env), inners_bits(rest, shell, env));
        assert(acc + b + parts(inners_bits(rest, shell, env)) =~= acc + parts(
            inners_bits(ps, shell, env),
        ));
    }
}

proof fn lemma_piece(
    s: Seq<char>,
    i: int,
    p: Piece,
    acc: Seq<PartV>,
    shell: ShellV,
    env: EnvironmentV,
)
    requires
        at(s, i, written_piece(p)),
        piece_ok(p, token::char_at(s, i + written_piece(p).len()), shell, env),
    ensures
        expand::parts_from(s, i, Quote::Plain, acc) == expand::parts_from(
            s,
            i + written_piece(p).len(),
            Quote::Plain,
            acc + parts(piece_bits(p, shell, env)),
        ),
{
    let w = written_piece(p);
    let bs = parts(piece_bits(p, shell, env));
    match p {
        Piece::Text(t) => {
            lemma_text(s, i, t, Quote::Plain, acc);
        },
        Piece::Value(r) => {
            lemma_ref(s, i, r);
            assert(acc.push(PartV::Value(reference(r), false)) =~= acc + bs);
        },
        Piece::Escaped(c) => {
            assert(s[i + 0] == w[0]);
            assert(s[i + 1] == w[1]);
            assert(acc.push(PartV::Literal(seq![c])) =~= acc + bs);
        },
        Piece::Single(t) => {
            assert(w =~= seq!['\''] + (t + seq!['\'']));
            lemma_at_add(s, i, seq!['\''], t + seq!['\'']);
            lemma_at_add(s, i + 1, t, seq!['\'']);
            assert(s[i + 0] == w[0]);
            assert forall|k: int| 0 <= k < t.len() implies #[trigger] t[k] != '\'' by {
                assert(t.contains(t[k]));
            }
            lemma_text(s, i + 1, t, Quote::Single, acc);
            assert(s[i + 1 + t.len() + 0] == seq!['\''][0]);
        },
        Piece::Double(ps) => {
            assert(w =~= seq!['"'] + (written_inners(ps) + seq!['"']));
            lemma_at_add(s, i, seq!['"'], written_inners(ps) + seq!['"']);
            assert(s[i + 0] == w[0]);
            lemma_inners(s, i + 1, ps, acc, shell, env);
        },
    }
}

proof fn lemma_pieces(
    s: Seq<char>,
    i: int,
    ps: Seq<Piece>,
    acc: Seq<PartV>,
    shell: ShellV,
    env: EnvironmentV,
)
    requires
        at(s, i, written(ps)),
        pieces_ok(ps, token::char_at(s, i + written(ps).len()), shell, env),
    ensures
        expand::parts_from(s, i, Quote::Plain, acc) == expand::parts_from(
            s,
            i + written(ps).len(),
            Quote::Plain,
            acc + parts(bits(ps, shell, env)),
        ),
    decreases ps.len(),
{
    if ps.len() == 0 {
        assert(acc + parts(bits(ps, shell, env)) =~= acc);
    } else {
        let rest = ps.drop_first();
        let w = written_piece(ps[0]);
        lemma_at_add(s, i, w, written(rest));
        if written(rest).len() > 0 {
            assert(s[i + w.len() + 0] == written(rest)[0]);
        }
        lemma_piece(s, i, ps[0], acc, shell, env);
        let b = parts(piece_bits(ps[0], shell, env));
        lemma_pieces(s, i + w.len(), rest, acc + b, shell, env);
        lemma_bits_add(piece_bits(ps[0], shell, env), bits(rest, shell, env));
        assert(acc + b + parts(bits(rest, shell, env)) =~= acc + parts(bits(ps, shell, env)));
    }
}

// ---------------------------------------------------------------------------
// Putting values in
// ---------------------------------------------------------------------------

/// Whether a bit is put behind what there is of a word.
spec fn bit_ok(b: Bit, shell: ShellV, env: EnvironmentV) -> bool {
    match b.part {
        PartV::Literal(t) => t == b.said,
        PartV::Tilde(_) => false,
        PartV::Value(r, quoted) => expand::value_of(r, b.said, shell, env) == b.said && (quoted
            || unbroken(b.said)),
    }
}

spec fn bits_ok(bs: Seq<Bit>, shell: ShellV, env: EnvironmentV) -> bool {
    forall|k: int| 0 <= k < bs.len() ==> bit_ok(#[trigger] bs[k], shell, env)
}

proof fn lemma_unbroken(t: Seq<char>, f: Fields)
    requires
        unbroken(t),
    ensures
        expand::split_from(t, 0, f, false) == (Fields { current: f.current + t, ..f }),
{
    assert forall|j: int| 0 <= j < t.len() implies !text::ascii_space(#[trigger] t[j]) by {
        assert(t[j] != ' ');
    }
    expand::lemma_unsplit(t, 0, f);
    assert(t.skip(0) =~= t);
}

proof fn lemma_evaluated(
    bs: Seq<Bit>,
    ps: Seq<PartV>,
    k: int,
    f: Fields,
    more: Seq<Seq<char>>,
    shell: ShellV,
    env: EnvironmentV,
)
    requires
        0 <= k,
        k + bs.len() <= ps.len(),
        forall|j: int| 0 <= j < bs.len() ==> ps[k + j] == (#[trigger] bs[j]).part,
        bits_ok(bs, shell, env),
    ensures
        expand::evaluated(ps, k, f, outputs(asked(bs)) + more, shell, env) == expand::evaluated(
            ps,
            k + bs.len(),
            Fields { current: f.current + said(bs), ..f },
            more,
            shell,
            env,
        ),
    decreases bs.len(),
{
    if bs.len() == 0 {
        assert(f.current + said(bs) =~= f.current);
        assert(outputs(asked(bs)) + more =~= more);
    } else {
        let b = bs[0];
        let rest = bs.drop_first();
        let answers = outputs(asked(bs)) + more;
        assert(bit_ok(bs[0], shell, env));
        assert(ps[k + 0] == bs[0].part);
        let g = Fields { current: f.current + b.said, ..f };
        let left = outputs(asked(rest)) + more;
        if expand::asks(b.part) {
            assert(outputs(asked(bs)) =~= seq![b.said] + outputs(asked(rest)));
            assert(answers =~= seq![b.said] + left);
            assert(answers.skip(1) =~= left);
            if left.len() == 0 {
                assert(left =~= Seq::empty());
            }
        } else {
            assert(asked(bs) =~= asked(rest));
        }
        match b.part {
            PartV::Value(r, quoted) => {
                assert(expand::value_of(r, expand::first_answer(answers), shell, env) == b.said);
                if !quoted {
                    lemma_unbroken(b.said, f);
                }
            },
            _ => {},
        }
        assert(expand::with_part(b.part, f, expand::first_answer(answers), shell, env) == g);
        assert forall|j: int| 0 <= j < rest.len() implies ps[k + 1 + j] == (#[trigger] rest[j]).part by {
            assert(ps[k + (j + 1)] == bs[j + 1].part);
        }
        assert forall|j: int| 0 <= j < rest.len() implies bit_ok(
            #[trigger] rest[j],
            shell,
            env,
        ) by {
            assert(bit_ok(bs[j + 1], shell, env));
        }
        lemma_evaluated(rest, ps, k + 1, g, more, shell, env);
        assert(f.current + b.said + said(rest) =~= f.current + said(bs));
    }
}

proof fn lemma_inners_bits_ok(ps: Seq<Inner>, shell: ShellV, env: EnvironmentV)
    ensures
        bits_ok(inners_bits(ps, shell, env), shell, env),
    decreases ps.len(),
{
    if ps.len() > 0 {
        lemma_inners_bits_ok(ps.drop_first(), shell, env);
        let a = inner_bits(ps[0], shell, env);
        let b = inners_bits(ps.drop_first(), shell, env);
        assert forall|k: int| 0 <= k < a.len() implies bit_ok(#[trigger] a[k], shell, env) by {
        }
        assert forall|k: int| 0 <= k < (a + b).len() implies bit_ok(
            #[trigger] (a + b)[k],
            shell,
            env,
        ) by {
            if k < a.len() {
                assert((a + b)[k] == a[k]);
            } else {
                assert((a + b)[k] == b[k - a.len()]);
            }
        }
    }
}

proof fn lemma_bits_ok(ps: Seq<Piece>, next: Option<char>, shell: ShellV, env: EnvironmentV)
    requires
        pieces_ok(ps, next, shell, env),
    ensures
        bits_ok(bits(ps, shell, env), shell, env),
    decreases ps.len(),
{
    if ps.len() > 0 {
        lemma_bits_ok(ps.drop_first(), next, shell, env);
        let a = piece_bits(ps[0], shell, env);
        let b = bits(ps.drop_first(), shell, env);
        if let Piece::Double(qs) = ps[0] {
            lemma_inners_bits_ok(qs, shell, env);
        } else {
            assert forall|k: int| 0 <= k < a.len() implies bit_ok(#[trigger] a[k], shell, env) by {
            }
        }
        assert forall|k: int| 0 <= k < (a + b).len() implies bit_ok(
            #[trigger] (a + b)[k],
            shell,
            env,
        ) by {
            if k < a.len() {
                assert((a + b)[k] == a[k]);
            } else {
                assert((a + b)[k] == b[k - a.len()]);
            }
        }
    }
}

/// A word of pieces stands for one word: what the pieces stand for, one behind
/// the other, where no value outside quotes holds white space. A variable is its
/// value, `$?`, `$$` and `$!` are numbers, a command in parentheses is its output,
/// quotes and the backslashes that have a meaning are taken away, and all else
/// stays.
pub proof fn law_pieces_are_put_together(
    ps: Seq<Piece>,
    more: Seq<Seq<char>>,
    shell: ShellV,
    env: EnvironmentV,
)
    requires
        pieces_ok(ps, None, shell, env),
    ensures
        expand::fields_of(written(ps), outputs(runs(ps)) + more, shell, env) == seq![
            meaning(ps, shell, env),
        ],
{
    let s = written(ps);
    let bs = bits(ps, shell, env);
    lemma_pieces(s, 0, ps, Seq::empty(), shell, env);
    assert(Seq::<PartV>::empty() + parts(bs) =~= parts(bs));
    lemma_bits(ps, shell, env);
    lemma_bits_ok(ps, None, shell, env);
    let none = expand::no_fields();
    lemma_evaluated(bs, parts(bs), 0, none, more, shell, env);
    let m = meaning(ps, shell, env);
    assert(none.current + m =~= m);
    assert(Seq::<Seq<char>>::empty().push(m) =~= seq![m]);
    if m.len() == 0 {
        assert(m =~= Seq::empty());
    }
}

proof fn lemma_commands(bs: Seq<Bit>)
    ensures
        expand::commands_in(parts(bs)) == commands(asked(bs)),
    decreases bs.len(),
{
    if bs.len() == 0 {
        assert(commands(asked(bs)) =~= Seq::empty());
    } else {
        let front = bs.drop_last();
        let last = seq![bs.last()];
        lemma_commands(front);
        assert(bs =~= front + last);
        lemma_bits_add(front, last);
        assert(parts(bs).drop_last() =~= parts(front));
        assert(last.drop_first() =~= Seq::empty());
        assert(asked(last.drop_first()) =~= Seq::empty());
        assert(expand::commands_in(parts(bs)) =~= commands(asked(bs)));
    }
}

/// The commands that are run for a word of pieces are those in parentheses, in
/// order, also inside double quotes, and no others.
pub proof fn law_commands_of_pieces_are_run(ps: Seq<Piece>, shell: ShellV, env: EnvironmentV)
    requires
        pieces_ok(ps, None, shell, env),
    ensures
        expand::commands_in(expand::parts_of(written(ps))) == commands(runs(ps)),
{
    let bs = bits(ps, shell, env);
    lemma_pieces(written(ps), 0, ps, Seq::empty(), shell, env);
    assert(Seq::<PartV>::empty() + parts(bs) =~= parts(bs));
    lemma_bits(ps, shell, env);
    lemma_commands(bs);
}

/// A name behind a `$` stands for the value of the variable, and ends before the
/// first character that can not stand in a name.
pub proof fn law_name_is_its_value(
    name: Seq<char>,
    c: char,
    answers: Seq<Seq<char>>,
    shell: ShellV,
    env: EnvironmentV,
)
    requires
        name.len() > 0,
        forall|k: int| 0 <= k < name.len() ==> in_names(#[trigger] name[k]),
        unbroken(variable(name, shell, env)),
        (c as int) < 0x80,
        !in_names(c),
        c != '\\' && c != '\'' && c != '"' && c != '$' && c != '~',
    ensures
        expand::fields_of(seq!['$'] + name, answers, shell, env) == seq![
            variable(name, shell, env),
        ],
        expand::fields_of(seq!['$'] + name + seq![c], answers, shell, env) == seq![
            variable(name, shell, env) + seq![c],
        ],
{
    let r = Piece::Value(Ref::Named(name));
    let t = Piece::Text(seq![c]);
    let one = seq![r];
    let two = seq![r, t];
    let end = seq![t];
    let val = variable(name, shell, env);
    assert(one.drop_first() =~= Seq::empty());
    assert(two.drop_first() =~= end);
    assert(end.drop_first() =~= Seq::empty());
    assert(written(one.drop_first()) =~= Seq::empty());
    assert(written(end.drop_first()) =~= Seq::empty());
    assert(written(one) =~= seq!['$'] + name);
    assert(written(end) =~= seq![c]);
    assert(written(two) =~= seq!['$'] + name + seq![c]);
    assert(meaning(one.drop_first(), shell, env) =~= Seq::empty());
    assert(meaning(one, shell, env) =~= val);
    assert(meaning(end, shell, env) =~= seq![c]);
    assert(meaning(two, shell, env) =~= val + seq![c]);
    assert(runs(one.drop_first()) =~= Seq::empty());
    assert(runs(one) =~= Seq::empty());
    assert(runs(end) =~= Seq::empty());
    assert(runs(two) =~= Seq::empty());
    assert(pieces_ok(one.drop_first(), None, shell, env));
    assert(pieces_ok(one, None, shell, env));
    assert(pieces_ok(end, None, shell, env));
    assert(pieces_ok(two, None, shell, env));
    law_pieces_are_put_together(one, answers, shell, env);
    law_pieces_are_put_together(two, answers, shell, env);
    assert(outputs(runs(one)) + answers =~= answers);
    assert(outputs(runs(two)) + answers =~= answers);
}

/// A `~` at the start of a word stands for the home directory where it stands
/// alone or a `/` or a `:` follows; else it stands for itself.
pub proof fn law_tilde_is_home(
    ps: Seq<Piece>,
    more: Seq<Seq<char>>,
    shell: ShellV,
    env: EnvironmentV,
)
    requires
        pieces_ok(ps, None, shell, env),
    ensures
        ({
            let s = seq!['~'] + written(ps);
            let home = if env.vars.dom().contains("HOME"@) {
                env.vars["HOME"@]
            } else {
                "."@
            };
            let free = s.len() == 1 || s[1] == '/' || s[1] == ':';
            let spaced = s.len() > 1 && (s[1] == ' ' || s[1] == '\t' || s[1] == '\n' || s[1]
                == '\x0c' || s[1] == '\r');
            let fields = expand::fields_of(s, outputs(runs(ps)) + more, shell, env);
            &&& free ==> fields == seq![home + meaning(ps, shell, env)]
            &&& !free && !spaced ==> fields == seq![seq!['~'] + meaning(ps, shell, env)]
        }),
{
    let s = seq!['~'] + written(ps);
    let bs = bits(ps, shell, env);
    assert(at(s, 1, written(ps))) by {
        assert forall|k: int| 0 <= k < written(ps).len() implies s[1 + k] == #[trigger] written(
            ps,
        )[k] by {
        }
    }
    let t = PartV::Tilde(expand::ends_tilde(token::char_at(s, 1)));
    lemma_pieces(s, 1, ps, Seq::empty().push(t), shell, env);
    let all = Seq::empty().push(t) + parts(bs);
    assert(expand::parts_of(s) == all);
    lemma_bits(ps, shell, env);
    lemma_bits_ok(ps, None, shell, env);
    let answers = outputs(runs(ps)) + more;
    let none = expand::no_fields();
    let f = expand::with_part(t, none, expand::first_answer(answers), shell, env);
    assert(expand::evaluated(all, 0, none, answers, shell, env) == expand::evaluated(
        all,
        1,
        f,
        answers,
        shell,
        env,
    ));
    lemma_evaluated(bs, all, 1, f, more, shell, env);
    let m = f.current + meaning(ps, shell, env);
    assert(Seq::<char>::empty().push('~') =~= seq!['~']);
    assert(Seq::<Seq<char>>::empty().push(m) =~= seq![m]);
    if m.len() == 0 {
        assert(m =~= Seq::empty());
    }
}

/// Texts with one space between each two.
pub open spec fn spaced(items: Seq<Seq<char>>) -> Seq<char>
    decreases items.len(),
{
    if items.len() == 0 {
        Seq::empty()
    } else if items.len() == 1 {
        items[0]
    } else {
        spaced(items.drop_last()) + seq![' '] + items.last()
    }
}

proof fn lemma_split_append(a: Seq<char>, b: Seq<char>, k: int, f: Fields, gap: bool)
    requires
        0 <= k <= a.len(),
    ensures
        ({
            let g = expand::split_from(a, k, f, gap);
            let last_gap = if k < a.len() {
                text::ascii_space(a.last())
            } else {
                gap
            };
            expand::split_from(a + b, k, f, gap) == expand::split_from(b, 0, g, last_gap)
        }),
    decreases a.len() - k,
{
    if k < a.len() {
        assert((a + b)[k] == a[k]);
        let next = if text::ascii_space(a[k]) {
            if f.current.len() > 0 || gap {
                Fields { done: f.done.push(f.current), current: Seq::empty() }
            } else {
                f
            }
        } else {
            Fields { current: f.current.push(a[k]), ..f }
        };
        lemma_split_append(a, b, k + 1, next, text::ascii_space(a[k]));
    } else {
        lemma_split_shift(a, b, 0, f, gap);
    }
}

proof fn lemma_split_shift(a: Seq<char>, b: Seq<char>, k: int, f: Fields, gap: bool)
    requires
        0 <= k <= b.len(),
    ensures
        expand::split_from(a + b, a.len() + k, f, gap) == expand::split_from(b, k, f, gap),
    decreases b.len() - k,
{
    if k < b.len() {
        assert((a + b)[a.len() + k] == b[k]);
        let next = if text::ascii_space(b[k]) {
            if f.current.len() > 0 || gap {
                Fields { done: f.done.push(f.current), current: Seq::empty() }
            } else {
                f
            }
        } else {
            Fields { current: f.current.push(b[k]), ..f }
        };
        lemma_split_shift(a, b, k + 1, next, text::ascii_space(b[k]));
    }
}

proof fn lemma_split_items(items: Seq<Seq<char>>, f: Fields)
    requires
        items.len() > 0,
        forall|k: int|
            0 <= k < items.len() ==> (#[trigger] items[k]).len() > 0 && unbroken(items[k]),
    ensures
        ({
            let g = expand::split_from(spaced(items), 0, f, false);
            let last = items.last();
            &&& spaced(items).len() > 0
            &&& !text::ascii_space(spaced(items).last())
            &&& items.len() == 1 ==> g == (Fields { current: f.current + last, ..f })
            &&& items.len() > 1 ==> g == (Fields {
                done: f.done.push(f.current + items[0]) + items.subrange(1, items.len() - 1),
                current: last,
            })
        }),
    decreases items.len(),
{
    let last = items.last();
    assert(unbroken(items[items.len() - 1]));
    assert(last.last() == last[last.len() - 1]);
    assert(last[last.len() - 1] != ' ');
    assert(!text::ascii_space(last.last()));
    if items.len() == 1 {
        lemma_unbroken(items[0], f);
    } else {
        let front = items.drop_last();
        assert forall|k: int| 0 <= k < front.len() implies (#[trigger] front[k]).len() > 0
            && unbroken(front[k]) by {
            assert(front[k] == items[k]);
        }
        lemma_split_items(front, f);
        let a = spaced(front);
        let tail = seq![' '] + last;
        assert(spaced(items) =~= a + tail);
        assert(spaced(items).last() == last.last());
        lemma_split_append(a, tail, 0, f, false);
        let g = expand::split_from(a, 0, f, false);
        assert(g.current.len() > 0) by {
            assert(front.last() == items[items.len() - 2]);
        }
        let h = Fields { done: g.done.push(g.current), current: Seq::empty() };
        assert(expand::split_from(tail, 0, g, false) == expand::split_from(tail, 1, h, true));
        // Behind the space the last item is taken over.
        let first = Fields { current: h.current.push(last[0]), ..h };
        assert(tail[1] == last[0]);
        assert(last[0] != ' ');
        assert(expand::split_from(tail, 1, h, true) == expand::split_from(tail, 2, first, false));
        assert forall|j: int| 2 <= j < tail.len() implies !text::ascii_space(#[trigger] tail[j]) by {
            assert(tail[j] == last[j - 1]);
        }
        expand::lemma_unsplit(tail, 2, first);
        assert(first.current + tail.skip(2) =~= last);
        if front.len() == 1 {
            assert(items.subrange(1, items.len() - 1) =~= Seq::empty());
            assert(h.done =~= f.done.push(f.current + items[0]) + items.subrange(
                1,
                items.len() - 1,
            ));
        } else {
            assert(h.done =~= f.done.push(f.current + items[0]) + items.subrange(
                1,
                items.len() - 1,
            ));
        }
    }
}

/// A value outside quotes is parted at its spaces: the first of its words goes
/// with what stands before the reference, the last with what stands behind it,
/// and those between are words of their own. Inside double quotes it stays whole.
pub proof fn law_values_are_parted_at_spaces(
    before: Seq<Piece>,
    name: Seq<char>,
    after: Seq<Piece>,
    items: Seq<Seq<char>>,
    shell: ShellV,
    env: EnvironmentV,
)
    requires
        !name.contains('}'),
        items.len() >= 2,
        forall|k: int|
            0 <= k < items.len() ==> (#[trigger] items[k]).len() > 0 && unbroken(items[k]),
        variable(name, shell, env) == spaced(items),
        pieces_ok(before, Some('$'), shell, env),
        pieces_ok(after, None, shell, env),
    ensures
        expand::fields_of(
            written(before) + (seq!['$', '{'] + name + seq!['}']) + written(after),
            outputs(runs(before)) + outputs(runs(after)),
            shell,
            env,
        ) == seq![meaning(before, shell, env) + items[0]] + items.subrange(1, items.len() - 1)
            + seq![items.last() + meaning(after, shell, env)],
        expand::fields_of(
            seq!['"', '$', '{'] + name + seq!['}', '"'],
            Seq::empty(),
            shell,
            env,
        ) == seq![spaced(items)],
{
    let r = Ref::Braced(name);
    let w = written_ref(r);
    let a = written(before);
    let b = written(after);
    let s = a + w + b;
    let ba = bits(before, shell, env);
    let bb = bits(after, shell, env);
    assert(at(s, 0, a));
    assert(at(s, a.len() as int, w)) by {
        assert forall|k: int| 0 <= k < w.len() implies s[a.len() + k] == #[trigger] w[k] by {
        }
    }
    assert(at(s, (a.len() + w.len()) as int, b)) by {
        assert forall|k: int| 0 <= k < b.len() implies s[a.len() + w.len() + k] == #[trigger] b[k] by {
        }
    }
    assert(s[a.len() as int] == w[0]);
    let p = PartV::Value(ReferenceV::Named(name), false);
    lemma_pieces(s, 0, before, Seq::empty(), shell, env);
    assert(Seq::<PartV>::empty() + parts(ba) =~= parts(ba));
    lemma_ref(s, a.len() as int, r);
    lemma_pieces(s, (a.len() + w.len()) as int, after, parts(ba).push(p), shell, env);
    let all = parts(ba).push(p) + parts(bb);
    assert(expand::parts_of(s) == all);
    lemma_bits(before, shell, env);
    lemma_bits(after, shell, env);
    lemma_bits_ok(before, Some('$'), shell, env);
    lemma_bits_ok(after, None, shell, env);
    let none = expand::no_fields();
    let rest = outputs(runs(after));
    lemma_evaluated(ba, all, 0, none, rest, shell, env);
    let m = meaning(before, shell, env);
    assert(none.current + m =~= m);
    let f = Fields { done: Seq::empty(), current: m };
    lemma_split_items(items, f);
    let g = expand::split_from(spaced(items), 0, f, false);
    assert(all[ba.len() as int] == p);
    assert(expand::evaluated(all, ba.len() as int, f, rest, shell, env) == expand::evaluated(
        all,
        ba.len() as int + 1,
        g,
        rest,
        shell,
        env,
    ));
    assert forall|j: int| 0 <= j < bb.len() implies all[ba.len() + 1 + j] == (#[trigger] bb[j]).part by {
    }
    assert(rest + Seq::empty() =~= rest);
    lemma_evaluated(bb, all, ba.len() as int + 1, g, Seq::empty(), shell, env);
    let n = meaning(after, shell, env);
    assert(items.last() == items[items.len() - 1]);
    assert(Seq::<Seq<char>>::empty().push(m + items[0]) + items.subrange(1, items.len() - 1)
        =~= seq![m + items[0]] + items.subrange(1, items.len() - 1));
    assert((seq![m + items[0]] + items.subrange(1, items.len() - 1)).push(items.last() + n) =~= seq![
        m + items[0],
    ] + items.subrange(1, items.len() - 1) + seq![items.last() + n]);
    // Inside double quotes.
    let q = Inner::Value(r);
    let inner = seq![q];
    let ps = seq![Piece::Double(inner)];
    assert(inner.drop_first() =~= Seq::empty());
    assert(ps.drop_first() =~= Seq::empty());
    assert(written_inners(inner.drop_first()) =~= Seq::empty());
    assert(written(ps.drop_first()) =~= Seq::empty());
    assert(written_inners(inner) =~= w);
    assert(written(ps) =~= seq!['"', '$', '{'] + name + seq!['}', '"']);
    assert(inner_values(inner.drop_first(), shell, env) =~= Seq::empty());
    assert(inner_values(inner, shell, env) =~= spaced(items));
    assert(meaning(ps.drop_first(), shell, env) =~= Seq::empty());
    assert(meaning(ps, shell, env) =~= spaced(items));
    assert(inners_ok(inner.drop_first()));
    assert(inners_ok(inner));
    assert(pieces_ok(ps.drop_first(), None, shell, env));
    assert(pieces_ok(ps, None, shell, env));
    assert(inner_runs(inner.drop_first()) =~= Seq::empty());
    assert(inner_runs(inner) =~= Seq::empty());
    assert(runs(ps.drop_first()) =~= Seq::empty());
    assert(runs(ps) =~= Seq::empty());
    law_pieces_are_put_together(ps, Seq::empty(), shell, env);
    assert(outputs(runs(ps)) + Seq::empty() =~= Seq::<Seq<char>>::empty());
}

// ---------------------------------------------------------------------------
// Patterns
// ---------------------------------------------------------------------------

/// A word with a `*`, a `?` or a `[` in it is a pattern. The paths that are found for it
/// take its place, sorted and none left out; where there are none it stays. Any other
/// word stays, whatever is found.
pub proof fn law_paths_take_the_place_of_patterns(
    a: Seq<char>,
    c: char,
    b: Seq<char>,
    paths: Seq<Seq<char>>,
    w: Seq<char>,
)
    requires
        c == '*' || c == '?' || c == '[',
        !w.contains('*') && !w.contains('?') && !w.contains('['),
    ensures
        ({
            let p = a + seq![c] + b;
            let r = expand::globbed(seq![p], seq![paths]);
            &&& paths.len() > 0 ==> order::sorted(r) && r.to_multiset() == paths.to_multiset()
            &&& paths.len() == 0 ==> r == seq![p]
            &&& expand::globbed(seq![w], seq![paths]) == seq![w]
        }),
{
    let p = a + seq![c] + b;
    assert(p[a.len() as int] == c);
    assert(p.contains(c));
    order::law_arranging_is_possible(paths);
    let none = Seq::<Seq<char>>::empty();
    assert(seq![p].drop_last() =~= none);
    assert(seq![w].drop_last() =~= none);
    assert(expand::globbed(none, seq![paths]) =~= none);
    assert(none + order::arranged(paths) =~= order::arranged(paths));
    assert(none + seq![p] =~= seq![p]);
    assert(none + seq![w] =~= seq![w]);
    assert(seq![paths][0] == paths);
}

/// Of what a search gives, all that could be read counts, in the order it came in.
pub proof fn law_what_can_be_read_counts(entries: Seq<Option<String>>, path: String)
    ensures
        expand::readable(entries.push(Some(path))) == expand::readable(entries).push(path@),
        expand::readable(entries.push(None)) == expand::readable(entries),
        expand::readable(Seq::empty()) == Seq::<Seq<char>>::empty(),
{
    assert(entries.push(Some(path)).drop_last() =~= entries);
    assert(entries.push(None).drop_last() =~= entries);
}

/// Braces are expanded word by word.
pub proof fn law_braces_are_expanded_word_by_word(w: Seq<char>, more: Seq<Seq<char>>)
    ensures
        expand::all_expansions(seq![w] + more) == brace::expansions(w) + expand::all_expansions(
            more,
        ),
        expand::all_expansions(Seq::empty()) == Seq::<Seq<char>>::empty(),
{
    assert((seq![w] + more)[0] == w);
    assert((seq![w] + more).drop_first() =~= more);
}

} // verus!
