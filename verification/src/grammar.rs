//! Writing trees down as tokens, and what the parser makes of that.

use vstd::prelude::*;

use crate::numbers;
use crate::parser;
use crate::parser::{NodeV, RedirectKind, RedirectV, SimpleV};
use crate::text;
use crate::token::Tok;

verus! {

// ---------------------------------------------------------------------------
// Trees as tokens
// ---------------------------------------------------------------------------

/// The operator that is written for a kind of redirect.
pub open spec fn operator(kind: RedirectKind) -> Tok {
    match kind {
        RedirectKind::In => Tok::Less,
        RedirectKind::Out => Tok::Great,
        RedirectKind::Append => Tok::DoubleGreat,
        RedirectKind::DupOut => Tok::GreatAnd,
        RedirectKind::DupIn => Tok::LessAnd,
        RedirectKind::Close => Tok::GreatAnd,
    }
}

/// Whether a redirect can be written down: its descriptor is one, and only a
/// redirect that closes it has nothing to go to.
pub open spec fn redirect_ok(r: RedirectV) -> bool {
    &&& 0 <= r.fd <= i32::MAX
    &&& r.kind == RedirectKind::Close ==> r.target == Seq::<char>::empty()
    &&& r.kind == RedirectKind::DupOut || r.kind == RedirectKind::DupIn ==> r.target != "-"@
}

/// A redirect with its descriptor in front.
pub open spec fn written_redirect(r: RedirectV) -> Seq<Tok> {
    seq![
        Tok::Word(numbers::digits(r.fd as nat)),
        operator(r.kind),
        Tok::Word(
            if r.kind == RedirectKind::Close {
                "-"@
            } else {
                r.target
            },
        ),
    ]
}

pub open spec fn written_redirects(rs: Seq<RedirectV>) -> Seq<Tok>
    decreases rs.len(),
{
    if rs.len() == 0 {
        Seq::empty()
    } else {
        written_redirect(rs[0]) + written_redirects(rs.drop_first())
    }
}

pub open spec fn written_words(ws: Seq<Seq<char>>) -> Seq<Tok> {
    Seq::new(ws.len(), |k: int| Tok::Word(ws[k]))
}

pub open spec fn command_ok(c: SimpleV) -> bool {
    &&& c.args.len() > 0 || c.redirects.len() > 0
    &&& forall|k: int| 0 <= k < c.redirects.len() ==> redirect_ok(#[trigger] c.redirects[k])
}

/// A command: its words, and its redirects behind them.
pub open spec fn written_command(c: SimpleV) -> Seq<Tok> {
    written_words(c.args) + written_redirects(c.redirects)
}

/// The stages of a pipeline, with a `|` between each two.
pub open spec fn written_stages(cmds: Seq<SimpleV>) -> Seq<Tok>
    decreases cmds.len(),
{
    if cmds.len() == 0 {
        Seq::empty()
    } else if cmds.len() == 1 {
        written_command(cmds[0])
    } else {
        written_command(cmds[0]) + seq![Tok::Pipe] + written_stages(cmds.drop_first())
    }
}

/// What stands behind a command that is run in the background.
pub open spec fn written_background(background: bool) -> Seq<Tok> {
    if background {
        seq![Tok::Background]
    } else {
        Seq::empty()
    }
}

/// A tree whose commands can be written down, whose pipelines have at least two
/// stages, and whose chains group from the left.
pub open spec fn tree_ok(n: NodeV) -> bool
    decreases n,
{
    match n {
        NodeV::Simple(c, _) => command_ok(c),
        NodeV::Pipeline(cmds, _) => cmds.len() >= 2 && forall|k: int|
            0 <= k < cmds.len() ==> command_ok(#[trigger] cmds[k]),
        NodeV::And(l, r) => tree_ok(*l) && tree_ok(*r) && (*r is Simple || *r is Pipeline),
        NodeV::Or(l, r) => tree_ok(*l) && tree_ok(*r) && (*r is Simple || *r is Pipeline),
    }
}

/// A tree as tokens.
pub open spec fn written(n: NodeV) -> Seq<Tok>
    decreases n,
{
    match n {
        NodeV::Simple(c, background) => written_command(c) + written_background(background),
        NodeV::Pipeline(cmds, background) => written_stages(cmds) + written_background(background),
        NodeV::And(l, r) => written(*l) + seq![Tok::And] + written(*r),
        NodeV::Or(l, r) => written(*l) + seq![Tok::Or] + written(*r),
    }
}

/// Trees as tokens, with a semicolon between each two.
pub open spec fn written_list(ns: Seq<NodeV>) -> Seq<Tok>
    decreases ns.len(),
{
    if ns.len() == 0 {
        Seq::empty()
    } else if ns.len() == 1 {
        written(ns[0])
    } else {
        written(ns[0]) + seq![Tok::Semicolon] + written_list(ns.drop_first())
    }
}

pub open spec fn trees_ok(ns: Seq<NodeV>) -> bool {
    forall|k: int| 0 <= k < ns.len() ==> tree_ok(#[trigger] ns[k])
}

// ---------------------------------------------------------------------------
// Reading them back
// ---------------------------------------------------------------------------

/// Whether the tokens from `i` on start with `p`.
spec fn at(ts: Seq<Tok>, i: int, p: Seq<Tok>) -> bool {
    &&& 0 <= i
    &&& i + p.len() <= ts.len()
    &&& forall|k: int| 0 <= k < p.len() ==> ts[i + k] == #[trigger] p[k]
}

proof fn lemma_at_add(ts: Seq<Tok>, i: int, p: Seq<Tok>, q: Seq<Tok>)
    requires
        at(ts, i, p + q),
    ensures
        at(ts, i, p),
        at(ts, i + p.len(), q),
{
    assert forall|k: int| 0 <= k < p.len() implies ts[i + k] == #[trigger] p[k] by {
        assert((p + q)[k] == p[k]);
    }
    assert forall|k: int| 0 <= k < q.len() implies ts[i + p.len() + k] == #[trigger] q[k] by {
        assert((p + q)[p.len() + k] == q[k]);
    }
}

/// Whether what stands at `j` ends a command.
spec fn ends(ts: Seq<Tok>, j: int) -> bool {
    j >= ts.len() || ts[j] == Tok::Pipe || ts[j] == Tok::Semicolon || ts[j] == Tok::And || ts[j]
        == Tok::Or || ts[j] == Tok::Background
}

proof fn lemma_words(ts: Seq<Tok>, i: int, ws: Seq<Seq<char>>, c: SimpleV)
    requires
        at(ts, i, written_words(ws)),
        i + ws.len() < ts.len() ==> !parser::redirects(ts[i + ws.len() as int], true),
    ensures
        parser::simple_from(ts, i, c) == parser::simple_from(
            ts,
            i + ws.len(),
            SimpleV { args: c.args + ws, redirects: c.redirects },
        ),
    decreases ws.len(),
{
    if ws.len() == 0 {
        assert(c.args + ws =~= c.args);
    } else {
        let rest = ws.drop_first();
        assert(ts[i + 0] == written_words(ws)[0]);
        assert(at(ts, i + 1, written_words(rest))) by {
            assert forall|k: int| 0 <= k < rest.len() implies ts[i + 1 + k] == #[trigger] written_words(
                rest,
            )[k] by {
                assert(ts[i + (k + 1)] == written_words(ws)[k + 1]);
            }
        }
        if ws.len() > 1 {
            assert(ts[i + 1] == written_words(ws)[1]);
        }
        let d = parser::with_arg(c, ws[0]);
        assert(parser::simple_from(ts, i, c) == parser::simple_from(ts, i + 1, d));
        lemma_words(ts, i + 1, rest, d);
        assert(d.args + rest =~= c.args + ws);
    }
}

proof fn lemma_redirect(ts: Seq<Tok>, i: int, r: RedirectV, c: SimpleV)
    requires
        at(ts, i, written_redirect(r)),
        redirect_ok(r),
    ensures
        parser::simple_from(ts, i, c) == parser::simple_from(
            ts,
            i + 3,
            SimpleV { args: c.args, redirects: c.redirects.push(r) },
        ),
{
    let w = numbers::digits(r.fd as nat);
    let p = written_redirect(r);
    assert(ts[i + 0] == p[0]);
    assert(ts[i + 1] == p[1]);
    assert(ts[i + 2] == p[2]);
    numbers::law_decimal_read_back(r.fd);
    numbers::lemma_digits_read(r.fd as nat);
    assert(parser::number_at(ts, i));
    assert(parser::descriptor(w) == Some(r.fd));
    let t = ts[i + 2]->Word_0;
    assert(parser::redirects_for(ts[i + 1], Some(r.fd), t) =~= seq![r]);
    assert(parser::with_redirects(c, seq![r]).redirects =~= c.redirects.push(r));
}

proof fn lemma_redirects(ts: Seq<Tok>, i: int, rs: Seq<RedirectV>, c: SimpleV)
    requires
        at(ts, i, written_redirects(rs)),
        forall|k: int| 0 <= k < rs.len() ==> redirect_ok(#[trigger] rs[k]),
    ensures
        parser::simple_from(ts, i, c) == parser::simple_from(
            ts,
            i + written_redirects(rs).len(),
            SimpleV { args: c.args, redirects: c.redirects + rs },
        ),
    decreases rs.len(),
{
    if rs.len() == 0 {
        assert(c.redirects + rs =~= c.redirects);
    } else {
        let rest = rs.drop_first();
        lemma_at_add(ts, i, written_redirect(rs[0]), written_redirects(rest));
        lemma_redirect(ts, i, rs[0], c);
        assert forall|k: int| 0 <= k < rest.len() implies redirect_ok(#[trigger] rest[k]) by {
            assert(rest[k] == rs[k + 1]);
        }
        let d = SimpleV { args: c.args, redirects: c.redirects.push(rs[0]) };
        lemma_redirects(ts, i + 3, rest, d);
        assert(d.redirects + rest =~= c.redirects + rs);
    }
}

proof fn lemma_command(ts: Seq<Tok>, i: int, c: SimpleV)
    requires
        at(ts, i, written_command(c)),
        command_ok(c),
        ends(ts, i + written_command(c).len()),
    ensures
        parser::simple_from(ts, i, parser::no_command()) == Ok::<(SimpleV, int), Seq<char>>(
            (c, i + written_command(c).len()),
        ),
        written_command(c).len() > 0,
        written_command(c)[0] is Word,
{
    let ws = written_words(c.args);
    let rs = written_redirects(c.redirects);
    lemma_at_add(ts, i, ws, rs);
    if c.redirects.len() > 0 {
        assert(rs[0] == written_redirect(c.redirects[0])[0]);
        assert(ts[i + ws.len() + 0] == rs[0]);
        if c.args.len() == 0 {
            assert(written_command(c)[0] == rs[0]);
        }
    }
    if c.args.len() > 0 {
        assert(written_command(c)[0] == ws[0]);
    }
    lemma_words(ts, i, c.args, parser::no_command());
    let d = SimpleV {
        args: parser::no_command().args + c.args,
        redirects: parser::no_command().redirects,
    };
    lemma_redirects(ts, i + c.args.len(), c.redirects, d);
    assert(d.args =~= c.args);
    assert(d.redirects + c.redirects =~= c.redirects);
}

proof fn lemma_stages(ts: Seq<Tok>, i: int, cmds: Seq<SimpleV>, acc: Seq<SimpleV>)
    requires
        at(ts, i, written_stages(cmds)),
        cmds.len() > 0,
        forall|k: int| 0 <= k < cmds.len() ==> command_ok(#[trigger] cmds[k]),
        ends(ts, i + written_stages(cmds).len()),
        i + written_stages(cmds).len() < ts.len() ==> ts[i + written_stages(cmds).len()]
            != Tok::Pipe,
    ensures
        ({
            let j = i + written_stages(cmds).len();
            parser::pipeline_from(ts, i, acc) == Ok::<(NodeV, int), Seq<char>>(
                if j < ts.len() && ts[j] == Tok::Background {
                    (parser::pipeline_node(acc + cmds, true), j + 1)
                } else {
                    (parser::pipeline_node(acc + cmds, false), j)
                },
            )
        }),
        written_stages(cmds).len() > 0,
        written_stages(cmds)[0] is Word,
    decreases cmds.len(),
{
    let first = written_command(cmds[0]);
    assert(command_ok(cmds[0]));
    if cmds.len() == 1 {
        lemma_command(ts, i, cmds[0]);
        assert(acc.push(cmds[0]) =~= acc + cmds);
    } else {
        let rest = cmds.drop_first();
        assert(written_stages(cmds) =~= first + (seq![Tok::Pipe] + written_stages(rest)));
        lemma_at_add(ts, i, first, seq![Tok::Pipe] + written_stages(rest));
        lemma_at_add(ts, i + first.len(), seq![Tok::Pipe], written_stages(rest));
        assert(ts[i + first.len() + 0] == seq![Tok::Pipe][0]);
        lemma_command(ts, i, cmds[0]);
        assert(written_stages(cmds)[0] == first[0]);
        assert forall|k: int| 0 <= k < rest.len() implies command_ok(#[trigger] rest[k]) by {
            assert(rest[k] == cmds[k + 1]);
        }
        lemma_stages(ts, i + first.len() + 1, rest, acc.push(cmds[0]));
        assert(acc.push(cmds[0]) + rest =~= acc + cmds);
        parser::lemma_simple_from(ts, i, parser::no_command());
    }
}

/// Whether a tree ends with a command in the background.
spec fn ends_in_background(n: NodeV) -> bool
    decreases n,
{
    match n {
        NodeV::Simple(_, b) => b,
        NodeV::Pipeline(_, b) => b,
        NodeV::And(_, r) => ends_in_background(*r),
        NodeV::Or(_, r) => ends_in_background(*r),
    }
}

/// Whether what stands at `j` does not go on with the pipeline before it.
spec fn pipeline_over(ts: Seq<Tok>, j: int, background: bool) -> bool {
    background || (ends(ts, j) && (j < ts.len() ==> ts[j] != Tok::Pipe && ts[j]
        != Tok::Background))
}

proof fn lemma_pipeline(ts: Seq<Tok>, i: int, n: NodeV)
    requires
        at(ts, i, written(n)),
        tree_ok(n),
        n is Simple || n is Pipeline,
        pipeline_over(ts, i + written(n).len(), ends_in_background(n)),
    ensures
        parser::pipeline_from(ts, i, Seq::empty()) == Ok::<(NodeV, int), Seq<char>>(
            (n, i + written(n).len()),
        ),
        written(n).len() > 0,
        written(n)[0] is Word,
{
    let (cmds, background) = match n {
        NodeV::Simple(c, b) => (seq![c], b),
        NodeV::Pipeline(cs, b) => (cs, b),
        _ => (Seq::empty(), false),
    };
    let w = written_stages(cmds);
    assert(written(n) == w + written_background(background));
    lemma_at_add(ts, i, w, written_background(background));
    if background {
        assert(ts[i + w.len() + 0] == written_background(background)[0]);
    }
    lemma_stages(ts, i, cmds, Seq::empty());
    assert(Seq::<SimpleV>::empty() + cmds =~= cmds);
    assert(written(n)[0] == w[0]);
}

proof fn lemma_tree(ts: Seq<Tok>, i: int, n: NodeV)
    requires
        at(ts, i, written(n)),
        tree_ok(n),
        pipeline_over(ts, i + written(n).len(), ends_in_background(n)),
    ensures
        parser::and_or_from(ts, i) == parser::chain_from(ts, i + written(n).len(), n),
        written(n).len() > 0,
        written(n)[0] is Word,
    decreases n, 0int,
{
    match n {
        NodeV::Simple(_, _) => {
            lemma_pipeline(ts, i, n);
        },
        NodeV::Pipeline(_, _) => {
            lemma_pipeline(ts, i, n);
        },
        NodeV::And(l, r) => {
            lemma_operator(ts, i, *l, Tok::And, *r);
        },
        NodeV::Or(l, r) => {
            lemma_operator(ts, i, *l, Tok::Or, *r);
        },
    }
}

proof fn lemma_operator(ts: Seq<Tok>, i: int, l: NodeV, op: Tok, r: NodeV)
    requires
        at(ts, i, written(l) + seq![op] + written(r)),
        tree_ok(l),
        tree_ok(r),
        r is Simple || r is Pipeline,
        op == Tok::And || op == Tok::Or,
        pipeline_over(
            ts,
            i + (written(l) + seq![op] + written(r)).len(),
            ends_in_background(r),
        ),
    ensures
        parser::and_or_from(ts, i) == parser::chain_from(
            ts,
            i + (written(l) + seq![op] + written(r)).len(),
            if op == Tok::And {
                NodeV::And(Box::new(l), Box::new(r))
            } else {
                NodeV::Or(Box::new(l), Box::new(r))
            },
        ),
        (written(l) + seq![op] + written(r)).len() > 0,
        (written(l) + seq![op] + written(r))[0] is Word,
    decreases l, 1int,
{
    let a = written(l);
    let b = written(r);
    assert(a + seq![op] + b =~= a + (seq![op] + b));
    lemma_at_add(ts, i, a, seq![op] + b);
    lemma_at_add(ts, i + a.len(), seq![op], b);
    assert(ts[i + a.len() + 0] == seq![op][0]);
    lemma_tree(ts, i, l);
    assert((a + seq![op] + b)[0] == a[0]);
    lemma_pipeline(ts, i + a.len() + 1, r);
    parser::lemma_pipeline_from(ts, i + a.len() + 1, Seq::empty());
}

proof fn lemma_list(ts: Seq<Tok>, i: int, ns: Seq<NodeV>, acc: Seq<NodeV>)
    requires
        at(ts, i, written_list(ns)),
        trees_ok(ns),
        ns.len() > 0,
        i + written_list(ns).len() < ts.len() ==> ts[i + written_list(ns).len()]
            == Tok::Semicolon,
    ensures
        parser::nodes_from(ts, i, acc) == parser::nodes_from(
            ts,
            if i + written_list(ns).len() < ts.len() {
                i + written_list(ns).len() + 1
            } else {
                ts.len() as int
            },
            acc + ns,
        ),
        written_list(ns).len() > 0,
        written_list(ns)[0] is Word,
    decreases ns.len(),
{
    let first = written(ns[0]);
    assert(tree_ok(ns[0]));
    if ns.len() == 1 {
        lemma_tree(ts, i, ns[0]);
        assert(acc.push(ns[0]) =~= acc + ns);
        parser::lemma_and_or_from(ts, i);
    } else {
        let rest = ns.drop_first();
        assert(written_list(ns) =~= first + (seq![Tok::Semicolon] + written_list(rest)));
        lemma_at_add(ts, i, first, seq![Tok::Semicolon] + written_list(rest));
        lemma_at_add(ts, i + first.len(), seq![Tok::Semicolon], written_list(rest));
        assert(ts[i + first.len() + 0] == seq![Tok::Semicolon][0]);
        lemma_tree(ts, i, ns[0]);
        assert(written_list(ns)[0] == first[0]);
        assert(trees_ok(rest)) by {
            assert forall|k: int| 0 <= k < rest.len() implies tree_ok(#[trigger] rest[k]) by {
                assert(rest[k] == ns[k + 1]);
            }
        }
        lemma_list(ts, i + first.len() + 1, rest, acc.push(ns[0]));
        assert(acc.push(ns[0]) + rest =~= acc + ns);
        parser::lemma_and_or_from(ts, i);
    }
}

/// Trees that are written down, with their redirects numbered, are read back as
/// they were: which words and which redirects belong to which command, what is
/// joined by pipes, what follows from what, and what runs in the background. A
/// semicolon at the end changes nothing.
pub proof fn law_written_trees_are_read_back(ns: Seq<NodeV>)
    requires
        trees_ok(ns),
    ensures
        parser::parsed(written_list(ns)) == Ok::<Seq<NodeV>, Seq<char>>(ns),
        ns.len() > 0 ==> parser::parsed(written_list(ns).push(Tok::Semicolon)) == Ok::<
            Seq<NodeV>,
            Seq<char>,
        >(ns),
{
    let ts = written_list(ns);
    if ns.len() == 0 {
        assert(ns =~= Seq::empty());
    } else {
        lemma_list(ts, 0, ns, Seq::empty());
        assert(Seq::<NodeV>::empty() + ns =~= ns);
        let more = ts.push(Tok::Semicolon);
        assert(at(more, 0, ts));
        lemma_list(more, 0, ns, Seq::empty());
    }
}

/// A command in the background needs nothing between it and the next.
pub proof fn law_background_ends_a_command(n: NodeV, ns: Seq<NodeV>)
    requires
        tree_ok(n),
        n matches NodeV::Simple(_, b) ==> b,
        n matches NodeV::Pipeline(_, b) ==> b,
        n is Simple || n is Pipeline,
        trees_ok(ns),
        ns.len() > 0,
    ensures
        parser::parsed(written(n) + written_list(ns)) == Ok::<Seq<NodeV>, Seq<char>>(
            seq![n] + ns,
        ),
{
    let a = written(n);
    let b = written_list(ns);
    let ts = a + b;
    assert(at(ts, 0, a + b));
    lemma_at_add(ts, 0, a, b);
    lemma_tree(ts, 0, n);
    lemma_list(ts, a.len() as int, ns, Seq::empty().push(n));
    assert(Seq::empty().push(n) + ns =~= seq![n] + ns);
    assert(ts[a.len() as int] == b[0]);
    parser::lemma_and_or_from(ts, 0);
}

// ---------------------------------------------------------------------------
// Single redirects
// ---------------------------------------------------------------------------

/// A tree that is one command and no more.
pub open spec fn one_command(args: Seq<Seq<char>>, redirects: Seq<RedirectV>) -> Result<
    Seq<NodeV>,
    Seq<char>,
> {
    Ok(seq![NodeV::Simple(SimpleV { args, redirects }, false)])
}

proof fn lemma_one_command(ts: Seq<Tok>, c: SimpleV)
    requires
        parser::simple_from(ts, 0, parser::no_command()) == Ok::<(SimpleV, int), Seq<char>>(
            (c, ts.len() as int),
        ),
        ts.len() > 0,
    ensures
        parser::parsed(ts) == one_command(c.args, c.redirects),
{
    assert(Seq::<SimpleV>::empty().push(c) =~= seq![c]);
    assert(Seq::<NodeV>::empty().push(NodeV::Simple(c, false)) =~= seq![NodeV::Simple(c, false)]);
    let n = NodeV::Simple(c, false);
    assert(parser::pipeline_from(ts, 0, Seq::empty()) == Ok::<(NodeV, int), Seq<char>>(
        (n, ts.len() as int),
    ));
    parser::lemma_and_or_from(ts, 0);
    assert(parser::nodes_from(ts, ts.len() as int, Seq::empty().push(n)) == Ok::<
        Seq<NodeV>,
        Seq<char>,
    >(Seq::empty().push(n)));
}

/// The command with one operator, with words before and behind it.
proof fn lemma_operator_in_command(
    before: Seq<Seq<char>>,
    number: Seq<Tok>,
    op: Tok,
    target: Seq<char>,
    after: Seq<Seq<char>>,
    fd: Option<int>,
)
    requires
        parser::redirects(op, false),
        fd is None ==> number.len() == 0,
        fd is None && before.len() > 0 ==> !(before.last().len() > 0 && numbers::all_digits(
            before.last(),
        )),
        fd matches Some(n) ==> parser::redirects(op, true) && number.len() == 1 && (number[0] matches Tok::Word(w)
            && w.len() > 0 && numbers::all_digits(w) && parser::descriptor(w) == Some(n)),
        parser::redirects_for(op, fd, target).len() > 0,
    ensures
        parser::parsed(
            written_words(before) + number + seq![op, Tok::Word(target)] + written_words(after),
        ) == one_command(before + after, parser::redirects_for(op, fd, target)),
{
    let a = written_words(before);
    let o = seq![op, Tok::Word(target)];
    let b = written_words(after);
    let ts = a + number + o + b;
    let m = (a.len() + number.len()) as int;
    let rs = parser::redirects_for(op, fd, target);
    assert(ts[m] == op);
    assert(ts[m + 1] == Tok::Word(target));
    if fd is Some {
        assert(ts[a.len() as int] == number[0]);
    }
    let c0 = parser::no_command();
    if fd is None && before.len() > 0 {
        // The last word before the operator is no number.
        let front = before.drop_last();
        assert(at(ts, 0, written_words(front)));
        assert(ts[front.len() as int] == Tok::Word(before.last()));
        lemma_words(ts, 0, front, c0);
        let d = SimpleV { args: c0.args + front, redirects: c0.redirects };
        assert(parser::simple_from(ts, front.len() as int, d) == parser::simple_from(
            ts,
            a.len() as int,
            parser::with_arg(d, before.last()),
        ));
        assert(parser::with_arg(d, before.last()).args =~= before);
    } else {
        assert(at(ts, 0, a));
        if fd is Some {
            lemma_words(ts, 0, before, c0);
        }
        assert(c0.args + before =~= before);
    }
    let c1 = SimpleV { args: before, redirects: c0.redirects };
    assert(parser::simple_from(ts, 0, c0) == parser::simple_from(ts, a.len() as int, c1));
    let c2 = parser::with_redirects(c1, rs);
    assert(c2.redirects =~= rs);
    if fd is Some {
        assert(parser::number_at(ts, a.len() as int));
    }
    assert(parser::simple_from(ts, a.len() as int, c1) == parser::simple_from(ts, m + 2, c2));
    assert(at(ts, m + 2, b)) by {
        assert forall|k: int| 0 <= k < b.len() implies ts[m + 2 + k] == #[trigger] b[k] by {
        }
    }
    lemma_words(ts, m + 2, after, c2);
    lemma_one_command(ts, SimpleV { args: before + after, redirects: rs });
}

/// A number before an operator names the descriptor that is redirected, and it
/// alone. It is no word of the command. With `<>` it is redirected both ways.
pub proof fn law_numbered_redirect(
    before: Seq<Seq<char>>,
    w: Seq<char>,
    op: Tok,
    target: Seq<char>,
    after: Seq<Seq<char>>,
)
    requires
        w.len() > 0,
        forall|k: int| 0 <= k < w.len() ==> '0' <= #[trigger] w[k] <= '9',
        numbers::digits_value(w) <= i32::MAX,
    ensures
        ({
            let fd = numbers::digits_value(w);
            let result = |op: Tok|
                parser::parsed(
                    written_words(before) + seq![Tok::Word(w), op, Tok::Word(target)]
                        + written_words(after),
                );
            let all = before + after;
            let one = |kind: RedirectKind| seq![RedirectV { fd, kind, target }];
            let closing = seq![
                RedirectV { fd, kind: RedirectKind::Close, target: Seq::empty() },
            ];
            &&& result(Tok::Less) == one_command(all, one(RedirectKind::In))
            &&& result(Tok::Great) == one_command(all, one(RedirectKind::Out))
            &&& result(Tok::DoubleGreat) == one_command(all, one(RedirectKind::Append))
            &&& target != "-"@ ==> result(Tok::GreatAnd) == one_command(
                all,
                one(RedirectKind::DupOut),
            )
            &&& target != "-"@ ==> result(Tok::LessAnd) == one_command(
                all,
                one(RedirectKind::DupIn),
            )
            &&& target == "-"@ ==> result(Tok::GreatAnd) == one_command(all, closing)
            &&& target == "-"@ ==> result(Tok::LessAnd) == one_command(all, closing)
            &&& result(Tok::LessGreat) == one_command(
                all,
                one(RedirectKind::In) + one(RedirectKind::Out),
            )
        }),
{
    let fd = numbers::digits_value(w);
    assert(numbers::all_digits(w));
    assert(w[0] != '-' && w[0] != '+');
    numbers::lemma_digits_nonneg(w);
    assert(parser::descriptor(w) == Some(fd));
    let ops = seq![
        Tok::Less,
        Tok::Great,
        Tok::DoubleGreat,
        Tok::GreatAnd,
        Tok::LessAnd,
        Tok::LessGreat,
    ];
    assert forall|k: int| 0 <= k < ops.len() implies parser::parsed(
        written_words(before) + seq![Tok::Word(w), #[trigger] ops[k], Tok::Word(target)]
            + written_words(after),
    ) == one_command(before + after, parser::redirects_for(ops[k], Some(fd), target)) by {
        lemma_operator_in_command(before, seq![Tok::Word(w)], ops[k], target, after, Some(fd));
        assert(written_words(before) + seq![Tok::Word(w)] + seq![ops[k], Tok::Word(target)]
            + written_words(after) =~= written_words(before) + seq![
            Tok::Word(w),
            ops[k],
            Tok::Word(target),
        ] + written_words(after));
    }
    assert(ops[0] == Tok::Less);
    assert(ops[1] == Tok::Great);
    assert(ops[2] == Tok::DoubleGreat);
    assert(ops[3] == Tok::GreatAnd);
    assert(ops[4] == Tok::LessAnd);
    assert(ops[5] == Tok::LessGreat);
    let closing = seq![RedirectV { fd, kind: RedirectKind::Close, target: Seq::empty() }];
    assert(parser::redirects_for(Tok::Less, Some(fd), target) =~= seq![
        RedirectV { fd, kind: RedirectKind::In, target },
    ]);
    assert(parser::redirects_for(Tok::Great, Some(fd), target) =~= seq![
        RedirectV { fd, kind: RedirectKind::Out, target },
    ]);
    assert(parser::redirects_for(Tok::DoubleGreat, Some(fd), target) =~= seq![
        RedirectV { fd, kind: RedirectKind::Append, target },
    ]);
    if target == "-"@ {
        assert(parser::redirects_for(Tok::GreatAnd, Some(fd), target) =~= closing);
        assert(parser::redirects_for(Tok::LessAnd, Some(fd), target) =~= closing);
    } else {
        assert(parser::redirects_for(Tok::GreatAnd, Some(fd), target) =~= seq![
            RedirectV { fd, kind: RedirectKind::DupOut, target },
        ]);
        assert(parser::redirects_for(Tok::LessAnd, Some(fd), target) =~= seq![
            RedirectV { fd, kind: RedirectKind::DupIn, target },
        ]);
    }
    assert(parser::redirects_for(Tok::LessGreat, Some(fd), target) =~= seq![
        RedirectV { fd, kind: RedirectKind::In, target },
    ] + seq![RedirectV { fd, kind: RedirectKind::Out, target }]);
}

/// Without a number it is the standard input that is redirected by an operator
/// that reads, and the standard output by one that writes. Operators for both
/// outputs redirect these two.
pub proof fn law_redirect_without_number(
    before: Seq<Seq<char>>,
    target: Seq<char>,
    after: Seq<Seq<char>>,
)
    requires
        before.len() > 0 ==> before.last().len() == 0 || exists|k: int|
            0 <= k < before.last().len() && !('0' <= #[trigger] before.last()[k] <= '9'),
    ensures
        ({
            let result = |op: Tok|
                parser::parsed(
                    written_words(before) + seq![op, Tok::Word(target)] + written_words(after),
                );
            let all = before + after;
            let one = |fd: int, kind: RedirectKind| seq![RedirectV { fd, kind, target }];
            let closing = |fd: int|
                seq![RedirectV { fd, kind: RedirectKind::Close, target: Seq::empty() }];
            &&& result(Tok::Less) == one_command(all, one(0, RedirectKind::In))
            &&& result(Tok::Great) == one_command(all, one(1, RedirectKind::Out))
            &&& result(Tok::DoubleGreat) == one_command(all, one(1, RedirectKind::Append))
            &&& target != "-"@ ==> result(Tok::GreatAnd) == one_command(
                all,
                one(1, RedirectKind::DupOut),
            )
            &&& target != "-"@ ==> result(Tok::LessAnd) == one_command(
                all,
                one(0, RedirectKind::DupIn),
            )
            &&& target == "-"@ ==> result(Tok::GreatAnd) == one_command(all, closing(1))
            &&& target == "-"@ ==> result(Tok::LessAnd) == one_command(all, closing(0))
            &&& result(Tok::LessGreat) == one_command(
                all,
                one(0, RedirectKind::In) + one(1, RedirectKind::Out),
            )
            &&& result(Tok::BothGreat) == one_command(
                all,
                one(1, RedirectKind::Out) + one(2, RedirectKind::Out),
            )
            &&& result(Tok::BothDoubleGreat) == one_command(
                all,
                one(1, RedirectKind::Append) + one(2, RedirectKind::Append),
            )
        }),
{
    if before.len() > 0 && before.last().len() > 0 {
        let k = choose|k: int|
            0 <= k < before.last().len() && !('0' <= #[trigger] before.last()[k] <= '9');
        assert(!text::ascii_digit(before.last()[k]));
    }
    let ops = seq![
        Tok::Less,
        Tok::Great,
        Tok::DoubleGreat,
        Tok::GreatAnd,
        Tok::LessAnd,
        Tok::LessGreat,
        Tok::BothGreat,
        Tok::BothDoubleGreat,
    ];
    assert forall|k: int| 0 <= k < ops.len() implies parser::parsed(
        written_words(before) + seq![#[trigger] ops[k], Tok::Word(target)] + written_words(after),
    ) == one_command(before + after, parser::redirects_for(ops[k], None, target)) by {
        lemma_operator_in_command(before, Seq::empty(), ops[k], target, after, None);
        assert(written_words(before) + Seq::empty() =~= written_words(before));
    }
    assert(ops[0] == Tok::Less);
    assert(ops[1] == Tok::Great);
    assert(ops[2] == Tok::DoubleGreat);
    assert(ops[3] == Tok::GreatAnd);
    assert(ops[4] == Tok::LessAnd);
    assert(ops[5] == Tok::LessGreat);
    assert(ops[6] == Tok::BothGreat);
    assert(ops[7] == Tok::BothDoubleGreat);
    let one = |fd: int, kind: RedirectKind| seq![RedirectV { fd, kind, target }];
    let closing = |fd: int|
        seq![RedirectV { fd, kind: RedirectKind::Close, target: Seq::empty() }];
    assert(parser::redirects_for(Tok::Less, None, target) =~= one(0, RedirectKind::In));
    assert(parser::redirects_for(Tok::Great, None, target) =~= one(1, RedirectKind::Out));
    assert(parser::redirects_for(Tok::DoubleGreat, None, target) =~= one(1, RedirectKind::Append));
    if target == "-"@ {
        assert(parser::redirects_for(Tok::GreatAnd, None, target) =~= closing(1));
        assert(parser::redirects_for(Tok::LessAnd, None, target) =~= closing(0));
    } else {
        assert(parser::redirects_for(Tok::GreatAnd, None, target) =~= one(
            1,
            RedirectKind::DupOut,
        ));
        assert(parser::redirects_for(Tok::LessAnd, None, target) =~= one(0, RedirectKind::DupIn));
    }
    assert(parser::redirects_for(Tok::LessGreat, None, target) =~= one(0, RedirectKind::In) + one(
        1,
        RedirectKind::Out,
    ));
    assert(parser::redirects_for(Tok::BothGreat, None, target) =~= one(1, RedirectKind::Out) + one(
        2,
        RedirectKind::Out,
    ));
    assert(parser::redirects_for(Tok::BothDoubleGreat, None, target) =~= one(
        1,
        RedirectKind::Append,
    ) + one(2, RedirectKind::Append));
}

// ---------------------------------------------------------------------------
// What is refused
// ---------------------------------------------------------------------------

/// A line that starts with an operator where a command is due is refused, and so
/// is one that ends behind `|`, `&&` or `||`.
pub proof fn law_missing_command_is_refused(n: NodeV, op: Tok, rest: Seq<Tok>)
    requires
        tree_ok(n),
        op == Tok::Pipe || op == Tok::And || op == Tok::Or || op == Tok::Semicolon || op
            == Tok::Background,
    ensures
        parser::parsed(seq![op] + rest) == Err::<Seq<NodeV>, Seq<char>>("expected command"@),
        op == Tok::And || op == Tok::Or ==> parser::parsed(written(n) + seq![op]) == Err::<
            Seq<NodeV>,
            Seq<char>,
        >("expected command"@),
        op == Tok::Pipe ==> (n matches NodeV::Simple(_, b) && !b ==> parser::parsed(
            written(n) + seq![op],
        ) == Err::<Seq<NodeV>, Seq<char>>("expected command"@)),
{
    let ts = seq![op] + rest;
    assert(ts[0] == op);
    let us = written(n) + seq![op];
    let j = written(n).len() as int;
    assert(us[j] == op);
    assert(at(us, 0, written(n)));
    if op == Tok::And || op == Tok::Or {
        lemma_tree(us, 0, n);
        assert(parser::simple_from(us, j + 1, parser::no_command()) == Err::<
            (SimpleV, int),
            Seq<char>,
        >("expected command"@));
        assert(parser::pipeline_from(us, j + 1, Seq::empty()) == Err::<(NodeV, int), Seq<char>>(
            "expected command"@,
        ));
        assert(parser::chain_from(us, j, n) == Err::<(NodeV, int), Seq<char>>(
            "expected command"@,
        ));
    }
    if op == Tok::Pipe {
        if let NodeV::Simple(c, b) = n {
            if !b {
                assert(written(n) =~= written_command(c));
                lemma_command(us, 0, c);
                parser::lemma_simple_from(us, 0, parser::no_command());
                assert(parser::simple_from(us, j + 1, parser::no_command()) == Err::<
                    (SimpleV, int),
                    Seq<char>,
                >("expected command"@));
                assert(parser::pipeline_from(us, j + 1, Seq::empty().push(c)) == Err::<
                    (NodeV, int),
                    Seq<char>,
                >("expected command"@));
            }
        }
    }
}

/// An operator that redirects is refused where no word follows it.
pub proof fn law_missing_target_is_refused(before: Seq<Seq<char>>, op: Tok, rest: Seq<Tok>)
    requires
        op == Tok::Less || op == Tok::Great || op == Tok::DoubleGreat || op == Tok::LessGreat || op
            == Tok::GreatAnd || op == Tok::LessAnd || op == Tok::BothGreat || op
            == Tok::BothDoubleGreat,
        rest.len() == 0 || !(rest[0] is Word),
        before.len() > 0 ==> before.last().len() > 0 && !('0' <= before.last()[0] <= '9'),
    ensures
        parser::parsed(written_words(before) + seq![op] + rest) == Err::<Seq<NodeV>, Seq<char>>(
            "expected filename after redirection operator"@,
        ),
{
    let a = written_words(before);
    let ts = a + seq![op] + rest;
    let m = a.len() as int;
    assert(ts[m] == op);
    if rest.len() > 0 {
        assert(ts[m + 1] == rest[0]);
    }
    let c0 = parser::no_command();
    if before.len() > 0 {
        let front = before.drop_last();
        assert(!text::ascii_digit(before.last()[0]));
        assert(at(ts, 0, written_words(front)));
        assert(ts[front.len() as int] == Tok::Word(before.last()));
        lemma_words(ts, 0, front, c0);
        let d = SimpleV { args: c0.args + front, redirects: c0.redirects };
        assert(parser::simple_from(ts, front.len() as int, d) == parser::simple_from(
            ts,
            m,
            parser::with_arg(d, before.last()),
        ));
    }
    assert(parser::simple_from(ts, 0, c0) == Err::<(SimpleV, int), Seq<char>>(
        "expected filename after redirection operator"@,
    ));
}

} // verus!
