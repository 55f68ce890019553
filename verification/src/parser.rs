//! The tree of a command line, and the parser that builds it from tokens.

use vstd::prelude::*;
use vstd::string::*;

use crate::numbers;
use crate::numbers::parse_i32;
use crate::text;
use crate::text::{copies, is_ascii_digit, owned, same, to_chars};
use crate::token;
use crate::token::{Tok, Token};

verus! {

// ---------------------------------------------------------------------------
// The tree
// ---------------------------------------------------------------------------

#[derive(Debug, Clone, Copy, PartialEq, Eq, Structural)]
pub enum RedirectKind {
    In,
    Out,
    Append,
    DupOut,
    DupIn,
    Close,
}

#[derive(Debug)]
pub struct Redirect {
    pub fd: i32,
    pub kind: RedirectKind,
    pub target: String,
}

#[derive(Debug)]
pub struct Simple {
    pub args: Vec<String>,
    pub redirects: Vec<Redirect>,
}

#[derive(Debug)]
pub enum Node {
    Simple(Simple, bool),
    Pipeline(Vec<Simple>, bool),
    And(Box<Node>, Box<Node>),
    Or(Box<Node>, Box<Node>),
}

#[verifier::ext_equal]
pub struct RedirectV {
    pub fd: int,
    pub kind: RedirectKind,
    pub target: Seq<char>,
}

#[verifier::ext_equal]
pub struct SimpleV {
    pub args: Seq<Seq<char>>,
    pub redirects: Seq<RedirectV>,
}

#[verifier::ext_equal]
pub enum NodeV {
    Simple(SimpleV, bool),
    Pipeline(Seq<SimpleV>, bool),
    And(Box<NodeV>, Box<NodeV>),
    Or(Box<NodeV>, Box<NodeV>),
}

impl View for Redirect {
    type V = RedirectV;

    open spec fn view(&self) -> RedirectV {
        RedirectV { fd: self.fd as int, kind: self.kind, target: self.target@ }
    }
}

pub open spec fn reds(v: Seq<Redirect>) -> Seq<RedirectV> {
    v.map_values(|r: Redirect| r@)
}

impl View for Simple {
    type V = SimpleV;

    open spec fn view(&self) -> SimpleV {
        SimpleV { args: text::texts(self.args@), redirects: reds(self.redirects@) }
    }
}

pub open spec fn simples(v: Seq<Simple>) -> Seq<SimpleV> {
    v.map_values(|s: Simple| s@)
}

pub open spec fn node_view(n: Node) -> NodeV
    decreases n,
{
    match n {
        Node::Simple(s, background) => NodeV::Simple(s@, background),
        Node::Pipeline(cmds, background) => NodeV::Pipeline(simples(cmds@), background),
        Node::And(l, r) => NodeV::And(Box::new(node_view(*l)), Box::new(node_view(*r))),
        Node::Or(l, r) => NodeV::Or(Box::new(node_view(*l)), Box::new(node_view(*r))),
    }
}

impl View for Node {
    type V = NodeV;

    open spec fn view(&self) -> NodeV {
        node_view(*self)
    }
}

pub open spec fn nodes(v: Seq<Node>) -> Seq<NodeV> {
    v.map_values(|n: Node| n@)
}

impl Clone for Redirect {
    fn clone(&self) -> (r: Redirect)
        ensures
            r@ == self@,
    {
        Redirect { fd: self.fd, kind: self.kind, target: self.target.clone() }
    }
}

/// A copy of a list of redirects.
pub fn copy_redirects(v: &Vec<Redirect>) -> (r: Vec<Redirect>)
    ensures
        reds(r@) == reds(v@),
{
    let mut r: Vec<Redirect> = Vec::new();
    let mut i: usize = 0;
    while i < v.len()
        invariant
            i <= v@.len(),
            r@.len() == i,
            forall|k: int| 0 <= k < i ==> r@[k]@ == v@[k]@,
        decreases v@.len() - i,
    {
        r.push(v[i].clone());
        i += 1;
    }
    assert(reds(r@) =~= reds(v@));
    r
}

impl Clone for Simple {
    fn clone(&self) -> (r: Simple)
        ensures
            r@ == self@,
    {
        Simple { args: copies(&self.args), redirects: copy_redirects(&self.redirects) }
    }
}

// ---------------------------------------------------------------------------
// The grammar
// ---------------------------------------------------------------------------

/// Whether `t` is a redirection operator; with a descriptor in front of it
/// (`numbered`), those for both outputs are not.
pub open spec fn redirects(t: Tok, numbered: bool) -> bool {
    match t {
        Tok::Less | Tok::Great | Tok::DoubleGreat | Tok::LessGreat | Tok::GreatAnd
        | Tok::LessAnd => true,
        Tok::BothGreat | Tok::BothDoubleGreat => !numbered,
        _ => false,
    }
}

/// The descriptor that is redirected: the one given, or else the usual one.
pub open spec fn or_usual(fd: Option<int>, usual: int) -> int {
    match fd {
        Some(n) => n,
        None => usual,
    }
}

pub open spec fn redirect(fd: int, kind: RedirectKind, target: Seq<char>) -> RedirectV {
    RedirectV { fd, kind, target }
}

/// A duplication of a descriptor; the target `-` closes the descriptor instead.
pub open spec fn duplication(fd: int, kind: RedirectKind, target: Seq<char>) -> RedirectV {
    if target == "-"@ {
        redirect(fd, RedirectKind::Close, Seq::empty())
    } else {
        redirect(fd, kind, target)
    }
}

/// What a redirection operator with a target stands for.
pub open spec fn redirects_for(t: Tok, fd: Option<int>, target: Seq<char>) -> Seq<RedirectV> {
    match t {
        Tok::Less => seq![redirect(or_usual(fd, 0), RedirectKind::In, target)],
        Tok::Great => seq![redirect(or_usual(fd, 1), RedirectKind::Out, target)],
        Tok::DoubleGreat => seq![redirect(or_usual(fd, 1), RedirectKind::Append, target)],
        Tok::LessGreat => seq![
            redirect(or_usual(fd, 0), RedirectKind::In, target),
            redirect(or_usual(fd, 1), RedirectKind::Out, target),
        ],
        Tok::GreatAnd => seq![duplication(or_usual(fd, 1), RedirectKind::DupOut, target)],
        Tok::LessAnd => seq![duplication(or_usual(fd, 0), RedirectKind::DupIn, target)],
        Tok::BothGreat => seq![
            redirect(1, RedirectKind::Out, target),
            redirect(2, RedirectKind::Out, target),
        ],
        Tok::BothDoubleGreat => seq![
            redirect(1, RedirectKind::Append, target),
            redirect(2, RedirectKind::Append, target),
        ],
        _ => Seq::empty(),
    }
}

/// The text of the word at `i`, if there is one.
pub open spec fn word_at(ts: Seq<Tok>, i: int) -> Option<Seq<char>> {
    if 0 <= i < ts.len() {
        match ts[i] {
            Tok::Word(w) => Some(w),
            _ => None,
        }
    } else {
        None
    }
}

/// Whether the token at `i` is `t`.
pub open spec fn tok_at(ts: Seq<Tok>, i: int, t: Tok) -> bool {
    0 <= i < ts.len() && ts[i] == t
}

pub open spec fn with_arg(c: SimpleV, w: Seq<char>) -> SimpleV {
    SimpleV { args: c.args.push(w), redirects: c.redirects }
}

pub open spec fn with_redirects(c: SimpleV, r: Seq<RedirectV>) -> SimpleV {
    SimpleV { args: c.args, redirects: c.redirects + r }
}

pub open spec fn no_command() -> SimpleV {
    SimpleV { args: Seq::empty(), redirects: Seq::empty() }
}

/// Whether the token at `i` is a word of digits that another token follows.
pub open spec fn number_at(ts: Seq<Tok>, i: int) -> bool {
    &&& i + 1 < ts.len()
    &&& word_at(ts, i) matches Some(w) && w.len() > 0 && numbers::all_digits(w)
}

/// The file descriptor that a word of digits names.
pub open spec fn descriptor(w: Seq<char>) -> Option<int> {
    numbers::within(numbers::signed_value(w), i32::MIN as int, i32::MAX as int)
}

/// The simple command that goes on at `i`, put behind `c`, and where it ends.
pub open spec fn simple_from(ts: Seq<Tok>, i: int, c: SimpleV) -> Result<
    (SimpleV, int),
    Seq<char>,
>
    decreases ts.len() - i,
{
    if 0 <= i < ts.len() && ts[i] is Word {
        let w = ts[i]->Word_0;
        if number_at(ts, i) && redirects(ts[i + 1], true) {
            match descriptor(w) {
                None => Err(w + ": invalid file descriptor"@),
                Some(fd) => match word_at(ts, i + 2) {
                    Some(t) => simple_from(
                        ts,
                        i + 3,
                        with_redirects(c, redirects_for(ts[i + 1], Some(fd), t)),
                    ),
                    None => Err("expected filename after redirection operator"@),
                },
            }
        } else {
            simple_from(ts, i + 1, with_arg(c, w))
        }
    } else if 0 <= i < ts.len() && redirects(ts[i], false) {
        match word_at(ts, i + 1) {
            Some(t) => simple_from(
                ts,
                i + 2,
                with_redirects(c, redirects_for(ts[i], None, t)),
            ),
            None => Err("expected filename after redirection operator"@),
        }
    } else if c.args.len() == 0 && c.redirects.len() == 0 {
        Err("expected command"@)
    } else {
        Ok((c, i))
    }
}

pub proof fn lemma_simple_from(ts: Seq<Tok>, i: int, c: SimpleV)
    requires
        0 <= i <= ts.len(),
    ensures
        simple_from(ts, i, c) matches Ok((d, j)) ==> i <= j <= ts.len() && (c == no_command()
            ==> i < j),
    decreases ts.len() - i,
{
    if i < ts.len() && ts[i] is Word {
        let w = ts[i]->Word_0;
        if number_at(ts, i) && redirects(ts[i + 1], true) {
            if let Some(fd) = descriptor(w) {
                if let Some(t) = word_at(ts, i + 2) {
                    lemma_simple_from(
                        ts,
                        i + 3,
                        with_redirects(c, redirects_for(ts[i + 1], Some(fd), t)),
                    );
                }
            }
        } else {
            lemma_simple_from(ts, i + 1, with_arg(c, w));
        }
    } else if i < ts.len() && redirects(ts[i], false) {
        if let Some(t) = word_at(ts, i + 1) {
            lemma_simple_from(ts, i + 2, with_redirects(c, redirects_for(ts[i], None, t)));
        }
    }
}

/// The node for the stages of a pipeline.
pub open spec fn pipeline_node(cmds: Seq<SimpleV>, background: bool) -> NodeV {
    if cmds.len() == 1 {
        NodeV::Simple(cmds[0], background)
    } else {
        NodeV::Pipeline(cmds, background)
    }
}

/// The pipeline whose next stage starts at `i`, put behind `cmds`, and where it
/// ends.
pub open spec fn pipeline_from(ts: Seq<Tok>, i: int, cmds: Seq<SimpleV>) -> Result<
    (NodeV, int),
    Seq<char>,
>
    decreases ts.len() - i,
{
    if i < 0 || i > ts.len() {
        Err("expected command"@)
    } else {
        proof {
            lemma_simple_from(ts, i, no_command());
        }
        match simple_from(ts, i, no_command()) {
            Err(e) => Err(e),
            Ok((c, j)) => if tok_at(ts, j, Tok::Pipe) {
                pipeline_from(ts, j + 1, cmds.push(c))
            } else if tok_at(ts, j, Tok::Background) {
                Ok((pipeline_node(cmds.push(c), true), j + 1))
            } else {
                Ok((pipeline_node(cmds.push(c), false), j))
            },
        }
    }
}

pub proof fn lemma_pipeline_from(ts: Seq<Tok>, i: int, cmds: Seq<SimpleV>)
    requires
        0 <= i <= ts.len(),
    ensures
        pipeline_from(ts, i, cmds) matches Ok((n, j)) ==> i < j <= ts.len(),
    decreases ts.len() - i,
{
    lemma_simple_from(ts, i, no_command());
    if let Ok((c, j)) = simple_from(ts, i, no_command()) {
        if tok_at(ts, j, Tok::Pipe) {
            lemma_pipeline_from(ts, j + 1, cmds.push(c));
        }
    }
}

/// What follows `node` at `i` in a chain of `&&` and `||`, which group from the
/// left, and where the chain ends.
pub open spec fn chain_from(ts: Seq<Tok>, i: int, node: NodeV) -> Result<(NodeV, int), Seq<char>>
    decreases ts.len() - i,
{
    if tok_at(ts, i, Tok::And) || tok_at(ts, i, Tok::Or) {
        proof {
            lemma_pipeline_from(ts, i + 1, Seq::empty());
        }
        match pipeline_from(ts, i + 1, Seq::empty()) {
            Err(e) => Err(e),
            Ok((right, j)) => if ts[i] == Tok::And {
                chain_from(ts, j, NodeV::And(Box::new(node), Box::new(right)))
            } else {
                chain_from(ts, j, NodeV::Or(Box::new(node), Box::new(right)))
            },
        }
    } else {
        Ok((node, i))
    }
}

/// The chain of pipelines that starts at `i`, and where it ends.
pub open spec fn and_or_from(ts: Seq<Tok>, i: int) -> Result<(NodeV, int), Seq<char>> {
    match pipeline_from(ts, i, Seq::empty()) {
        Err(e) => Err(e),
        Ok((node, j)) => chain_from(ts, j, node),
    }
}

pub proof fn lemma_chain_from(ts: Seq<Tok>, i: int, node: NodeV)
    requires
        0 <= i <= ts.len(),
    ensures
        chain_from(ts, i, node) matches Ok((n, j)) ==> i <= j <= ts.len(),
    decreases ts.len() - i,
{
    if tok_at(ts, i, Tok::And) || tok_at(ts, i, Tok::Or) {
        lemma_pipeline_from(ts, i + 1, Seq::empty());
        if let Ok((right, j)) = pipeline_from(ts, i + 1, Seq::empty()) {
            if ts[i] == Tok::And {
                lemma_chain_from(ts, j, NodeV::And(Box::new(node), Box::new(right)));
            } else {
                lemma_chain_from(ts, j, NodeV::Or(Box::new(node), Box::new(right)));
            }
        }
    }
}

pub proof fn lemma_and_or_from(ts: Seq<Tok>, i: int)
    requires
        0 <= i <= ts.len(),
    ensures
        and_or_from(ts, i) matches Ok((n, j)) ==> i < j <= ts.len(),
{
    lemma_pipeline_from(ts, i, Seq::empty());
    if let Ok((node, j)) = pipeline_from(ts, i, Seq::empty()) {
        lemma_chain_from(ts, j, node);
    }
}

/// The chains from `i` on, put behind `acc`. A semicolon may end each.
pub open spec fn nodes_from(ts: Seq<Tok>, i: int, acc: Seq<NodeV>) -> Result<
    Seq<NodeV>,
    Seq<char>,
>
    decreases ts.len() - i,
{
    if i < 0 || i >= ts.len() {
        Ok(acc)
    } else {
        proof {
            lemma_and_or_from(ts, i);
        }
        match and_or_from(ts, i) {
            Err(e) => Err(e),
            Ok((n, j)) => if tok_at(ts, j, Tok::Semicolon) {
                nodes_from(ts, j + 1, acc.push(n))
            } else {
                nodes_from(ts, j, acc.push(n))
            },
        }
    }
}

/// The trees that the tokens of a command line stand for.
pub open spec fn parsed(ts: Seq<Tok>) -> Result<Seq<NodeV>, Seq<char>> {
    nodes_from(ts, 0, Seq::empty())
}

// ---------------------------------------------------------------------------
// The parser
// ---------------------------------------------------------------------------

/// The word that a redirection operator needs after it.
pub fn expect_word(tokens: &[Token], i: &mut usize) -> (r: Result<String, String>)
    ensures
        match r {
            Ok(w) => word_at(token::toks(tokens@), *old(i) as int) == Some(w@) && *final(i)
                == *old(i) + 1,
            Err(e) => word_at(token::toks(tokens@), *old(i) as int) is None && e@
                == "expected filename after redirection operator"@ && *final(i) == *old(i),
        },
{
    if *i < tokens.len() {
        assert(token::toks(tokens@)[*i as int] == tokens@[*i as int]@);
        match &tokens[*i] {
            Token::Word(w) => {
                *i += 1;
                return Ok(w.clone());
            },
            _ => {},
        }
    }
    Err(owned("expected filename after redirection operator"))
}

fn is_redirection(t: &Token, numbered: bool) -> (r: bool)
    ensures
        r == redirects(t@, numbered),
{
    match t {
        Token::Less => true,
        Token::Great => true,
        Token::DoubleGreat => true,
        Token::LessGreat => true,
        Token::GreatAnd => true,
        Token::LessAnd => true,
        Token::BothGreat => !numbered,
        Token::BothDoubleGreat => !numbered,
        _ => false,
    }
}

fn push_redirect(out: &mut Vec<Redirect>, fd: i32, kind: RedirectKind, target: String)
    ensures
        reds(final(out)@) == reds(old(out)@).push(redirect(fd as int, kind, target@)),
{
    out.push(Redirect { fd, kind, target });
    assert(reds(out@) =~= reds(old(out)@).push(redirect(fd as int, kind, target@)));
}

fn push_duplication(out: &mut Vec<Redirect>, fd: i32, kind: RedirectKind, target: String)
    ensures
        reds(final(out)@) == reds(old(out)@).push(duplication(fd as int, kind, target@)),
{
    if same(target.as_str(), "-") {
        push_redirect(out, fd, RedirectKind::Close, String::new());
    } else {
        push_redirect(out, fd, kind, target);
    }
}

/// The optional descriptor as an integer.
pub open spec fn wide(fd: Option<i32>) -> Option<int> {
    match fd {
        Some(n) => Some(n as int),
        None => None,
    }
}

fn push_redirects(out: &mut Vec<Redirect>, op: &Token, fd: Option<i32>, target: String)
    requires
        redirects(op@, false),
    ensures
        reds(final(out)@) == reds(old(out)@) + redirects_for(op@, wide(fd), target@),
{
    let from: i32 = match fd {
        Some(n) => n,
        None => 0,
    };
    let to: i32 = match fd {
        Some(n) => n,
        None => 1,
    };
    match op {
        Token::Less => push_redirect(out, from, RedirectKind::In, target),
        Token::Great => push_redirect(out, to, RedirectKind::Out, target),
        Token::DoubleGreat => push_redirect(out, to, RedirectKind::Append, target),
        Token::LessGreat => {
            push_redirect(out, from, RedirectKind::In, target.clone());
            push_redirect(out, to, RedirectKind::Out, target);
        },
        Token::GreatAnd => push_duplication(out, to, RedirectKind::DupOut, target),
        Token::LessAnd => push_duplication(out, from, RedirectKind::DupIn, target),
        Token::BothGreat => {
            push_redirect(out, 1, RedirectKind::Out, target.clone());
            push_redirect(out, 2, RedirectKind::Out, target);
        },
        Token::BothDoubleGreat => {
            push_redirect(out, 1, RedirectKind::Append, target.clone());
            push_redirect(out, 2, RedirectKind::Append, target);
        },
        _ => {},
    }
    assert(reds(out@) =~= reds(old(out)@) + redirects_for(op@, wide(fd), target@));
}

fn is_number(w: &str) -> (r: bool)
    ensures
        r == (w@.len() > 0 && numbers::all_digits(w@)),
{
    let v = to_chars(w);
    let mut i: usize = 0;
    while i < v.len()
        invariant
            v@ == w@,
            i <= v@.len(),
            forall|k: int| 0 <= k < i ==> text::ascii_digit(#[trigger] v@[k]),
        decreases v@.len() - i,
    {
        if !is_ascii_digit(v[i]) {
            return false;
        }
        i += 1;
    }
    v.len() > 0
}

/// The simple command at `start`, and how many tokens it takes.
pub fn parse_simple(tokens: &[Token], start: usize) -> (r: Result<(Simple, usize), String>)
    ensures
        match r {
            Ok((c, n)) => simple_from(token::toks(tokens@), start as int, no_command()) == Ok::<
                (SimpleV, int),
                Seq<char>,
            >((c@, start + n)),
            Err(e) => simple_from(token::toks(tokens@), start as int, no_command()) == Err::<
                (SimpleV, int),
                Seq<char>,
            >(e@),
        },
{
    let ghost ts = token::toks(tokens@);
    let mut i: usize = start;
    let mut args: Vec<String> = Vec::new();
    let mut redirs: Vec<Redirect> = Vec::new();
    assert(SimpleV { args: text::texts(args@), redirects: reds(redirs@) } =~= no_command());
    loop
        invariant
            ts == token::toks(tokens@),
            start <= i,
            i <= tokens.len() || i == start,
            simple_from(
                ts,
                i as int,
                SimpleV { args: text::texts(args@), redirects: reds(redirs@) },
            ) == simple_from(ts, start as int, no_command()),
        decreases tokens@.len() - i,
    {
        broadcast use text::texts_push;
        if i < tokens.len() {
            assert(ts[i as int] == tokens@[i as int]@);
            match &tokens[i] {
                Token::Word(w) => {
                    if i + 1 < tokens.len() && is_number(w.as_str()) {
                        assert(ts[i + 1] == tokens@[i + 1]@);
                        let op = &tokens[i + 1];
                        if is_redirection(op, true) {
                            let fd: i32 = match parse_i32(w.as_str()) {
                                Some(fd) => fd,
                                None => {
                                    let mut e = w.clone();
                                    e.append(": invalid file descriptor");
                                    return Err(e);
                                },
                            };
                            i += 2;
                            let target = expect_word(tokens, &mut i)?;
                            push_redirects(&mut redirs, op, Some(fd), target);
                            continue ;
                        }
                    }
                    args.push(w.clone());
                    i += 1;
                    continue ;
                },
                _ => {},
            }
            let op = &tokens[i];
            if is_redirection(op, false) {
                i += 1;
                let target = expect_word(tokens, &mut i)?;
                push_redirects(&mut redirs, op, None, target);
                continue ;
            }
        }
        if args.len() == 0 && redirs.len() == 0 {
            return Err(owned("expected command"));
        }
        return Ok((Simple { args, redirects: redirs }, i - start));
    }
}

fn is_tok(tokens: &[Token], i: usize, t: &Token) -> (r: bool)
    requires
        !(t is Word),
    ensures
        r == tok_at(token::toks(tokens@), i as int, t@),
{
    if i < tokens.len() {
        assert(token::toks(tokens@)[i as int] == tokens@[i as int]@);
        match (&tokens[i], t) {
            (Token::Pipe, Token::Pipe) => true,
            (Token::Semicolon, Token::Semicolon) => true,
            (Token::And, Token::And) => true,
            (Token::Or, Token::Or) => true,
            (Token::Background, Token::Background) => true,
            (Token::Less, Token::Less) => true,
            (Token::Great, Token::Great) => true,
            (Token::DoubleGreat, Token::DoubleGreat) => true,
            (Token::LessGreat, Token::LessGreat) => true,
            (Token::GreatAnd, Token::GreatAnd) => true,
            (Token::LessAnd, Token::LessAnd) => true,
            (Token::BothGreat, Token::BothGreat) => true,
            (Token::BothDoubleGreat, Token::BothDoubleGreat) => true,
            _ => false,
        }
    } else {
        false
    }
}

/// Whether a result holds the node and the extent, or the message, that `want`
/// does.
pub open spec fn gives_node(
    r: Result<(Node, usize), String>,
    start: usize,
    want: Result<(NodeV, int), Seq<char>>,
) -> bool {
    match r {
        Ok((n, used)) => want == Ok::<(NodeV, int), Seq<char>>((n@, start + used)),
        Err(e) => want == Err::<(NodeV, int), Seq<char>>(e@),
    }
}

/// The pipeline at `start`, and how many tokens it takes.
pub fn parse_pipeline(tokens: &[Token], start: usize) -> (r: Result<(Node, usize), String>)
    ensures
        gives_node(r, start, pipeline_from(token::toks(tokens@), start as int, Seq::empty())),
{
    let ghost ts = token::toks(tokens@);
    let mut cmds: Vec<Simple> = Vec::new();
    let mut i: usize = start;
    assert(simples(cmds@) =~= Seq::empty());
    loop
        invariant
            ts == token::toks(tokens@),
            start <= i,
            i <= tokens.len() || i == start,
            pipeline_from(ts, i as int, simples(cmds@)) == pipeline_from(
                ts,
                start as int,
                Seq::empty(),
            ),
        decreases tokens@.len() - i,
    {
        let ghost before = simples(cmds@);
        proof {
            if i <= tokens.len() {
                lemma_simple_from(ts, i as int, no_command());
            }
        }
        let (simple, consumed) = parse_simple(tokens, i)?;
        let ghost c = simple@;
        cmds.push(simple);
        assert(simples(cmds@) =~= before.push(c));
        i += consumed;
        if is_tok(tokens, i, &Token::Pipe) {
            i += 1;
        } else {
            let background = is_tok(tokens, i, &Token::Background);
            if background {
                i += 1;
            }
            if cmds.len() == 1 {
                let only = cmds.remove(0);
                return Ok((Node::Simple(only, background), i - start));
            }
            return Ok((Node::Pipeline(cmds, background), i - start));
        }
    }
}

/// The chain of pipelines at `start`, and how many tokens it takes.
pub fn parse_and_or(tokens: &[Token], start: usize) -> (r: Result<(Node, usize), String>)
    ensures
        gives_node(r, start, and_or_from(token::toks(tokens@), start as int)),
{
    let ghost ts = token::toks(tokens@);
    proof {
        if start <= tokens.len() {
            lemma_pipeline_from(ts, start as int, Seq::empty());
        }
    }
    let (first, used) = parse_pipeline(tokens, start)?;
    let mut node = first;
    let mut consumed: usize = used;
    loop
        invariant
            ts == token::toks(tokens@),
            start + consumed <= tokens.len(),
            and_or_from(ts, start as int) == chain_from(ts, start + consumed, node@),
        decreases tokens@.len() - consumed,
    {
        let and = is_tok(tokens, start + consumed, &Token::And);
        let or = is_tok(tokens, start + consumed, &Token::Or);
        if !and && !or {
            return Ok((node, consumed));
        }
        proof {
            lemma_pipeline_from(ts, start + consumed + 1, Seq::empty());
        }
        let (right, right_consumed) = parse_pipeline(tokens, start + consumed + 1)?;
        consumed = consumed + 1 + right_consumed;
        node = if and {
            Node::And(Box::new(node), Box::new(right))
        } else {
            Node::Or(Box::new(node), Box::new(right))
        };
    }
}

/// The trees that the tokens of a command line stand for.
pub fn parse(tokens: &[Token]) -> (r: Result<Vec<Node>, String>)
    ensures
        match r {
            Ok(v) => parsed(token::toks(tokens@)) == Ok::<Seq<NodeV>, Seq<char>>(nodes(v@)),
            Err(e) => parsed(token::toks(tokens@)) == Err::<Seq<NodeV>, Seq<char>>(e@),
        },
{
    let ghost ts = token::toks(tokens@);
    let mut list: Vec<Node> = Vec::new();
    let mut i: usize = 0;
    assert(nodes(list@) =~= Seq::empty());
    while i < tokens.len()
        invariant
            ts == token::toks(tokens@),
            i <= tokens.len(),
            nodes_from(ts, i as int, nodes(list@)) == parsed(ts),
        decreases tokens@.len() - i,
    {
        let ghost before = nodes(list@);
        proof {
            lemma_and_or_from(ts, i as int);
        }
        let (node, consumed) = parse_and_or(tokens, i)?;
        let ghost n = node@;
        list.push(node);
        assert(nodes(list@) =~= before.push(n));
        i += consumed;
        if is_tok(tokens, i, &Token::Semicolon) {
            i += 1;
        }
    }
    Ok(list)
}

// ---------------------------------------------------------------------------
// What holds of all trees
// ---------------------------------------------------------------------------

/// A command with something to run or to redirect.
pub open spec fn command_wf(c: SimpleV) -> bool {
    c.args.len() > 0 || c.redirects.len() > 0
}

/// A tree without an empty command, whose pipelines have at least two stages,
/// and whose chains group from the left.
pub open spec fn node_wf(n: NodeV) -> bool
    decreases n,
{
    match n {
        NodeV::Simple(c, _) => command_wf(c),
        NodeV::Pipeline(cmds, _) => cmds.len() >= 2 && forall|k: int|
            0 <= k < cmds.len() ==> command_wf(#[trigger] cmds[k]),
        NodeV::And(l, r) => node_wf(*l) && node_wf(*r) && (*r is Simple || *r is Pipeline),
        NodeV::Or(l, r) => node_wf(*l) && node_wf(*r) && (*r is Simple || *r is Pipeline),
    }
}

proof fn lemma_simple_wf(ts: Seq<Tok>, i: int, c: SimpleV)
    ensures
        simple_from(ts, i, c) matches Ok((d, j)) ==> command_wf(d),
    decreases ts.len() - i,
{
    if 0 <= i < ts.len() && ts[i] is Word {
        let w = ts[i]->Word_0;
        if number_at(ts, i) && redirects(ts[i + 1], true) {
            if let Some(fd) = descriptor(w) {
                if let Some(t) = word_at(ts, i + 2) {
                    lemma_simple_wf(
                        ts,
                        i + 3,
                        with_redirects(c, redirects_for(ts[i + 1], Some(fd), t)),
                    );
                }
            }
        } else {
            lemma_simple_wf(ts, i + 1, with_arg(c, w));
        }
    } else if 0 <= i < ts.len() && redirects(ts[i], false) {
        if let Some(t) = word_at(ts, i + 1) {
            lemma_simple_wf(ts, i + 2, with_redirects(c, redirects_for(ts[i], None, t)));
        }
    }
}

proof fn lemma_pipeline_wf(ts: Seq<Tok>, i: int, cmds: Seq<SimpleV>)
    requires
        0 <= i <= ts.len(),
        forall|k: int| 0 <= k < cmds.len() ==> command_wf(#[trigger] cmds[k]),
    ensures
        pipeline_from(ts, i, cmds) matches Ok((n, j)) ==> node_wf(n) && (n is Simple
            || n is Pipeline),
    decreases ts.len() - i,
{
    lemma_simple_from(ts, i, no_command());
    lemma_simple_wf(ts, i, no_command());
    if let Ok((c, j)) = simple_from(ts, i, no_command()) {
        if tok_at(ts, j, Tok::Pipe) {
            lemma_pipeline_wf(ts, j + 1, cmds.push(c));
        }
    }
}

proof fn lemma_chain_wf(ts: Seq<Tok>, i: int, node: NodeV)
    requires
        0 <= i <= ts.len(),
        node_wf(node),
    ensures
        chain_from(ts, i, node) matches Ok((n, j)) ==> node_wf(n),
    decreases ts.len() - i,
{
    if tok_at(ts, i, Tok::And) || tok_at(ts, i, Tok::Or) {
        lemma_pipeline_from(ts, i + 1, Seq::empty());
        lemma_pipeline_wf(ts, i + 1, Seq::empty());
        if let Ok((right, j)) = pipeline_from(ts, i + 1, Seq::empty()) {
            if ts[i] == Tok::And {
                lemma_chain_wf(ts, j, NodeV::And(Box::new(node), Box::new(right)));
            } else {
                lemma_chain_wf(ts, j, NodeV::Or(Box::new(node), Box::new(right)));
            }
        }
    }
}

proof fn lemma_nodes_wf(ts: Seq<Tok>, i: int, acc: Seq<NodeV>)
    requires
        0 <= i <= ts.len(),
        forall|k: int| 0 <= k < acc.len() ==> node_wf(#[trigger] acc[k]),
    ensures
        nodes_from(ts, i, acc) matches Ok(ns) ==> forall|k: int|
            0 <= k < ns.len() ==> node_wf(#[trigger] ns[k]),
        nodes_from(ts, i, acc) matches Ok(ns) ==> ns.len() >= acc.len() + (if i < ts.len() {
            1int
        } else {
            0int
        }),
    decreases ts.len() - i,
{
    if i < ts.len() {
        lemma_and_or_from(ts, i);
        lemma_pipeline_from(ts, i, Seq::empty());
        lemma_pipeline_wf(ts, i, Seq::empty());
        if let Ok((first, m)) = pipeline_from(ts, i, Seq::empty()) {
            lemma_chain_wf(ts, m, first);
        }
        if let Ok((n, j)) = and_or_from(ts, i) {
            if tok_at(ts, j, Tok::Semicolon) {
                lemma_nodes_wf(ts, j + 1, acc.push(n));
            } else {
                lemma_nodes_wf(ts, j, acc.push(n));
            }
        }
    }
}

/// No tree that the parser builds holds an empty command or a pipeline of one
/// stage, and its chains group from the left.
pub proof fn law_trees_are_well_formed(ts: Seq<Tok>, k: int)
    requires
        parsed(ts) matches Ok(ns) && 0 <= k < ns.len(),
    ensures
        node_wf(parsed(ts)->Ok_0[k]),
{
    lemma_nodes_wf(ts, 0, Seq::empty());
}

/// Tokens that can be parsed give at least one tree, and no tokens give none.
pub proof fn law_tokens_give_trees(ts: Seq<Tok>)
    ensures
        parsed(ts) matches Ok(ns) ==> (ns.len() == 0 <==> ts.len() == 0),
{
    lemma_nodes_wf(ts, 0, Seq::empty());
}

/// Digits that name no descriptor are refused before an operator that redirects
/// one, with the digits in the message.
pub proof fn law_descriptor_out_of_range(w: Seq<char>, op: Tok, rest: Seq<Tok>)
    requires
        w.len() > 0,
        numbers::all_digits(w),
        numbers::digits_value(w) > i32::MAX,
        redirects(op, true),
    ensures
        parsed(seq![Tok::Word(w), op] + rest) == Err::<Seq<NodeV>, Seq<char>>(
            w + ": invalid file descriptor"@,
        ),
{
    let ts = seq![Tok::Word(w), op] + rest;
    assert(text::ascii_digit(w[0]));
    assert(ts[0] == Tok::Word(w));
    assert(ts[1] == op);
    assert(number_at(ts, 0));
    assert(descriptor(w) is None);
    assert(simple_from(ts, 0, no_command()) == Err::<(SimpleV, int), Seq<char>>(
        w + ": invalid file descriptor"@,
    ));
}

} // verus!
