//! How a command line is carried out: what is run, in which order, and what
//! comes of it.

use vstd::prelude::*;
use vstd::string::*;

use crate::alias;
use crate::alias::expand_alias_tokens_within;
use crate::builtins;
use crate::builtins::is_builtin;
use crate::numbers;
use crate::numbers::parse_i32;
use crate::parser;
use crate::parser::{parse, Node, NodeV, Redirect, RedirectKind, RedirectV, Simple, SimpleV};
use crate::shell;
use crate::shell::Shell;
use crate::text;
use crate::text::{contains_char, owned, same, split_on, starts_with_char, trim};
use crate::token;
use crate::token::Tokenizer;

verus! {

// ---------------------------------------------------------------------------
// Lines
// ---------------------------------------------------------------------------

/// What is to be done for a line.
pub enum LinePlan {
    /// Nothing is run.
    Nothing,
    /// The line is refused with this message.
    Refuse(String),
    /// Aliases can not all be put in.
    Endless,
    /// These are to be run, one after the other.
    Run(Vec<Node>),
}

pub enum LinePlanV {
    Nothing,
    Refuse(Seq<char>),
    Endless,
    Run(Seq<NodeV>),
}

impl View for LinePlan {
    type V = LinePlanV;

    open spec fn view(&self) -> LinePlanV {
        match *self {
            LinePlan::Nothing => LinePlanV::Nothing,
            LinePlan::Refuse(m) => LinePlanV::Refuse(m@),
            LinePlan::Endless => LinePlanV::Endless,
            LinePlan::Run(ns) => LinePlanV::Run(parser::nodes(ns@)),
        }
    }
}

/// What is to be done for a line, given the aliases.
pub open spec fn plan_for(line: Seq<char>, aliases: Map<Seq<char>, Seq<char>>) -> LinePlanV {
    let t = text::trimmed(line);
    if t.len() == 0 || t[0] == '#' {
        LinePlanV::Nothing
    } else {
        match token::tokens_of(t) {
            Err(e) => LinePlanV::Refuse("btsh: parse error: "@ + e),
            Ok(ts) => if ts.len() == 0 {
                LinePlanV::Nothing
            } else {
                match alias::aliased_within(ts, aliases, usize::MAX as nat) {
                    None => LinePlanV::Endless,
                    Some(us) => match parser::parsed(us) {
                        Err(e) => LinePlanV::Refuse("btsh: "@ + e),
                        Ok(ns) => LinePlanV::Run(ns),
                    },
                }
            },
        }
    }
}

fn message(start: &str, e: &str) -> (r: String)
    ensures
        r@ == start@ + e@,
{
    let mut m = owned(start);
    m.append(e);
    m
}

/// What is to be done for a line.
pub fn exec_line(line: &str, shell: &Shell) -> (r: LinePlan)
    ensures
        r@ == plan_for(line@, shell@.aliases),
{
    let t = trim(line);
    if t.as_str().unicode_len() == 0 || starts_with_char(t.as_str(), '#') {
        return LinePlan::Nothing;
    }
    let mut tok = Tokenizer::new(t.as_str());
    let tokens = match tok.tokenize() {
        Ok(ts) => ts,
        Err(e) => {
            return LinePlan::Refuse(message("btsh: parse error: ", e.as_str()));
        },
    };
    assert(token::toks(tokens@).len() == tokens.len());
    if tokens.len() == 0 {
        return LinePlan::Nothing;
    }
    let tokens = match expand_alias_tokens_within(tokens, &shell.aliases, usize::MAX) {
        Some(ts) => ts,
        None => {
            return LinePlan::Endless;
        },
    };
    match parse(tokens.as_slice()) {
        Ok(ns) => LinePlan::Run(ns),
        Err(e) => LinePlan::Refuse(message("btsh: ", e.as_str())),
    }
}

/// What every line that is run consists of: trees that are well formed.
pub proof fn law_planned_trees_are_well_formed(
    line: Seq<char>,
    aliases: Map<Seq<char>, Seq<char>>,
    k: int,
)
    requires
        plan_for(line, aliases) matches LinePlanV::Run(ns) && 0 <= k < ns.len(),
    ensures
        parser::node_wf(plan_for(line, aliases)->Run_0[k]),
{
    let ts = token::tokens_of(text::trimmed(line))->Ok_0;
    let us = alias::aliased_within(ts, aliases, usize::MAX as nat)->0;
    parser::law_trees_are_well_formed(us, k);
}

/// White space around a line does not matter, nor does what follows a `#` that
/// starts it.
pub proof fn law_comments_do_nothing(
    line: Seq<char>,
    aliases: Map<Seq<char>, Seq<char>>,
)
    requires
        text::trimmed(line).len() == 0 || text::trimmed(line)[0] == '#',
    ensures
        plan_for(line, aliases) == LinePlanV::Nothing,
{
}

/// The exit code of a line that is refused.
pub const REFUSED: i32 = 2;

/// The exit code that stands for an interrupt.
pub const INTERRUPTED: i32 = 130;

/// The exit code of the last of those that are given, or else the one before.
pub open spec fn line_code(last_exit: i32, codes: Seq<i32>) -> i32 {
    if codes.len() > 0 {
        codes.last()
    } else {
        last_exit
    }
}

pub fn last_code(last_exit: i32, codes: &Vec<i32>) -> (r: i32)
    ensures
        r == line_code(last_exit, codes@),
{
    if codes.len() > 0 {
        codes[codes.len() - 1]
    } else {
        last_exit
    }
}

/// The exit code of a line. A line without a command leaves that of the last
/// command, and one that is refused has its own. Else it is that of the last
/// tree that was run; `codes` are those of the trees.
pub open spec fn line_result(plan: LinePlanV, last_exit: i32, codes: Seq<i32>) -> i32 {
    match plan {
        LinePlanV::Nothing => last_exit,
        LinePlanV::Refuse(_) => REFUSED,
        LinePlanV::Endless => REFUSED,
        LinePlanV::Run(_) => line_code(last_exit, codes),
    }
}

/// The exit code of a line, given those of its trees.
pub fn line_exit(plan: &LinePlan, last_exit: i32, codes: &Vec<i32>) -> (r: i32)
    ensures
        r == line_result(plan@, last_exit, codes@),
{
    match plan {
        LinePlan::Nothing => last_exit,
        LinePlan::Refuse(_) => REFUSED,
        LinePlan::Endless => REFUSED,
        LinePlan::Run(_) => last_code(last_exit, codes),
    }
}

/// A line that can not be taken apart is refused with the exit code 2, and one
/// that is empty or a comment leaves the exit code as it is.
pub proof fn law_exit_codes_without_a_command(
    line: Seq<char>,
    aliases: Map<Seq<char>, Seq<char>>,
    last_exit: i32,
    codes: Seq<i32>,
)
    ensures
        ({
            let t = text::trimmed(line);
            let r = line_result(plan_for(line, aliases), last_exit, codes);
            &&& t.len() == 0 || t[0] == '#' ==> r == last_exit
            &&& t.len() > 0 && t[0] != '#' && token::tokens_of(t) is Err ==> r == 2
        }),
{
}

/// Whether a line, without white space around it, goes into the history: history
/// has to be on, and comments are left out.
pub fn enters_history(line: &str, shell: &Shell) -> (r: bool)
    ensures
        r == (shell@.history && !(line@.len() > 0 && line@[0] == '#')),
{
    shell.history && !starts_with_char(line, '#')
}

/// What is to be written to the log for a line, if anything.
pub fn log_command(shell: &Shell, line: &str) -> (r: Option<String>)
    ensures
        shell::opt(r) == (if shell@.logging {
            Some(line@ + "\n"@)
        } else {
            None
        }),
{
    if shell.logging {
        Some(message(line, "\n"))
    } else {
        None
    }
}

/// How the shell is started.
pub enum Start {
    /// It runs this and ends.
    Command(String),
    /// It reads lines; whether it leaves history and settings alone.
    Session(bool),
}

/// How the shell is started with these arguments, its own name in front.
pub fn start_of(args: &Vec<String>) -> (r: Start)
    ensures
        match r {
            Start::Command(c) => args.len() >= 3 && args@[1]@ == "-c"@ && c@ == args@[2]@,
            Start::Session(fresh) => !(args.len() >= 3 && args@[1]@ == "-c"@) && fresh == (
            args.len() >= 2 && args@[1]@ == "--fresh"@),
        },
{
    if args.len() >= 3 && same(args[1].as_str(), "-c") {
        return Start::Command(args[2].clone());
    }
    Start::Session(args.len() >= 2 && same(args[1].as_str(), "--fresh"))
}

// ---------------------------------------------------------------------------
// Trees
// ---------------------------------------------------------------------------

/// What running a tree needs next.
pub enum Request<'a> {
    /// Whether the user asked to stop: the reply is zero if not.
    Interrupted,
    /// The exit code of this command or pipeline.
    Run(&'a Node),
    /// Nothing: this is the exit code of the tree.
    Done(i32),
}

pub enum RequestV {
    Interrupted,
    Run(NodeV),
    Done(i32),
}

/// How far running a tree has come.
pub struct Walk<'a> {
    pub request: Request<'a>,
    /// How many replies have been used.
    pub used: usize,
    /// The exit code of the last command before an operator, for the shell to
    /// remember.
    pub last_exit: Option<i32>,
}

#[verifier::ext_equal]
pub struct WalkV {
    pub request: RequestV,
    pub used: nat,
    pub last_exit: Option<i32>,
}

impl<'a> View for Request<'a> {
    type V = RequestV;

    open spec fn view(&self) -> RequestV {
        match *self {
            Request::Interrupted => RequestV::Interrupted,
            Request::Run(n) => RequestV::Run(n@),
            Request::Done(c) => RequestV::Done(c),
        }
    }
}

impl<'a> View for Walk<'a> {
    type V = WalkV;

    open spec fn view(&self) -> WalkV {
        WalkV { request: self.request@, used: self.used as nat, last_exit: self.last_exit }
    }
}

/// Runs a tree as far as the replies go. Before each part the user may ask to
/// stop, which gives 130. Behind `&&` the right side is run if the left side
/// gave zero, behind `||` if it did not.
pub open spec fn walked(n: NodeV, replies: Seq<i32>, used: nat, last_exit: Option<i32>) -> WalkV
    decreases n,
{
    if used >= replies.len() {
        WalkV { request: RequestV::Interrupted, used, last_exit }
    } else if replies[used as int] != 0 {
        WalkV { request: RequestV::Done(INTERRUPTED), used: used + 1, last_exit }
    } else {
        match n {
            NodeV::Simple(_, _) | NodeV::Pipeline(_, _) => if used + 1 >= replies.len() {
                WalkV { request: RequestV::Run(n), used: used + 1, last_exit }
            } else {
                WalkV {
                    request: RequestV::Done(replies[used as int + 1]),
                    used: used + 2,
                    last_exit,
                }
            },
            NodeV::And(l, r) => {
                let left = walked(*l, replies, used + 1, last_exit);
                match left.request {
                    RequestV::Done(c) => if c == 0 {
                        walked(*r, replies, left.used, Some(c))
                    } else {
                        WalkV { last_exit: Some(c), ..left }
                    },
                    _ => left,
                }
            },
            NodeV::Or(l, r) => {
                let left = walked(*l, replies, used + 1, last_exit);
                match left.request {
                    RequestV::Done(c) => if c != 0 {
                        walked(*r, replies, left.used, Some(c))
                    } else {
                        WalkV { last_exit: Some(c), ..left }
                    },
                    _ => left,
                }
            },
        }
    }
}

fn walk<'a>(node: &'a Node, replies: &Vec<i32>, used: usize, last_exit: Option<i32>) -> (r: Walk<
    'a,
>)
    requires
        used <= replies.len(),
    ensures
        r@ == walked(node@, replies@, used as nat, last_exit),
        r.used <= replies.len(),
    decreases node,
{
    if used >= replies.len() {
        return Walk { request: Request::Interrupted, used, last_exit };
    }
    if replies[used] != 0 {
        return Walk { request: Request::Done(INTERRUPTED), used: used + 1, last_exit };
    }
    match node {
        Node::Simple(_, _) | Node::Pipeline(_, _) => {
            if used + 1 >= replies.len() {
                Walk { request: Request::Run(node), used: used + 1, last_exit }
            } else {
                Walk { request: Request::Done(replies[used + 1]), used: used + 2, last_exit }
            }
        },
        Node::And(l, r) => {
            let left = walk(l, replies, used + 1, last_exit);
            match left.request {
                Request::Done(c) => {
                    if c == 0 {
                        walk(r, replies, left.used, Some(c))
                    } else {
                        Walk { request: Request::Done(c), used: left.used, last_exit: Some(c) }
                    }
                },
                _ => left,
            }
        },
        Node::Or(l, r) => {
            let left = walk(l, replies, used + 1, last_exit);
            match left.request {
                Request::Done(c) => {
                    if c != 0 {
                        walk(r, replies, left.used, Some(c))
                    } else {
                        Walk { request: Request::Done(c), used: left.used, last_exit: Some(c) }
                    }
                },
                _ => left,
            }
        },
    }
}

/// What running a tree needs next, once it has had these replies.
pub fn exec_node<'a>(node: &'a Node, replies: &Vec<i32>) -> (r: Walk<'a>)
    ensures
        r@ == walked(node@, replies@, 0, None),
{
    walk(node, replies, 0, None)
}

/// The replies that a tree uses up are not more than there are.
proof fn lemma_walked(n: NodeV, replies: Seq<i32>, used: nat, last_exit: Option<i32>)
    requires
        used <= replies.len(),
    ensures
        used <= walked(n, replies, used, last_exit).used <= replies.len(),
        walked(n, replies, used, last_exit).request is Done ==> used < walked(
            n,
            replies,
            used,
            last_exit,
        ).used,
        !(walked(n, replies, used, last_exit).request is Done) ==> walked(
            n,
            replies,
            used,
            last_exit,
        ).used == replies.len(),
    decreases n,
{
    if used < replies.len() && replies[used as int] == 0 {
        match n {
            NodeV::And(l, r) => {
                lemma_walked(*l, replies, used + 1, last_exit);
                let left = walked(*l, replies, used + 1, last_exit);
                if let RequestV::Done(c) = left.request {
                    lemma_walked(*r, replies, left.used, Some(c));
                }
            },
            NodeV::Or(l, r) => {
                lemma_walked(*l, replies, used + 1, last_exit);
                let left = walked(*l, replies, used + 1, last_exit);
                if let RequestV::Done(c) = left.request {
                    lemma_walked(*r, replies, left.used, Some(c));
                }
            },
            _ => {},
        }
    }
}

/// Every reply is used: running a tree asks for one thing at a time, and for
/// nothing once it is done.
pub proof fn law_replies_are_used_in_turn(n: NodeV, replies: Seq<i32>)
    ensures
        walked(n, replies, 0, None).used <= replies.len(),
        !(walked(n, replies, 0, None).request is Done) ==> walked(n, replies, 0, None).used
            == replies.len(),
{
    lemma_walked(n, replies, 0, None);
}

/// The right side of `&&` is not run where the left side gives something else
/// than zero, nor that of `||` where it gives zero: what the left side gives is
/// what the whole gives, and nothing more is asked.
pub proof fn law_operators_stop_early(
    l: NodeV,
    r: NodeV,
    replies: Seq<i32>,
    used: nat,
    last_exit: Option<i32>,
    code: i32,
)
    requires
        used < replies.len(),
        replies[used as int] == 0,
        walked(l, replies, used + 1, last_exit).request == RequestV::Done(code),
    ensures
        code != 0 ==> ({
            let w = walked(NodeV::And(Box::new(l), Box::new(r)), replies, used, last_exit);
            &&& w.request == RequestV::Done(code)
            &&& w.used == walked(l, replies, used + 1, last_exit).used
            &&& w.last_exit == Some(code)
        }),
        code == 0 ==> ({
            let w = walked(NodeV::Or(Box::new(l), Box::new(r)), replies, used, last_exit);
            &&& w.request == RequestV::Done(code)
            &&& w.used == walked(l, replies, used + 1, last_exit).used
            &&& w.last_exit == Some(code)
        }),
{
}

/// Where the left side does not decide, the right side gives what the whole
/// gives, and the shell remembers the exit code of the left side meanwhile.
pub proof fn law_operators_go_on(
    l: NodeV,
    r: NodeV,
    replies: Seq<i32>,
    used: nat,
    last_exit: Option<i32>,
    code: i32,
)
    requires
        used < replies.len(),
        replies[used as int] == 0,
        walked(l, replies, used + 1, last_exit).request == RequestV::Done(code),
    ensures
        ({
            let then = walked(
                r,
                replies,
                walked(l, replies, used + 1, last_exit).used,
                Some(code),
            );
            &&& code == 0 ==> walked(
                NodeV::And(Box::new(l), Box::new(r)),
                replies,
                used,
                last_exit,
            ) == then
            &&& code != 0 ==> walked(
                NodeV::Or(Box::new(l), Box::new(r)),
                replies,
                used,
                last_exit,
            ) == then
        }),
{
}

/// A user who asks to stop before a tree is begun has nothing of it run.
pub proof fn law_interrupt_runs_nothing(n: NodeV, replies: Seq<i32>)
    requires
        replies.len() > 0,
        replies[0] != 0,
    ensures
        walked(n, replies, 0, None).request == RequestV::Done(130),
{
}

// ---------------------------------------------------------------------------
// Commands
// ---------------------------------------------------------------------------

/// How a command is carried out.
#[derive(Debug, PartialEq, Eq, Structural, Clone, Copy)]
pub enum Way {
    /// There is no command, only redirects.
    RedirectOnly,
    /// By the shell itself.
    Builtin,
    /// By another program.
    External,
}

/// How a command is carried out.
pub open spec fn way_of(c: SimpleV, shit: bool) -> Way {
    if c.args.len() == 0 {
        Way::RedirectOnly
    } else if builtins::builtin(c.args[0], shit) {
        Way::Builtin
    } else {
        Way::External
    }
}

/// How a command is carried out that stands by itself.
pub fn exec_simple(simple: &Simple, shell: &Shell) -> (r: Way)
    requires
        parser::command_wf(simple@),
    ensures
        r == way_of(simple@, shell@.shit),
{
    exec_pipeline_simple(simple, shell)
}

/// How a command is carried out that is run in a process of its own.
pub fn exec_pipeline_simple(simple: &Simple, shell: &Shell) -> (r: Way)
    ensures
        r == way_of(simple@, shell@.shit),
{
    assert(simple@.args.len() == simple.args.len());
    if simple.args.len() == 0 {
        return Way::RedirectOnly;
    }
    assert(simple@.args[0] == simple.args@[0]@);
    if is_builtin(simple.args[0].as_str(), shell) {
        Way::Builtin
    } else {
        Way::External
    }
}

// ---------------------------------------------------------------------------
// Pipelines
// ---------------------------------------------------------------------------

/// A stage of a pipeline: whether the shell itself carries it out, and the
/// pipes, by number, that it reads from and writes to.
#[derive(Debug, PartialEq, Eq, Structural, Clone, Copy)]
pub struct Stage {
    pub builtin: bool,
    pub read_from: Option<usize>,
    pub write_to: Option<usize>,
}

/// How a pipeline is carried out.
pub enum PipelinePlan {
    /// There is nothing to run; the exit code.
    Nothing(i32),
    /// A single command, without pipes.
    Single(Way),
    /// Stages, each in a process of its own, with a pipe between each two.
    Stages(Vec<Stage>),
}

/// The stage at place `k` of `n`: it reads what the stage before it writes.
pub open spec fn stage_at(c: SimpleV, k: int, n: int, shit: bool) -> Stage {
    Stage {
        builtin: builtins::builtin(c.args[0], shit),
        read_from: if k > 0 {
            Some((k - 1) as usize)
        } else {
            None
        },
        write_to: if k < n - 1 {
            Some(k as usize)
        } else {
            None
        },
    }
}

/// How a pipeline is carried out.
pub open spec fn plans(plan: PipelinePlan, cmds: Seq<SimpleV>, shit: bool) -> bool {
    match plan {
        PipelinePlan::Nothing(code) => cmds.len() == 0 && code == 0,
        PipelinePlan::Single(w) => cmds.len() == 1 && w == way_of(cmds[0], shit),
        PipelinePlan::Stages(v) => cmds.len() >= 2 && v@.len() == cmds.len() && forall|k: int|
            0 <= k < cmds.len() ==> #[trigger] v@[k] == stage_at(
                cmds[k],
                k,
                cmds.len() as int,
                shit,
            ),
    }
}

/// How a pipeline is carried out.
pub fn exec_pipeline(cmds: &Vec<Simple>, shell: &Shell) -> (r: PipelinePlan)
    requires
        cmds.len() >= 2 ==> forall|k: int|
            0 <= k < cmds.len() ==> (#[trigger] cmds@[k])@.args.len() > 0,
    ensures
        plans(r, parser::simples(cmds@), shell@.shit),
{
    if cmds.len() == 0 {
        return PipelinePlan::Nothing(0);
    }
    if cmds.len() == 1 {
        assert(parser::simples(cmds@)[0] == cmds@[0]@);
        return PipelinePlan::Single(exec_pipeline_simple(&cmds[0], shell));
    }
    let n = cmds.len();
    let mut stages: Vec<Stage> = Vec::new();
    let mut i: usize = 0;
    while i < n
        invariant
            i <= n,
            n == cmds.len(),
            n >= 2,
            stages.len() == i,
            forall|k: int| 0 <= k < cmds.len() ==> (#[trigger] cmds@[k])@.args.len() > 0,
            forall|k: int|
                0 <= k < i ==> #[trigger] stages@[k] == stage_at(
                    cmds@[k]@,
                    k,
                    n as int,
                    shell@.shit,
                ),
        decreases n - i,
    {
        assert(cmds@[i as int]@.args.len() == cmds@[i as int].args.len());
        assert(cmds@[i as int]@.args[0] == cmds@[i as int].args@[0]@);
        let builtin = is_builtin(cmds[i].args[0].as_str(), shell);
        stages.push(
            Stage {
                builtin,
                read_from: if i > 0 {
                    Some(i - 1)
                } else {
                    None
                },
                write_to: if i < n - 1 {
                    Some(i)
                } else {
                    None
                },
            },
        );
        i += 1;
    }
    assert forall|k: int| 0 <= k < cmds.len() implies #[trigger] stages@[k] == stage_at(
        parser::simples(cmds@)[k],
        k,
        n as int,
        shell@.shit,
    ) by {
        assert(parser::simples(cmds@)[k] == cmds@[k]@);
    }
    PipelinePlan::Stages(stages)
}

/// Each stage but the last writes to the pipe that the next one reads from. The
/// first stage reads from no pipe, and the last one writes to none. No two
/// stages read from the same pipe, and no two write to the same one.
pub proof fn law_stages_are_connected(
    stages: Vec<Stage>,
    cmds: Seq<SimpleV>,
    shit: bool,
    j: int,
    k: int,
)
    requires
        plans(PipelinePlan::Stages(stages), cmds, shit),
        cmds.len() <= usize::MAX,
        0 <= j < k < cmds.len(),
    ensures
        stages@[0].read_from is None,
        stages@[cmds.len() - 1].write_to is None,
        stages@[j].write_to is Some,
        stages@[k].read_from is Some,
        stages@[j].write_to == stages@[k].read_from <==> k == j + 1,
        stages@[j].read_from != stages@[k].read_from,
        stages@[j].write_to != stages@[k].write_to,
{
}

/// Why a stage could not be started.
#[derive(Debug, PartialEq, Eq, Structural, Clone, Copy)]
pub enum StageFailure {
    /// There is no such program.
    NotFound,
    /// The program could not be run.
    NotRun,
    /// There is no process for it.
    NoProcess,
}

/// The exit code of a pipeline with a stage that could not be started.
pub open spec fn failure_code(f: StageFailure) -> i32 {
    match f {
        StageFailure::NotFound => 127,
        StageFailure::NotRun => 126,
        StageFailure::NoProcess => 1,
    }
}

pub fn stage_failure_code(f: StageFailure) -> (r: i32)
    ensures
        r == failure_code(f),
{
    match f {
        StageFailure::NotFound => 127,
        StageFailure::NotRun => 126,
        StageFailure::NoProcess => 1,
    }
}

// ---------------------------------------------------------------------------
// Programs
// ---------------------------------------------------------------------------

/// The path of `name` in the directory `dir`.
pub open spec fn path_in(dir: Seq<char>, name: Seq<char>) -> Seq<char> {
    if dir.len() == 0 {
        name
    } else if dir.last() == '/' {
        dir + name
    } else {
        dir + "/"@ + name
    }
}

/// The path of `name` in the directory `dir`.
pub fn join_path(dir: &str, name: &str) -> (r: String)
    ensures
        r@ == path_in(dir@, name@),
{
    if dir.unicode_len() == 0 {
        owned(name)
    } else if text::ends_with_char(dir, '/') {
        message(dir, name)
    } else {
        message(message(dir, "/").as_str(), name)
    }
}

/// The files that a command can be, in the order in which they are tried.
pub open spec fn places(name: Seq<char>, path: Seq<char>) -> Seq<Seq<char>> {
    if name.contains('/') {
        seq![name]
    } else {
        let dirs = text::pieces(path, ":"@);
        Seq::new(dirs.len(), |k: int| path_in(dirs[k], name))
    }
}

/// The files that the command `name` can be, in the order in which they are to
/// be tried. `path` is the list of directories to look in.
pub fn command_places(name: &str, path: &str) -> (r: Vec<String>)
    ensures
        text::texts(r@) == places(name@, path@),
{
    let mut r: Vec<String> = Vec::new();
    if contains_char(name, '/') {
        r.push(owned(name));
        assert(text::texts(r@) =~= seq![name@]);
        return r;
    }
    proof {
        reveal_strlit(":");
    }
    let dirs = split_on(path, ":");
    let ghost all = text::texts(dirs@);
    let mut i: usize = 0;
    while i < dirs.len()
        invariant
            i <= dirs.len(),
            r.len() == i,
            all == text::texts(dirs@),
            forall|k: int| 0 <= k < i ==> (#[trigger] r@[k])@ == path_in(all[k], name@),
        decreases dirs.len() - i,
    {
        assert(all[i as int] == dirs@[i as int]@);
        let dir = dirs[i].as_str();
        r.push(join_path(dir, name));
        i += 1;
    }
    assert(text::texts(r@) =~= places(name@, path@));
    r
}

/// The first of the places that is a file.
pub open spec fn first_file(ps: Seq<Seq<char>>, is_file: Seq<bool>) -> Option<Seq<char>>
    decreases ps.len(),
{
    if ps.len() == 0 || is_file.len() == 0 {
        None
    } else if is_file[0] {
        Some(ps[0])
    } else {
        first_file(ps.drop_first(), is_file.drop_first())
    }
}

/// The file that the command `name` is. `is_file` says of each of its places
/// (`command_places`) whether it is a file.
pub fn find_in_path(name: &str, path: &str, is_file: &Vec<bool>) -> (r: Option<String>)
    ensures
        shell::opt(r) == first_file(places(name@, path@), is_file@),
{
    let ps = command_places(name, path);
    let ghost all = text::texts(ps@);
    let mut i: usize = 0;
    assert(all.skip(0) =~= all);
    assert(is_file@.skip(0) =~= is_file@);
    while i < ps.len() && i < is_file.len()
        invariant
            i <= ps.len(),
            i <= is_file.len(),
            all == text::texts(ps@),
            all == places(name@, path@),
            first_file(all.skip(i as int), is_file@.skip(i as int)) == first_file(all, is_file@),
        decreases ps.len() - i,
    {
        assert(all.skip(i as int)[0] == ps@[i as int]@);
        assert(all.skip(i as int).drop_first() =~= all.skip(i + 1));
        assert(is_file@.skip(i as int).drop_first() =~= is_file@.skip(i + 1));
        if is_file[i] {
            return Some(ps[i].clone());
        }
        i += 1;
    }
    None
}

/// The name of a command, once the word that names it has been expanded.
pub open spec fn command_name(name: Seq<char>, expanded: Seq<Seq<char>>) -> Seq<char> {
    if expanded.len() == 0 {
        name
    } else {
        expanded[0]
    }
}

pub fn command_word(name: &str, expanded: &Vec<String>) -> (r: String)
    ensures
        r@ == command_name(name@, text::texts(expanded@)),
{
    assert(text::texts(expanded@).len() == expanded.len());
    if expanded.len() == 0 {
        owned(name)
    } else {
        expanded[0].clone()
    }
}

/// The file of a command, or the exit code and the message for one that is not
/// found.
pub open spec fn command_file(
    name: Seq<char>,
    path: Seq<char>,
    is_file: Seq<bool>,
) -> Result<Seq<char>, (i32, Seq<char>)> {
    match first_file(places(name, path), is_file) {
        Some(p) => Ok(p),
        None => Err(
            (
                127,
                "btsh: "@ + name + (if name.contains('/') {
                    ": No such file"@
                } else {
                    ": command not found"@
                }),
            ),
        ),
    }
}

pub open spec fn resolution(r: Result<String, (i32, String)>) -> Result<
    Seq<char>,
    (i32, Seq<char>),
> {
    match r {
        Ok(p) => Ok(p@),
        Err((c, m)) => Err((c, m@)),
    }
}

/// The file of the command `name`, given of each of its places whether it is a
/// file.
pub fn resolve_command(name: &str, path: &str, is_file: &Vec<bool>) -> (r: Result<
    String,
    (i32, String),
>)
    ensures
        resolution(r) == command_file(name@, path@, is_file@),
{
    match find_in_path(name, path, is_file) {
        Some(p) => Ok(p),
        None => {
            let start = message("btsh: ", name);
            if contains_char(name, '/') {
                Err((127, message(start.as_str(), ": No such file")))
            } else {
                Err((127, message(start.as_str(), ": command not found")))
            }
        },
    }
}

// ---------------------------------------------------------------------------
// Redirects
// ---------------------------------------------------------------------------

/// What a redirect does to a program that is about to be started.
pub enum RedirectAction {
    /// This descriptor of the program reads from this file.
    Input(String, i32),
    /// This descriptor of the program writes to this file, which is emptied.
    Output(String, i32),
    /// This descriptor of the program writes to the end of this file.
    Append(String, i32),
    /// The second descriptor becomes a copy of the first.
    Duplicate(i32, i32),
    /// This standard stream leads nowhere.
    Discard(i32),
    /// Nothing.
    Ignore,
    /// The redirect is refused with this message, and those behind it are left
    /// out.
    Refuse(String),
}

pub enum RedirectActionV {
    Input(Seq<char>, int),
    Output(Seq<char>, int),
    Append(Seq<char>, int),
    Duplicate(int, int),
    Discard(int),
    Ignore,
    Refuse(Seq<char>),
}

impl View for RedirectAction {
    type V = RedirectActionV;

    open spec fn view(&self) -> RedirectActionV {
        match *self {
            RedirectAction::Input(t, fd) => RedirectActionV::Input(t@, fd as int),
            RedirectAction::Output(t, fd) => RedirectActionV::Output(t@, fd as int),
            RedirectAction::Append(t, fd) => RedirectActionV::Append(t@, fd as int),
            RedirectAction::Duplicate(a, b) => RedirectActionV::Duplicate(a as int, b as int),
            RedirectAction::Discard(fd) => RedirectActionV::Discard(fd as int),
            RedirectAction::Ignore => RedirectActionV::Ignore,
            RedirectAction::Refuse(m) => RedirectActionV::Refuse(m@),
        }
    }
}

/// The descriptor that the target of a duplication names.
pub open spec fn named_descriptor(target: Seq<char>) -> Option<int> {
    match numbers::within(numbers::signed_value(target), i32::MIN as int, i32::MAX as int) {
        Some(n) => if n < 0 {
            None
        } else {
            Some(n)
        },
        None => None,
    }
}

fn descriptor_named(target: &str) -> (r: Option<i32>)
    ensures
        match r {
            Some(n) => named_descriptor(target@) == Some(n as int),
            None => named_descriptor(target@) is None,
        },
{
    match parse_i32(target) {
        Some(n) => {
            if n < 0 {
                None
            } else {
                Some(n)
            }
        },
        None => None,
    }
}

/// The message for a target that names no descriptor.
pub open spec fn no_descriptor(target: Seq<char>) -> Seq<char> {
    "btsh: "@ + target + ": invalid file descriptor"@
}

fn refuse_descriptor(target: &str) -> (r: String)
    ensures
        r@ == no_descriptor(target@),
{
    message(message("btsh: ", target).as_str(), ": invalid file descriptor")
}

/// What a redirect does to a program, with its target expanded.
pub open spec fn action_of(r: RedirectV, target: Seq<char>) -> RedirectActionV {
    match r.kind {
        RedirectKind::In => RedirectActionV::Input(target, r.fd),
        RedirectKind::Out => RedirectActionV::Output(target, r.fd),
        RedirectKind::Append => RedirectActionV::Append(target, r.fd),
        RedirectKind::DupOut | RedirectKind::DupIn => match named_descriptor(target) {
            Some(n) => RedirectActionV::Duplicate(n, r.fd),
            None => RedirectActionV::Refuse(no_descriptor(target)),
        },
        RedirectKind::Close => if 0 <= r.fd <= 2 {
            RedirectActionV::Discard(r.fd)
        } else {
            RedirectActionV::Ignore
        },
    }
}

/// What a redirect does to a program that is about to be started, with its
/// target expanded.
pub fn apply_redirects(redir: &Redirect, target: &str) -> (r: RedirectAction)
    ensures
        r@ == action_of(redir@, target@),
{
    match redir.kind {
        RedirectKind::In => RedirectAction::Input(owned(target), redir.fd),
        RedirectKind::Out => RedirectAction::Output(owned(target), redir.fd),
        RedirectKind::Append => RedirectAction::Append(owned(target), redir.fd),
        RedirectKind::DupOut | RedirectKind::DupIn => match descriptor_named(target) {
            Some(n) => RedirectAction::Duplicate(n, redir.fd),
            None => RedirectAction::Refuse(refuse_descriptor(target)),
        },
        RedirectKind::Close => {
            if 0 <= redir.fd && redir.fd <= 2 {
                RedirectAction::Discard(redir.fd)
            } else {
                RedirectAction::Ignore
            }
        },
    }
}

/// What a redirect does to the shell itself, while it carries a command out.
pub enum DescriptorAction {
    /// The descriptor reads from this file.
    Read(String, i32),
    /// The descriptor writes to this file, which is emptied.
    Write(String, i32),
    /// The descriptor writes to the end of this file.
    Append(String, i32),
    /// The second descriptor becomes a copy of the first.
    Duplicate(i32, i32),
    /// The descriptor is closed.
    Close(i32),
    /// The redirect is refused with this message.
    Refuse(String),
}

pub enum DescriptorActionV {
    Read(Seq<char>, int),
    Write(Seq<char>, int),
    Append(Seq<char>, int),
    Duplicate(int, int),
    Close(int),
    Refuse(Seq<char>),
}

impl View for DescriptorAction {
    type V = DescriptorActionV;

    open spec fn view(&self) -> DescriptorActionV {
        match *self {
            DescriptorAction::Read(t, fd) => DescriptorActionV::Read(t@, fd as int),
            DescriptorAction::Write(t, fd) => DescriptorActionV::Write(t@, fd as int),
            DescriptorAction::Append(t, fd) => DescriptorActionV::Append(t@, fd as int),
            DescriptorAction::Duplicate(a, b) => DescriptorActionV::Duplicate(a as int, b as int),
            DescriptorAction::Close(fd) => DescriptorActionV::Close(fd as int),
            DescriptorAction::Refuse(m) => DescriptorActionV::Refuse(m@),
        }
    }
}

/// What a redirect does to the shell itself, with its target expanded.
pub open spec fn descriptor_action(r: RedirectV, target: Seq<char>) -> DescriptorActionV {
    match r.kind {
        RedirectKind::In => DescriptorActionV::Read(target, r.fd),
        RedirectKind::Out => DescriptorActionV::Write(target, r.fd),
        RedirectKind::Append => DescriptorActionV::Append(target, r.fd),
        RedirectKind::DupOut | RedirectKind::DupIn => match named_descriptor(target) {
            Some(n) => DescriptorActionV::Duplicate(n, r.fd),
            None => DescriptorActionV::Refuse(no_descriptor(target)),
        },
        RedirectKind::Close => DescriptorActionV::Close(r.fd),
    }
}

/// What a redirect does to the shell itself, while it carries a command out,
/// with its target expanded.
pub fn exec_builtin_with_redirects(redir: &Redirect, target: &str) -> (r: DescriptorAction)
    ensures
        r@ == descriptor_action(redir@, target@),
{
    match redir.kind {
        RedirectKind::In => DescriptorAction::Read(owned(target), redir.fd),
        RedirectKind::Out => DescriptorAction::Write(owned(target), redir.fd),
        RedirectKind::Append => DescriptorAction::Append(owned(target), redir.fd),
        RedirectKind::DupOut | RedirectKind::DupIn => match descriptor_named(target) {
            Some(n) => DescriptorAction::Duplicate(n, redir.fd),
            None => DescriptorAction::Refuse(refuse_descriptor(target)),
        },
        RedirectKind::Close => DescriptorAction::Close(redir.fd),
    }
}

/// What a redirect without a command asks for.
pub enum FileCheck {
    /// That the file can be read, or else this message.
    Read(String),
    /// That the file can be made, empty, or else this message.
    Create(String),
    /// That the file can be opened for writing at its end, and is made where it
    /// is not there, or else this message. What it holds stays.
    Append(String),
    /// Nothing.
    Nothing,
}

pub enum FileCheckV {
    Read(Seq<char>),
    Create(Seq<char>),
    Append(Seq<char>),
    Nothing,
}

impl View for FileCheck {
    type V = FileCheckV;

    open spec fn view(&self) -> FileCheckV {
        match *self {
            FileCheck::Read(m) => FileCheckV::Read(m@),
            FileCheck::Create(m) => FileCheckV::Create(m@),
            FileCheck::Append(m) => FileCheckV::Append(m@),
            FileCheck::Nothing => FileCheckV::Nothing,
        }
    }
}

/// What a redirect without a command asks for, with its target expanded.
pub open spec fn check_of(r: RedirectV, target: Seq<char>) -> FileCheckV {
    match r.kind {
        RedirectKind::In => FileCheckV::Read("btsh: "@ + target + ": No such file"@),
        RedirectKind::Out => FileCheckV::Create("btsh: "@ + target + ": cannot create"@),
        RedirectKind::Append => FileCheckV::Append("btsh: "@ + target + ": cannot create"@),
        _ => FileCheckV::Nothing,
    }
}

/// What a redirect without a command asks for, with its target expanded.
pub fn exec_redirect_only(redir: &Redirect, target: &str) -> (r: FileCheck)
    ensures
        r@ == check_of(redir@, target@),
{
    let start = message("btsh: ", target);
    match redir.kind {
        RedirectKind::In => FileCheck::Read(message(start.as_str(), ": No such file")),
        RedirectKind::Out => FileCheck::Create(message(start.as_str(), ": cannot create")),
        RedirectKind::Append => FileCheck::Append(message(start.as_str(), ": cannot create")),
        _ => FileCheck::Nothing,
    }
}

/// The message where what a redirect without a command asks for failed; `opened`
/// says whether its file could be opened. What asks for no file does not fail.
pub open spec fn check_failure(check: FileCheckV, opened: bool) -> Option<Seq<char>> {
    match check {
        FileCheckV::Read(m) | FileCheckV::Create(m) | FileCheckV::Append(m) => if opened {
            None
        } else {
            Some(m)
        },
        FileCheckV::Nothing => None,
    }
}

pub fn failed_check(check: FileCheck, opened: bool) -> (r: Option<String>)
    ensures
        shell::opt(r) == check_failure(check@, opened),
{
    match check {
        FileCheck::Read(m) | FileCheck::Create(m) | FileCheck::Append(m) => {
            if opened {
                None
            } else {
                Some(m)
            }
        },
        FileCheck::Nothing => None,
    }
}

// ---------------------------------------------------------------------------
// Time limits
// ---------------------------------------------------------------------------

/// What is known of a program that has a time limit.
#[derive(Debug, PartialEq, Eq, Structural, Clone, Copy)]
pub enum Waited {
    /// It ended with this exit code.
    Ended(i32),
    /// It still runs, and whether its time is up.
    Running(bool),
    /// Nothing.
    Failed,
}

/// What is to be done about a program that has a time limit.
#[derive(Debug, PartialEq, Eq, Structural, Clone, Copy)]
pub enum Limit {
    /// Wait for so many milliseconds and look again.
    Wait(u64),
    /// Ask it to stop, and give it so many milliseconds more.
    AskToStop(u64),
    /// Stop it; the exit code.
    Stop(i32),
    /// It is over, with this exit code.
    Over(i32),
}

/// The exit code of a program whose time was up.
pub const TIME_UP: i32 = 124;

/// How many milliseconds pass between two looks at a program that has a time
/// limit.
pub const LOOK_EVERY: u64 = 20;

/// How many milliseconds a program has to stop once it was asked to.
pub const GRACE: u64 = 500;

/// What is to be done about a program that has a time limit; `asked` says that
/// it has been asked to stop. A program that was asked ends as one whose time
/// was up, however it ends.
pub open spec fn limit_step(asked: bool, waited: Waited) -> Limit {
    match waited {
        Waited::Ended(code) => Limit::Over(
            if asked {
                TIME_UP
            } else {
                code
            },
        ),
        Waited::Failed => Limit::Over(
            if asked {
                TIME_UP
            } else {
                1
            },
        ),
        Waited::Running(up) => if !up {
            Limit::Wait(LOOK_EVERY)
        } else if asked {
            Limit::Stop(TIME_UP)
        } else {
            Limit::AskToStop(GRACE)
        },
    }
}

/// What is to be done about a program that has a time limit.
pub fn exec_builtin_timeout(asked: bool, waited: Waited) -> (r: Limit)
    ensures
        r == limit_step(asked, waited),
{
    match waited {
        Waited::Ended(code) => Limit::Over(
            if asked {
                TIME_UP
            } else {
                code
            },
        ),
        Waited::Failed => Limit::Over(
            if asked {
                TIME_UP
            } else {
                1
            },
        ),
        Waited::Running(up) => {
            if !up {
                Limit::Wait(LOOK_EVERY)
            } else if asked {
                Limit::Stop(TIME_UP)
            } else {
                Limit::AskToStop(GRACE)
            }
        },
    }
}

/// A program that was asked to stop ends as one whose time was up, and is not
/// asked again.
pub proof fn law_time_is_up_once(waited: Waited)
    ensures
        limit_step(true, waited) matches Limit::Over(code) ==> code == TIME_UP,
        limit_step(true, waited) matches Limit::Stop(code) ==> code == TIME_UP,
        !(limit_step(true, waited) is AskToStop),
        !(limit_step(false, waited) is Stop),
{
}

/// The number of a duration and the seconds that its unit stands for. Without a
/// unit the number is one of seconds. There is none for an empty text, nor for
/// another letter at its end.
pub open spec fn duration(s: Seq<char>) -> Option<(Seq<char>, int)> {
    if s.len() == 0 {
        None
    } else if !text::ascii_letter(s.last()) {
        Some((s, 1))
    } else if s.last() == 's' {
        Some((s.drop_last(), 1))
    } else if s.last() == 'm' {
        Some((s.drop_last(), 60))
    } else if s.last() == 'h' {
        Some((s.drop_last(), 3600))
    } else if s.last() == 'd' {
        Some((s.drop_last(), 86400))
    } else {
        None
    }
}

/// The number of a duration, as a text, and the seconds that its unit stands
/// for.
pub fn duration_parts(s: &str) -> (r: Option<(String, u32)>)
    ensures
        match r {
            Some((n, unit)) => duration(s@) == Some((n@, unit as int)),
            None => duration(s@) is None,
        },
{
    let v = text::to_chars(s);
    if v.len() == 0 {
        return None;
    }
    let last = v[v.len() - 1];
    if !text::is_ascii_letter(last) {
        return Some((owned(s), 1));
    }
    let unit: u32 = if last == 's' {
        1
    } else if last == 'm' {
        60
    } else if last == 'h' {
        3600
    } else if last == 'd' {
        86400
    } else {
        return None;
    };
    assert(v@.subrange(0, v.len() - 1) =~= v@.drop_last());
    Some((text::from_range(&v, 0, v.len() - 1), unit))
}

} // verus!
