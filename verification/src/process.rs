//! The order in which processes, pipes and the terminal are looked after while
//! a command or a pipeline is run.

use vstd::prelude::*;

use crate::exec;
use crate::exec::{stage_failure_code, StageFailure};
use crate::parser::Simple;

verus! {

/// What came of what was done last.
#[derive(Debug, PartialEq, Eq, Structural, Clone, Copy)]
pub enum Reply {
    /// It was done.
    Done,
    /// It failed for this reason.
    Failed(StageFailure),
    /// It ended with this exit code.
    Code(i32),
}

/// The exit code that a reply stands for.
pub open spec fn code_in(r: Reply) -> i32 {
    match r {
        Reply::Done => 0,
        Reply::Failed(f) => exec::failure_code(f),
        Reply::Code(c) => c,
    }
}

fn reply_code(r: Reply) -> (c: i32)
    ensures
        c == code_in(r),
{
    match r {
        Reply::Done => 0,
        Reply::Failed(f) => stage_failure_code(f),
        Reply::Code(c) => c,
    }
}

// ---------------------------------------------------------------------------
// Pipelines
// ---------------------------------------------------------------------------

/// What is to be done next for a pipeline.
#[derive(Debug, PartialEq, Eq, Structural, Clone, Copy)]
pub enum PipelinePhase {
    /// The pipe with this number is made.
    MakePipe(usize),
    /// The terminal is handed over.
    Prepare,
    /// The stage with this number is started.
    Start(usize),
    /// The shell closes its ends of all pipes; the exit code, where a stage
    /// could not be started.
    Close(Option<i32>),
    /// The stage with this number is waited for.
    Wait(usize),
    /// The terminal is taken back; the exit code.
    Restore(i32),
    /// All is done; the exit code.
    Over(i32),
}

/// What is to be done next for a pipeline of `n` stages, once what was to be
/// done before has had this reply.
pub open spec fn after_phase(p: PipelinePhase, n: nat, r: Reply) -> PipelinePhase {
    match p {
        PipelinePhase::MakePipe(k) => if k + 2 < n {
            PipelinePhase::MakePipe((k + 1) as usize)
        } else {
            PipelinePhase::Prepare
        },
        PipelinePhase::Prepare => PipelinePhase::Start(0),
        PipelinePhase::Start(k) => if r is Failed {
            PipelinePhase::Close(Some(code_in(r)))
        } else if k + 1 < n {
            PipelinePhase::Start((k + 1) as usize)
        } else {
            PipelinePhase::Close(None)
        },
        PipelinePhase::Close(Some(c)) => PipelinePhase::Restore(c),
        PipelinePhase::Close(None) => PipelinePhase::Wait(0),
        PipelinePhase::Wait(k) => if k + 1 < n {
            PipelinePhase::Wait((k + 1) as usize)
        } else {
            PipelinePhase::Restore(code_in(r))
        },
        PipelinePhase::Restore(c) => PipelinePhase::Over(c),
        PipelinePhase::Over(c) => PipelinePhase::Over(c),
    }
}

/// What is to be done next for a pipeline of `n` stages. It starts with the
/// first pipe.
pub fn pipeline_step(p: PipelinePhase, n: usize, r: Reply) -> (q: PipelinePhase)
    ensures
        q == after_phase(p, n as nat, r),
{
    match p {
        PipelinePhase::MakePipe(k) => {
            if n >= 2 && k < n - 2 {
                PipelinePhase::MakePipe(k + 1)
            } else {
                PipelinePhase::Prepare
            }
        },
        PipelinePhase::Prepare => PipelinePhase::Start(0),
        PipelinePhase::Start(k) => {
            if let Reply::Failed(_) = r {
                PipelinePhase::Close(Some(reply_code(r)))
            } else if n >= 1 && k < n - 1 {
                PipelinePhase::Start(k + 1)
            } else {
                PipelinePhase::Close(None)
            }
        },
        PipelinePhase::Close(Some(c)) => PipelinePhase::Restore(c),
        PipelinePhase::Close(None) => PipelinePhase::Wait(0),
        PipelinePhase::Wait(k) => {
            if n >= 1 && k < n - 1 {
                PipelinePhase::Wait(k + 1)
            } else {
                PipelinePhase::Restore(reply_code(r))
            }
        },
        PipelinePhase::Restore(c) => PipelinePhase::Over(c),
        PipelinePhase::Over(c) => PipelinePhase::Over(c),
    }
}

/// Where a pipeline of `n` stages has come to once it has had these replies.
pub open spec fn pipeline_after(n: nat, replies: Seq<Reply>) -> PipelinePhase
    decreases replies.len(),
{
    if replies.len() == 0 {
        PipelinePhase::MakePipe(0)
    } else {
        after_phase(pipeline_after(n, replies.drop_last()), n, replies.last())
    }
}

/// The order of what is done: what comes first counts most.
spec fn left(p: PipelinePhase, n: nat) -> int {
    match p {
        PipelinePhase::MakePipe(k) => 4 + n + n + n - k,
        PipelinePhase::Prepare => (4 + n + n) as int,
        PipelinePhase::Start(k) => 4 + n + n - 1 - k,
        PipelinePhase::Close(_) => (3 + n) as int,
        PipelinePhase::Wait(k) => 2 + n - k,
        PipelinePhase::Restore(_) => 1,
        PipelinePhase::Over(_) => 0,
    }
}

/// Whether a phase is one of a pipeline of `n` stages.
pub open spec fn phase_of(p: PipelinePhase, n: nat) -> bool {
    match p {
        PipelinePhase::MakePipe(k) => k + 1 < n,
        PipelinePhase::Start(k) => k < n,
        PipelinePhase::Wait(k) => k < n,
        _ => true,
    }
}

proof fn lemma_left(p: PipelinePhase, n: nat, r: Reply)
    requires
        phase_of(p, n),
        2 <= n <= usize::MAX,
    ensures
        phase_of(after_phase(p, n, r), n),
        !(p is Over) ==> 0 <= left(after_phase(p, n, r), n) < left(p, n),
{
}

/// Whatever comes of each thing that is done, a pipeline comes to an end, after
/// no more than three things for each stage and four more.
pub proof fn law_pipelines_end(n: nat, replies: Seq<Reply>)
    requires
        2 <= n <= usize::MAX,
        replies.len() >= 3 * n + 4,
    ensures
        pipeline_after(n, replies) is Over,
{
    lemma_progress(n, replies);
}

proof fn lemma_progress(n: nat, replies: Seq<Reply>)
    requires
        2 <= n <= usize::MAX,
    ensures
        phase_of(pipeline_after(n, replies), n),
        pipeline_after(n, replies) is Over || left(pipeline_after(n, replies), n) + replies.len()
            <= 3 * n + 4,
        left(pipeline_after(n, replies), n) >= 0,
        !(pipeline_after(n, replies) is Over) ==> left(pipeline_after(n, replies), n) > 0,
    decreases replies.len(),
{
    if replies.len() > 0 {
        lemma_progress(n, replies.drop_last());
        lemma_left(pipeline_after(n, replies.drop_last()), n, replies.last());
    }
}

/// Once the shell has closed its ends of the pipes, no stage is started any
/// more; each pipe is made before any stage is started.
pub proof fn law_pipes_come_before_stages(p: PipelinePhase, n: nat, r: Reply)
    ensures
        after_phase(p, n, r) is MakePipe ==> p is MakePipe,
        after_phase(p, n, r) is Start ==> p is Prepare || p is Start,
        after_phase(p, n, r) is Wait ==> p is Close || p is Wait,
{
}

/// The terminal is taken back at the end of every pipeline, and not before all
/// ends of pipes are closed.
pub proof fn law_terminal_is_taken_back(n: nat, replies: Seq<Reply>)
    requires
        2 <= n <= usize::MAX,
        pipeline_after(n, replies) is Over,
    ensures
        exists|k: int|
            0 <= k < replies.len() && #[trigger] pipeline_after(n, replies.take(k)) is Restore,
    decreases replies.len(),
{
    let front = replies.drop_last();
    let p = pipeline_after(n, front);
    assert(replies.take(replies.len() - 1) =~= front);
    if p is Over {
        law_terminal_is_taken_back(n, front);
        let k = choose|k: int|
            0 <= k < front.len() && #[trigger] pipeline_after(n, front.take(k)) is Restore;
        assert(front.take(k) =~= replies.take(k));
    } else {
        assert(p is Restore);
    }
}

/// Where a stage can not be started, the pipeline gives the exit code of that
/// failure, and none of the stages behind it is started.
pub proof fn law_failed_stage_ends_pipeline(n: nat, k: usize, f: StageFailure, a: Reply, b: Reply)
    requires
        k < n,
    ensures
        ({
            let closed = after_phase(PipelinePhase::Start(k), n, Reply::Failed(f));
            let restored = after_phase(closed, n, a);
            &&& closed == PipelinePhase::Close(Some(exec::failure_code(f)))
            &&& restored == PipelinePhase::Restore(exec::failure_code(f))
            &&& after_phase(restored, n, b) == PipelinePhase::Over(exec::failure_code(f))
        }),
{
}

/// Where all stages are started, the pipeline gives the exit code of its last
/// stage.
pub proof fn law_last_stage_gives_code(n: nat, c: i32, a: Reply)
    requires
        1 <= n <= usize::MAX,
    ensures
        after_phase(
            after_phase(PipelinePhase::Wait((n - 1) as usize), n, Reply::Code(c)),
            n,
            a,
        ) == PipelinePhase::Over(c),
{
}

// ---------------------------------------------------------------------------
// Programs
// ---------------------------------------------------------------------------

/// What is to be done next for a program.
#[derive(Debug, PartialEq, Eq, Structural, Clone, Copy)]
pub enum ProgramPhase {
    /// The program is looked for.
    Find,
    /// Its words are expanded and its redirects made.
    Arrange,
    /// The terminal is handed over.
    Prepare,
    /// The program is started.
    Start,
    /// Its end is waited for.
    Wait,
    /// The terminal is taken back; the exit code.
    Restore(i32),
    /// All is done; the exit code.
    Over(i32),
}

/// What is to be done next for a program.
pub open spec fn after_program(p: ProgramPhase, r: Reply) -> ProgramPhase {
    match p {
        ProgramPhase::Find => if r is Done {
            ProgramPhase::Arrange
        } else {
            ProgramPhase::Over(code_in(r))
        },
        ProgramPhase::Arrange => ProgramPhase::Prepare,
        ProgramPhase::Prepare => ProgramPhase::Start,
        ProgramPhase::Start => if r is Failed {
            ProgramPhase::Restore(code_in(r))
        } else {
            ProgramPhase::Wait
        },
        ProgramPhase::Wait => ProgramPhase::Restore(code_in(r)),
        ProgramPhase::Restore(c) => ProgramPhase::Over(c),
        ProgramPhase::Over(c) => ProgramPhase::Over(c),
    }
}

/// What is to be done next for a program. It is looked for first.
pub fn exec_external(p: ProgramPhase, r: Reply) -> (q: ProgramPhase)
    ensures
        q == after_program(p, r),
{
    match p {
        ProgramPhase::Find => match r {
            Reply::Done => ProgramPhase::Arrange,
            _ => ProgramPhase::Over(reply_code(r)),
        },
        ProgramPhase::Arrange => ProgramPhase::Prepare,
        ProgramPhase::Prepare => ProgramPhase::Start,
        ProgramPhase::Start => match r {
            Reply::Failed(_) => ProgramPhase::Restore(reply_code(r)),
            _ => ProgramPhase::Wait,
        },
        ProgramPhase::Wait => ProgramPhase::Restore(reply_code(r)),
        ProgramPhase::Restore(c) => ProgramPhase::Over(c),
        ProgramPhase::Over(c) => ProgramPhase::Over(c),
    }
}

/// A terminal that was handed over is taken back before a program is done with,
/// whether it could be started or not.
pub proof fn law_program_gives_terminal_back(p: ProgramPhase, r: Reply)
    ensures
        after_program(p, r) is Over ==> p is Find || p is Restore || p is Over,
        after_program(p, r) is Find ==> false,
        (p is Start || p is Wait) ==> after_program(p, r) is Restore || after_program(p, r) is Wait,
{
}

/// A program that is not found, or ends, gives the exit code that comes of that,
/// and one that is found and can not be started gives 126.
pub proof fn law_program_codes(code: i32)
    ensures
        after_program(ProgramPhase::Find, Reply::Code(code)) == ProgramPhase::Over(code),
        after_program(ProgramPhase::Wait, Reply::Code(code)) == ProgramPhase::Restore(code),
        after_program(ProgramPhase::Start, Reply::Failed(StageFailure::NotRun))
            == ProgramPhase::Restore(126),
        after_program(ProgramPhase::Restore(code), Reply::Done) == ProgramPhase::Over(code),
{
}

// ---------------------------------------------------------------------------
// Builtin commands with redirects
// ---------------------------------------------------------------------------

/// What is to be done next for a builtin command.
#[derive(Debug, PartialEq, Eq, Structural, Clone, Copy)]
pub enum BuiltinPhase {
    /// The standard streams are saved.
    Save,
    /// The redirect with this number is made.
    Redirect(usize),
    /// The command is carried out.
    Run,
    /// The standard streams are put back; the exit code.
    Restore(i32),
    /// All is done; the exit code.
    Over(i32),
}

/// What is done first for a builtin command with `n` redirects.
pub open spec fn builtin_start(n: nat) -> BuiltinPhase {
    if n == 0 {
        BuiltinPhase::Run
    } else {
        BuiltinPhase::Save
    }
}

/// What is to be done next for a builtin command with `n` redirects. A redirect
/// that can not be made ends it.
pub open spec fn after_builtin(p: BuiltinPhase, n: nat, r: Reply) -> BuiltinPhase {
    match p {
        BuiltinPhase::Save => BuiltinPhase::Redirect(0),
        BuiltinPhase::Redirect(k) => if r is Failed {
            BuiltinPhase::Over(1)
        } else if k + 1 < n {
            BuiltinPhase::Redirect((k + 1) as usize)
        } else {
            BuiltinPhase::Run
        },
        BuiltinPhase::Run => if n == 0 {
            BuiltinPhase::Over(code_in(r))
        } else {
            BuiltinPhase::Restore(code_in(r))
        },
        BuiltinPhase::Restore(c) => BuiltinPhase::Over(c),
        BuiltinPhase::Over(c) => BuiltinPhase::Over(c),
    }
}

/// What is done first for a builtin command with `n` redirects.
pub fn start_builtin(n: usize) -> (p: BuiltinPhase)
    ensures
        p == builtin_start(n as nat),
{
    if n == 0 {
        BuiltinPhase::Run
    } else {
        BuiltinPhase::Save
    }
}

/// What is done first for a builtin command, whether it is carried out by the
/// shell itself or in a process of its own: its redirects are made before it.
pub fn start_command(simple: &Simple) -> (p: BuiltinPhase)
    ensures
        p == builtin_start(simple@.redirects.len()),
{
    assert(simple@.redirects.len() == simple.redirects.len());
    start_builtin(simple.redirects.len())
}

/// What is to be done next for a builtin command with `n` redirects.
pub fn builtin_step(p: BuiltinPhase, n: usize, r: Reply) -> (q: BuiltinPhase)
    ensures
        q == after_builtin(p, n as nat, r),
{
    match p {
        BuiltinPhase::Save => BuiltinPhase::Redirect(0),
        BuiltinPhase::Redirect(k) => {
            if let Reply::Failed(_) = r {
                BuiltinPhase::Over(1)
            } else if n >= 1 && k < n - 1 {
                BuiltinPhase::Redirect(k + 1)
            } else {
                BuiltinPhase::Run
            }
        },
        BuiltinPhase::Run => {
            if n == 0 {
                BuiltinPhase::Over(reply_code(r))
            } else {
                BuiltinPhase::Restore(reply_code(r))
            }
        },
        BuiltinPhase::Restore(c) => BuiltinPhase::Over(c),
        BuiltinPhase::Over(c) => BuiltinPhase::Over(c),
    }
}

/// A command is carried out only once all its redirects are made, and where it
/// is carried out the standard streams are put back behind it. Where a redirect
/// can not be made, that ends it, and the streams stay as they are by then.
pub proof fn law_redirects_come_first(p: BuiltinPhase, n: nat, r: Reply)
    requires
        n > 0,
    ensures
        after_builtin(p, n, r) is Run ==> (p matches BuiltinPhase::Redirect(k) && k + 1 >= n
            && !(r is Failed)),
        p is Run ==> after_builtin(p, n, r) == BuiltinPhase::Restore(code_in(r)),
        p is Redirect && r is Failed ==> after_builtin(p, n, r) == BuiltinPhase::Over(1),
{
}

// ---------------------------------------------------------------------------
// Redirects without a command
// ---------------------------------------------------------------------------

/// What is to be done next for a command that has redirects only.
#[derive(Debug, PartialEq, Eq, Structural, Clone, Copy)]
pub enum RedirectOnlyPhase {
    /// The redirect with this number is tried.
    Check(usize),
    /// All is done; the exit code.
    Over(i32),
}

/// What is done first for `n` redirects without a command.
pub open spec fn checks_start(n: usize) -> RedirectOnlyPhase {
    if n == 0 {
        RedirectOnlyPhase::Over(0)
    } else {
        RedirectOnlyPhase::Check(0)
    }
}

/// What is to be done once the redirect `k` of `n` was tried; `done` says
/// whether that succeeded. The first that fails ends it.
pub open spec fn after_check(k: usize, n: usize, done: bool) -> RedirectOnlyPhase {
    if !done {
        RedirectOnlyPhase::Over(1)
    } else if k + 1 < n {
        RedirectOnlyPhase::Check((k + 1) as usize)
    } else {
        RedirectOnlyPhase::Over(0)
    }
}

/// What is to be done for `n` redirects without a command once as many as `done`
/// holds were tried.
pub open spec fn checked(n: usize, done: Seq<bool>) -> RedirectOnlyPhase
    decreases done.len(),
{
    if done.len() == 0 {
        checks_start(n)
    } else {
        match checked(n, done.drop_last()) {
            RedirectOnlyPhase::Check(k) => after_check(k, n, done.last()),
            RedirectOnlyPhase::Over(c) => RedirectOnlyPhase::Over(c),
        }
    }
}

/// What is done first for `n` redirects without a command.
pub fn start_redirect_only(n: usize) -> (p: RedirectOnlyPhase)
    ensures
        p == checks_start(n),
{
    if n == 0 {
        RedirectOnlyPhase::Over(0)
    } else {
        RedirectOnlyPhase::Check(0)
    }
}

/// What is to be done once the redirect `k` of `n` was tried.
pub fn redirect_only_step(k: usize, n: usize, done: bool) -> (p: RedirectOnlyPhase)
    ensures
        p == after_check(k, n, done),
{
    if !done {
        RedirectOnlyPhase::Over(1)
    } else if n >= 1 && k < n - 1 {
        RedirectOnlyPhase::Check(k + 1)
    } else {
        RedirectOnlyPhase::Over(0)
    }
}

/// Redirects without a command are tried in order. The exit code is 0 where all
/// of them succeed. It is 1 at the first that fails, and those behind it are not
/// tried.
pub proof fn law_redirects_alone(n: usize, done: Seq<bool>)
    requires
        done.len() <= n,
    ensures
        !done.contains(false) ==> checked(n, done) == (if done.len() < n {
            RedirectOnlyPhase::Check(done.len() as usize)
        } else {
            RedirectOnlyPhase::Over(0)
        }),
        done.contains(false) ==> checked(n, done) == RedirectOnlyPhase::Over(1),
    decreases done.len(),
{
    if done.len() > 0 {
        let before = done.drop_last();
        law_redirects_alone(n, before);
        assert(done =~= before.push(done.last()));
        if done.contains(false) {
            let k = choose|k: int| 0 <= k < done.len() && done[k] == false;
            if k < before.len() {
                assert(before[k] == false);
            }
        } else {
            assert(done[done.len() - 1]);
            assert forall|k: int| 0 <= k < before.len() implies before[k] by {
                assert(done.contains(done[k]));
            }
        }
        if before.contains(false) {
            let k = choose|k: int| 0 <= k < before.len() && before[k] == false;
            assert(done[k] == false);
        }
    }
}

// ---------------------------------------------------------------------------
// Redirects of a program
// ---------------------------------------------------------------------------

/// What is to be done next for the redirects of a program that is about to be
/// started.
#[derive(Debug, PartialEq, Eq, Structural, Clone, Copy)]
pub enum RedirectPhase {
    /// The redirect with this number is made.
    Make(usize),
    /// No more is made, and the program is started.
    Over,
}

/// What is done first for the `n` redirects of a program.
pub open spec fn redirects_start(n: usize) -> RedirectPhase {
    if n == 0 {
        RedirectPhase::Over
    } else {
        RedirectPhase::Make(0)
    }
}

/// What is to be done behind the redirect `k` of `n`; `made` says whether it
/// could be made. The first that could not be made is the last that is tried.
pub open spec fn after_redirect(k: usize, n: usize, made: bool) -> RedirectPhase {
    if made && k + 1 < n {
        RedirectPhase::Make((k + 1) as usize)
    } else {
        RedirectPhase::Over
    }
}

/// What is to be done for the `n` redirects of a program once as many as `made`
/// holds were tried.
pub open spec fn redirected(n: usize, made: Seq<bool>) -> RedirectPhase
    decreases made.len(),
{
    if made.len() == 0 {
        redirects_start(n)
    } else {
        match redirected(n, made.drop_last()) {
            RedirectPhase::Make(k) => after_redirect(k, n, made.last()),
            RedirectPhase::Over => RedirectPhase::Over,
        }
    }
}

/// What is done first for the `n` redirects of a program.
pub fn start_redirects(n: usize) -> (p: RedirectPhase)
    ensures
        p == redirects_start(n),
{
    if n == 0 {
        RedirectPhase::Over
    } else {
        RedirectPhase::Make(0)
    }
}

/// What is to be done behind the redirect `k` of `n` of a program.
pub fn redirect_step(k: usize, n: usize, made: bool) -> (p: RedirectPhase)
    ensures
        p == after_redirect(k, n, made),
{
    if made && n >= 1 && k < n - 1 {
        RedirectPhase::Make(k + 1)
    } else {
        RedirectPhase::Over
    }
}

/// The redirects of a program are made in order, up to the first that can not be
/// made.
pub proof fn law_redirects_of_a_program(n: usize, made: Seq<bool>)
    requires
        made.len() <= n,
    ensures
        redirected(n, made) == (if made.len() < n && !made.contains(false) {
            RedirectPhase::Make(made.len() as usize)
        } else {
            RedirectPhase::Over
        }),
    decreases made.len(),
{
    if made.len() > 0 {
        let before = made.drop_last();
        law_redirects_of_a_program(n, before);
        assert(made =~= before.push(made.last()));
        if before.contains(false) {
            let k = choose|k: int| 0 <= k < before.len() && before[k] == false;
            assert(made[k] == false);
        } else if made.contains(false) {
            let k = choose|k: int| 0 <= k < made.len() && made[k] == false;
            if k < before.len() {
                assert(before[k] == false);
            }
        } else {
            assert(made[made.len() - 1]);
        }
    }
}

} // verus!
