//! What holds of what is returned: each law says of any result that a function can return
//! for its arguments what that result is.

use vstd::prelude::*;
use vstd::string::*;

use crate::builtins;
use crate::builtins::{Deletion, RmPlan};
use crate::config;
use crate::control;
use crate::control::Outcome;
use crate::correct;
use crate::correct::ShitPlan;
use crate::exec;
use crate::exec::Start;
use crate::expand;
use crate::history::History;
use crate::numbers;
use crate::screen;
use crate::screen::TermCaps;
use crate::shell;
use crate::shell::{Shell, ShellV};
use crate::suggest;
use crate::suggest::Surroundings;
use crate::text;
use crate::wording;

verus! {

/// `type` succeeds where all names are known, and `source` gives the exit code of the
/// last line that was run.
pub proof fn law_codes_of_several(known: &Vec<bool>, a: i32, codes: &Vec<i32>, b: i32)
    requires
        call_ensures(builtins::type_code, (known,), a),
        call_ensures(builtins::source_code, (codes,), b),
    ensures
        a == 0 <==> forall|k: int| 0 <= k < known@.len() ==> #[trigger] known@[k],
        a == 0 || a == 1,
        codes@.len() > 0 ==> b == codes@[codes@.len() - 1],
        codes@.len() == 0 ==> b == 0,
{
    if known@.contains(false) {
        let k = known@.index_of(false);
        assert(!known@[k]);
    } else {
        assert forall|k: int| 0 <= k < known@.len() implies #[trigger] known@[k] by {
            if !known@[k] {
                assert(known@.contains(false));
            }
        }
    }
}

/// A directory is removed only where that is asked for, with all that is in it; any other
/// file is always removed.
pub proof fn law_what_is_removed(path: &str, recursive: bool, a: Deletion, b: Deletion)
    requires
        call_ensures(builtins::delete_path, (path, true, recursive), a),
        call_ensures(builtins::delete_path, (path, false, recursive), b),
    ensures
        recursive ==> a is Tree,
        !recursive ==> (a matches Deletion::Refuse(m) && m@ == "btsh: rm: "@ + path@
            + ": is a directory\n"@),
        b is File,
{
}

/// `rm` needs something to remove.
pub proof fn law_rm_needs_files(args: &Vec<String>, r: (Result<RmPlan, String>, i32))
    requires
        args@.len() > 0,
        call_ensures(builtins::exec_builtin_rm, (args,), r),
    ensures
        args@.len() == 1 ==> (r.0 matches Err(m) && m@ == "btsh: rm: missing operand\n"@) && r.1 == 1,
        r.0 matches Ok(p) ==> p.files@.len() > 0 && r.1 == 0,
{
    assert(text::texts(args@).len() == args@.len());
    if r.0 is Ok {
        let p = r.0->Ok_0;
        assert(p@.files.len() == p.files@.len());
    }
}

/// The command before the last one is what is corrected; where there is none, that is
/// said.
pub proof fn law_which_command_is_corrected(s: &Shell, r: ShitPlan)
    requires
        call_ensures(correct::exec_builtin_shit, (s,), r),
    ensures
        s@.prev_cmd.len() > 0 ==> (r matches ShitPlan::Rerun(c) && c@ == s@.prev_cmd),
        s@.prev_cmd.len() == 0 ==> (r matches ShitPlan::Nothing(c, m) && c == 1 && m@
            == "btsh: shit: no previous command"@),
{
}

/// A correction that was run gives its exit code, and one that was not wanted none. It
/// enters the history where there is one.
pub proof fn law_after_a_correction(
    ran: Option<i32>,
    a: i32,
    fix: &str,
    s: &Shell,
    b: Option<String>,
    script: &str,
    c: (i32, String),
)
    requires
        call_ensures(correct::correction_code, (ran,), a),
        call_ensures(correct::kept_correction, (fix, s), b),
        call_ensures(correct::no_correction, (script,), c),
    ensures
        ran matches Some(code) ==> a == code,
        ran is None ==> a == 0,
        s@.history && !s@.fresh ==> (b matches Some(l) && l@ == fix@.push('\n')),
        !s@.history || s@.fresh ==> b is None,
        c.0 == 1 && c.1@ == "btsh: shit: no correction found for: "@ + script@,
{
    reveal_strlit("\n");
    assert("\n"@ =~= seq!['\n']);
    assert(fix@ + seq!['\n'] =~= fix@.push('\n'));
}

/// Lines enter the history and the log only where these are switched on, and comments
/// never enter the history.
pub proof fn law_what_is_kept_of_a_line(line: &str, s: &Shell, a: bool, b: Option<String>)
    requires
        call_ensures(exec::enters_history, (line, s), a),
        call_ensures(exec::log_command, (s, line), b),
    ensures
        !s@.history ==> !a,
        line@.len() > 0 && line@[0] == '#' ==> !a,
        s@.history && (line@.len() == 0 || line@[0] != '#') ==> a,
        s@.logging ==> (b matches Some(l) && l@ == line@.push('\n')),
        !s@.logging ==> b is None,
{
    reveal_strlit("\n");
    assert("\n"@ =~= seq!['\n']);
    assert(line@ + seq!['\n'] =~= line@.push('\n'));
}

/// `-c` runs the argument behind it; `--fresh` leaves history and settings alone; any
/// other start reads lines.
pub proof fn law_ways_to_start(args: &Vec<String>, r: Start)
    requires
        call_ensures(exec::start_of, (args,), r),
    ensures
        args@.len() >= 3 && args@[1]@ == "-c"@ ==> (r matches Start::Command(c) && c@
            == args@[2]@),
        args@.len() >= 2 && args@[1]@ == "--fresh"@ ==> r == Start::Session(true),
        args@.len() <= 1 ==> r == Start::Session(false),
        args@.len() >= 2 && args@[1]@ != "-c"@ && args@[1]@ != "--fresh"@ ==> r == Start::Session(
            false,
        ),
{
    reveal_strlit("-c");
    reveal_strlit("--fresh");
    assert("-c"@.len() != "--fresh"@.len());
}

/// A command substitution runs its text without the white space around it, and nothing
/// where there is no text.
pub proof fn law_scripts_of_substitutions(a: Seq<char>, t: Seq<char>, b: Seq<char>, cmd: &str, r: Option<String>)
    requires
        wording::blank(a),
        wording::blank(b),
        wording::tight(t),
        cmd@ == a + t + b || cmd@ == a,
        call_ensures(expand::subshell_script, (cmd,), r),
    ensures
        cmd@ == a + t + b ==> (r matches Some(s) && s@ == t),
        cmd@ == a ==> r is None,
{
    wording::law_trimming(a, t, b);
}

/// A terminal that does not say how wide it is counts as 80 columns wide.
pub proof fn law_width_of_a_terminal(n: u16, a: usize, b: usize, c: usize)
    requires
        n > 0,
        call_ensures(screen::columns, (Some(n),), a),
        call_ensures(screen::columns, (None,), b),
        call_ensures(screen::columns, (Some(0u16),), c),
    ensures
        a == n,
        b == 80,
        c == 80,
{
}

/// A terminal without a description is written to with the usual sequences.
pub proof fn law_usual_sequences(r: TermCaps)
    requires
        call_ensures(screen::resolve_term_caps, (None, None, None, None), r),
    ensures
        r.clear_screen@ == "\x1b[2J\x1b[H"@,
        r.erase_to_end@ == "\x1b[J"@,
        r.dim@ == "\x1b[2m"@,
        r.reset@ == "\x1b[0m"@,
{
}

/// Each sequence is taken from its own place in the terminal's description.
pub proof fn law_described_sequences(
    clear: String,
    erase: String,
    dim: String,
    reset: String,
    r: TermCaps,
)
    requires
        clear@.len() > 0 && erase@.len() > 0 && dim@.len() > 0 && reset@.len() > 0,
        call_ensures(
            screen::resolve_term_caps,
            (Some(clear), Some(erase), Some(dim), Some(reset)),
            r,
        ),
    ensures
        r.clear_screen@ == clear@,
        r.erase_to_end@ == erase@,
        r.dim@ == dim@,
        r.reset@ == reset@,
{
}

/// A directory that is in the list already is not added again, and one that is not is
/// put at its end.
pub proof fn law_directories_are_added_once(
    current: &str,
    dir: &str,
    a: Option<String>,
    b: Option<String>,
)
    requires
        current@.len() > 0,
        call_ensures(builtins::extended_path, (current, dir, true), a),
        call_ensures(builtins::extended_path, (current, dir, false), b),
    ensures
        a is None,
        b matches Some(p) && p@ == current@ + seq![':'] + dir@,
{
    reveal_strlit(":");
    assert(":"@ =~= seq![':']);
}

/// A directory is written to the settings once: at the end, where no line adds it yet.
pub proof fn law_directories_are_kept_once(content: &str, dir: &str, r: Option<String>, k: int)
    requires
        call_ensures(config::persist_path_to_config, (content, dir), r),
        0 <= k,
    ensures
        k < text::lines_of(content@).len() && text::trimmed(text::lines_of(content@)[k]) == "path "@
            + dir@ ==> r is None,
        content@.len() == 0 ==> (r matches Some(c) && c@ == "path "@ + dir@ + seq!['\n']),
{
    let ls = text::lines_of(content@);
    let p = config::PatternV::Either(config::path_line(dir@), config::path_line(dir@));
    if k < ls.len() && text::trimmed(ls[k]) == "path "@ + dir@ {
        assert(config::fits(p, ls[k]));
        assert(config::any_fits(p, ls));
    }
    if content@.len() == 0 {
        assert(ls =~= Seq::empty());
        assert(content@ =~= Seq::empty());
        assert(config::with_line(content@, "path "@ + dir@) =~= "path "@ + dir@ + seq!['\n']);
    }
}

/// What is said of the state of a feature.
pub proof fn law_status_of_features(args: &Vec<String>, s: &Shell, r: Outcome)
    requires
        args@.len() == 1,
        call_ensures(control::exec_btshctl_status, (args, s), r),
    ensures
        args@[0]@ == "logging"@ ==> r.out@ == (if s@.logging {
            "logging: enabled\nlog file: /tmp/btsh_debug.log\n"@
        } else {
            "logging: disabled (default)\nlog file: /tmp/btsh_debug.log\n"@
        }) && r.code == 0,
        args@[0]@ == "shit"@ ==> r.out@ == (if s@.shit {
            "shit: enabled (default)\n"@
        } else {
            "shit: disabled\n"@
        }) && r.code == 0,
        args@[0]@ == "history"@ ==> r.out@ == (if s@.history {
            "history: enabled (default)\n"@
        } else {
            "history: disabled\n"@
        }) && r.code == 0,
        args@[0]@ == "auto-suggestion"@ ==> r.out@ == (if s@.autosuggest {
            "auto-suggestion: enabled (default)\n"@
        } else {
            "auto-suggestion: disabled\n"@
        }) && r.code == 0,
{
    let names = text::texts(args@);
    assert(names.len() == 1 && names[0] == args@[0]@);
    reveal_strlit("logging");
    reveal_strlit("shit");
    reveal_strlit("history");
    reveal_strlit("auto-suggestion");
    assert("logging"@[0] == 'l' && "history"@[0] == 'h');
    lemma_status_texts();
    assert(r@.out == r.out@);
    assert(r@.code == r.code);
}

proof fn lemma_status_texts()
    ensures
        ({
            let state = |f: control::Feature, on: bool| control::state_text(f, on);
            &&& state(control::Feature::Logging, true)
                == "logging: enabled\nlog file: /tmp/btsh_debug.log\n"@
            &&& state(control::Feature::Logging, false)
                == "logging: disabled (default)\nlog file: /tmp/btsh_debug.log\n"@
            &&& state(control::Feature::Shit, true) == "shit: enabled (default)\n"@
            &&& state(control::Feature::Shit, false) == "shit: disabled\n"@
            &&& state(control::Feature::History, true) == "history: enabled (default)\n"@
            &&& state(control::Feature::History, false) == "history: disabled\n"@
            &&& state(control::Feature::Autosuggest, true)
                == "auto-suggestion: enabled (default)\n"@
            &&& state(control::Feature::Autosuggest, false) == "auto-suggestion: disabled\n"@
        }),
{
    reveal_strlit("logging: ");
    reveal_strlit("enabled");
    reveal_strlit("disabled (default)");
    reveal_strlit("\nlog file: ");
    reveal_strlit("/tmp/btsh_debug.log");
    reveal_strlit("\n");
    reveal_strlit(": ");
    reveal_strlit("enabled (default)");
    reveal_strlit("disabled");
    reveal_strlit("shit");
    reveal_strlit("history");
    reveal_strlit("auto-suggestion");
    reveal_strlit("logging: enabled\nlog file: /tmp/btsh_debug.log\n");
    reveal_strlit("logging: disabled (default)\nlog file: /tmp/btsh_debug.log\n");
    reveal_strlit("shit: enabled (default)\n");
    reveal_strlit("shit: disabled\n");
    reveal_strlit("history: enabled (default)\n");
    reveal_strlit("history: disabled\n");
    reveal_strlit("auto-suggestion: enabled (default)\n");
    reveal_strlit("auto-suggestion: disabled\n");
    assert(control::state_text(control::Feature::Logging, true)
        =~= "logging: enabled\nlog file: /tmp/btsh_debug.log\n"@);
    assert(control::state_text(control::Feature::Logging, false)
        =~= "logging: disabled (default)\nlog file: /tmp/btsh_debug.log\n"@);
    assert(control::state_text(control::Feature::Shit, true) =~= "shit: enabled (default)\n"@);
    assert(control::state_text(control::Feature::Shit, false) =~= "shit: disabled\n"@);
    assert(control::state_text(control::Feature::History, true) =~= "history: enabled (default)\n"@);
    assert(control::state_text(control::Feature::History, false) =~= "history: disabled\n"@);
    assert(control::state_text(control::Feature::Autosuggest, true)
        =~= "auto-suggestion: enabled (default)\n"@);
    assert(control::state_text(control::Feature::Autosuggest, false)
        =~= "auto-suggestion: disabled\n"@);
}

/// Nothing is suggested where suggestions are switched off, or for an empty line.
pub proof fn law_suggestions_can_be_switched_off(
    prefix: &str,
    h: &History,
    around: &Surroundings,
    a: Option<String>,
    b: Option<String>,
)
    requires
        call_ensures(suggest::suggest_command_opt, (prefix, h, false, around), a),
        call_ensures(suggest::suggest_command_opt, (prefix, h, true, around), b),
    ensures
        a is None,
        prefix@.len() == 0 ==> b is None,
        shell::opt(b) == suggest::suggestion_for(prefix@, h@.entries, *around),
{
}

/// What is asked and said around files and dialogues, and the exit codes of complaints.
pub proof fn law_what_is_said(
    path: &str,
    a: String,
    name: &str,
    b: Outcome,
    command: &str,
    subject: &str,
    error: &str,
    c: (i32, String),
)
    requires
        call_ensures(control::clear_question, (path,), a),
        call_ensures(control::interactive_only, (name,), b),
        call_ensures(builtins::complain, (command, Some(subject), error), c),
    ensures
        a@ == "    ! delete "@ + path@ + "? [y/n] "@,
        b.code == 1 && b.err@ == "btsh: btshctl: "@ + name@ + ": interactive-only command\n"@
            && b.keep is None,
        c.0 == 1 && c.1@ == "btsh: "@ + command@ + ": "@ + subject@ + ": "@ + error@ + "\n"@,
{
    assert(b@.err == b.err@ && b@.code == b.code && b@.keep == b.keep);
    assert(c.1@ =~= "btsh: "@ + command@ + ": "@ + subject@ + ": "@ + error@ + "\n"@);
}

/// A refused time limit gives the exit code 2.
pub proof fn law_refused_limits_have_a_code(
    args: &Vec<String>,
    positive: bool,
    r: Option<(i32, String)>,
)
    requires
        call_ensures(builtins::timeout_refusal, (args, positive), r),
    ensures
        r matches Some(x) ==> x.0 == 2,
        args@.len() < 3 || !positive ==> r is Some,
        args@.len() >= 3 && positive ==> r is None,
{
    assert(text::texts(args@).len() == args@.len());
}

/// The last command becomes the one before, and the new one the last.
pub proof fn law_commands_are_remembered(s: ShellV, a: Seq<char>, b: Seq<char>)
    ensures
        ({
            let t = shell::remembered(shell::remembered(s, a), b);
            t.last_cmd == b && t.prev_cmd == a && t.last_exit == s.last_exit && t.aliases
                == s.aliases && t.vars == s.vars
        }),
{
}

/// A background process is announced with the number of those that run, itself among
/// them, and its own number; it is the last that was started.
pub proof fn law_jobs_are_announced(s: ShellV, pid: u32)
    ensures
        ({
            let (t, line) = shell::with_job(s, pid);
            &&& t.last_bg_pid == Some(pid)
            &&& t.running_bg.len() == s.running_bg.len() + 1
            &&& t.running_bg.last() == pid
            &&& line == seq!['['] + numbers::digits(t.running_bg.len()) + seq![']', ' ']
                + numbers::digits(pid as nat)
            &&& t.last_exit == s.last_exit
        }),
{
    reveal_strlit("[");
    reveal_strlit("] ");
    assert("["@ =~= seq!['[']);
    assert("] "@ =~= seq![']', ' ']);
}

} // verus!
