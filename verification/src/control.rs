//! The command that switches the shell's features on and off.

use vstd::prelude::*;
use vstd::string::*;

use crate::config;
use crate::correct;
use crate::correct::{read_answer, Answer};
use crate::settings;
use crate::settings::Switch;
use crate::shell::{Shell, ShellV};
use crate::text;
use crate::text::{owned, same, trim};

verus! {

/// Where commands are logged.
pub const DEBUG_LOG: &'static str = "/tmp/btsh_debug.log";

/// A feature that can be switched on and off.
#[derive(Debug, PartialEq, Eq, Structural, Clone, Copy)]
pub enum Feature {
    Logging,
    Shit,
    History,
    Autosuggest,
}

/// What a feature is called.
pub open spec fn feature_name(f: Feature) -> Seq<char> {
    match f {
        Feature::Logging => "logging"@,
        Feature::Shit => "shit"@,
        Feature::History => "history"@,
        Feature::Autosuggest => "auto-suggestion"@,
    }
}

/// Whether a feature is on.
pub open spec fn feature_on(s: ShellV, f: Feature) -> bool {
    match f {
        Feature::Logging => s.logging,
        Feature::Shit => s.shit,
        Feature::History => s.history,
        Feature::Autosuggest => s.autosuggest,
    }
}

/// The shell with a feature on or off.
pub open spec fn with_feature(s: ShellV, f: Feature, on: bool) -> ShellV {
    match f {
        Feature::Logging => ShellV { logging: on, ..s },
        Feature::Shit => ShellV { shit: on, ..s },
        Feature::History => ShellV { history: on, ..s },
        Feature::Autosuggest => ShellV { autosuggest: on, ..s },
    }
}

/// The feature that the only argument names.
pub open spec fn only_feature(args: Seq<Seq<char>>) -> Option<Feature> {
    if args.len() != 1 {
        None
    } else if args[0] == "logging"@ {
        Some(Feature::Logging)
    } else if args[0] == "shit"@ {
        Some(Feature::Shit)
    } else if args[0] == "history"@ {
        Some(Feature::History)
    } else if args[0] == "auto-suggestion"@ {
        Some(Feature::Autosuggest)
    } else {
        None
    }
}

fn name_of(f: Feature) -> (r: &'static str)
    ensures
        r@ == feature_name(f),
{
    match f {
        Feature::Logging => "logging",
        Feature::Shit => "shit",
        Feature::History => "history",
        Feature::Autosuggest => "auto-suggestion",
    }
}

fn is_on(shell: &Shell, f: Feature) -> (r: bool)
    ensures
        r == feature_on(shell@, f),
{
    match f {
        Feature::Logging => shell.logging,
        Feature::Shit => shell.shit,
        Feature::History => shell.history,
        Feature::Autosuggest => shell.autosuggest,
    }
}

fn set_feature(shell: &mut Shell, f: Feature, on: bool)
    ensures
        final(shell)@ == with_feature(old(shell)@, f, on),
{
    match f {
        Feature::Logging => {
            shell.logging = on;
        },
        Feature::Shit => {
            shell.shit = on;
        },
        Feature::History => {
            shell.history = on;
        },
        Feature::Autosuggest => {
            shell.autosuggest = on;
        },
    }
}

fn named_feature(args: &Vec<String>) -> (r: Option<Feature>)
    ensures
        r == only_feature(text::texts(args@)),
{
    assert(text::texts(args@).len() == args.len());
    if args.len() != 1 {
        return None;
    }
    let name = args[0].as_str();
    assert(text::texts(args@)[0] == name@);
    if same(name, "logging") {
        Some(Feature::Logging)
    } else if same(name, "shit") {
        Some(Feature::Shit)
    } else if same(name, "history") {
        Some(Feature::History)
    } else if same(name, "auto-suggestion") {
        Some(Feature::Autosuggest)
    } else {
        None
    }
}

/// What a command has written, and what comes of it.
pub struct Outcome {
    /// What goes to the standard output.
    pub out: String,
    /// What goes to the standard error.
    pub err: String,
    pub code: i32,
    /// The feature whose state is to be kept in the settings.
    pub keep: Option<(Feature, bool)>,
}

#[verifier::ext_equal]
pub struct OutcomeV {
    pub out: Seq<char>,
    pub err: Seq<char>,
    pub code: i32,
    pub keep: Option<(Feature, bool)>,
}

impl View for Outcome {
    type V = OutcomeV;

    open spec fn view(&self) -> OutcomeV {
        OutcomeV { out: self.out@, err: self.err@, code: self.code, keep: self.keep }
    }
}

pub open spec fn said(out: Seq<char>, keep: Option<(Feature, bool)>) -> OutcomeV {
    OutcomeV { out, err: Seq::empty(), code: 0, keep }
}

pub open spec fn refused(err: Seq<char>) -> OutcomeV {
    OutcomeV { out: Seq::empty(), err, code: 1, keep: None }
}

fn say(out: String, keep: Option<(Feature, bool)>) -> (r: Outcome)
    ensures
        r@ == said(out@, keep),
{
    let err = String::new();
    assert(err@ =~= Seq::empty());
    Outcome { out, err, code: 0, keep }
}

fn refuse(err: String) -> (r: Outcome)
    ensures
        r@ == refused(err@),
{
    let out = String::new();
    assert(out@ =~= Seq::empty());
    Outcome { out, err, code: 1, keep: None }
}

/// What switching the feature that the arguments name on or off says and does.
pub open spec fn switched(s: ShellV, args: Seq<Seq<char>>, on: bool) -> (ShellV, OutcomeV) {
    match only_feature(args) {
        Some(f) => (
            with_feature(s, f, on),
            said(
                feature_name(f) + (if on {
                    " enabled\n"@
                } else {
                    " disabled\n"@
                }),
                Some((f, on)),
            ),
        ),
        None => (
            s,
            refused(
                if on {
                    "usage: btshctl enable logging|shit|history|auto-suggestion\n"@
                } else {
                    "usage: btshctl disable logging|shit|history|auto-suggestion\n"@
                },
            ),
        ),
    }
}

fn two(a: &str, b: &str) -> (r: String)
    ensures
        r@ == a@ + b@,
{
    let mut s = owned(a);
    s.append(b);
    s
}

pub fn exec_btshctl_enable(args: &Vec<String>, shell: &mut Shell) -> (r: Outcome)
    ensures
        (final(shell)@, r@) == switched(old(shell)@, text::texts(args@), true),
{
    match named_feature(args) {
        Some(f) => {
            set_feature(shell, f, true);
            say(two(name_of(f), " enabled\n"), Some((f, true)))
        },
        None => refuse(
            owned("usage: btshctl enable logging|shit|history|auto-suggestion\n"),
        ),
    }
}

pub fn exec_btshctl_disable(args: &Vec<String>, shell: &mut Shell) -> (r: Outcome)
    ensures
        (final(shell)@, r@) == switched(old(shell)@, text::texts(args@), false),
{
    match named_feature(args) {
        Some(f) => {
            set_feature(shell, f, false);
            say(two(name_of(f), " disabled\n"), Some((f, false)))
        },
        None => refuse(
            owned("usage: btshctl disable logging|shit|history|auto-suggestion\n"),
        ),
    }
}

/// What is said of the state of a feature. Logging is off unless it is switched
/// on, and the others are on unless they are switched off.
pub open spec fn state_text(f: Feature, on: bool) -> Seq<char> {
    if f == Feature::Logging {
        "logging: "@ + (if on {
            "enabled"@
        } else {
            "disabled (default)"@
        }) + "\nlog file: "@ + "/tmp/btsh_debug.log"@ + "\n"@
    } else {
        feature_name(f) + ": "@ + (if on {
            "enabled (default)"@
        } else {
            "disabled"@
        }) + "\n"@
    }
}

pub fn exec_btshctl_status(args: &Vec<String>, shell: &Shell) -> (r: Outcome)
    ensures
        r@ == (match only_feature(text::texts(args@)) {
            Some(f) => said(state_text(f, feature_on(shell@, f)), None),
            None => refused("usage: btshctl status logging|shit|history|auto-suggestion\n"@),
        }),
{
    match named_feature(args) {
        Some(f) => {
            let on = is_on(shell, f);
            let mut s = two(name_of(f), ": ");
            if f == Feature::Logging {
                s = owned("logging: ");
                s.append(
                    if on {
                        "enabled"
                    } else {
                        "disabled (default)"
                    },
                );
                s.append("\nlog file: ");
                s.append("/tmp/btsh_debug.log");
            } else {
                s.append(
                    if on {
                        "enabled (default)"
                    } else {
                        "disabled"
                    },
                );
            }
            s.append("\n");
            say(s, None)
        },
        None => refuse(
            owned("usage: btshctl status logging|shit|history|auto-suggestion\n"),
        ),
    }
}

// ---------------------------------------------------------------------------
// The dialogue about a feature
// ---------------------------------------------------------------------------

/// What is to be done after a line of the dialogue.
#[derive(Debug, PartialEq, Eq, Structural, Clone, Copy)]
pub enum Next {
    /// Read another line.
    Again,
    /// Ask whether to delete the feature's file, and then read another line.
    ClearFile,
    /// Leave the dialogue; the exit code.
    Leave(i32),
}

/// The exit code of a dialogue that was left, also by the end of its input.
pub const DIALOGUE_LEFT: i32 = 0;

/// What a line of the dialogue says and does.
pub struct Reply {
    pub out: String,
    pub keep: Option<(Feature, bool)>,
    pub next: Next,
}

#[verifier::ext_equal]
pub struct ReplyV {
    pub out: Seq<char>,
    pub keep: Option<(Feature, bool)>,
    pub next: Next,
}

impl View for Reply {
    type V = ReplyV;

    open spec fn view(&self) -> ReplyV {
        ReplyV { out: self.out@, keep: self.keep, next: self.next }
    }
}

/// The file of a feature, as its help names it, if it has one.
pub open spec fn file_help(f: Feature) -> Option<Seq<char>> {
    match f {
        Feature::Logging => Some("    !   clear-file   delete /tmp/btsh_debug.log\n"@),
        Feature::History => Some("    !   clear-file   delete the history file\n"@),
        _ => None,
    }
}

/// The commands of the dialogue.
pub open spec fn help_text(f: Feature) -> Seq<char> {
    let name = feature_name(f);
    "    ! "@ + name + " commands:\n    !   help         show this help\n    !   enable       enable "@
        + name + "\n    !   disable      disable "@ + name
        + "\n    !   status       show if on or off\n"@ + (match file_help(f) {
        Some(t) => t,
        None => Seq::empty(),
    }) + "    !   q / exit     leave this shell\n"@
}

/// What a line of the dialogue about a feature says and does.
pub open spec fn dialogue(s: ShellV, f: Feature, line: Seq<char>) -> (ShellV, ReplyV) {
    let cmd = text::trimmed(line);
    if cmd.len() == 0 {
        (s, ReplyV { out: Seq::empty(), keep: None, next: Next::Again })
    } else if cmd == "help"@ {
        (s, ReplyV { out: help_text(f), keep: None, next: Next::Again })
    } else if cmd == "enable"@ {
        (
            with_feature(s, f, true),
            ReplyV { out: "    ! enabled\n"@, keep: Some((f, true)), next: Next::Again },
        )
    } else if cmd == "disable"@ {
        (
            with_feature(s, f, false),
            ReplyV { out: "    ! disabled\n"@, keep: Some((f, false)), next: Next::Again },
        )
    } else if cmd == "status"@ {
        (
            s,
            ReplyV {
                out: if feature_on(s, f) {
                    "    ! on\n"@
                } else {
                    "    ! off\n"@
                },
                keep: None,
                next: Next::Again,
            },
        )
    } else if cmd == "clear-file"@ && file_help(f) is Some {
        (s, ReplyV { out: Seq::empty(), keep: None, next: Next::ClearFile })
    } else if cmd == "q"@ || cmd == "exit"@ || cmd == "quit"@ {
        (s, ReplyV { out: Seq::empty(), keep: None, next: Next::Leave(DIALOGUE_LEFT) })
    } else {
        (
            s,
            ReplyV {
                out: "    ! unknown command: "@ + cmd + "\n"@,
                keep: None,
                next: Next::Again,
            },
        )
    }
}

/// The commands of the dialogue about a feature.
pub fn feature_help(f: Feature) -> (r: String)
    ensures
        r@ == help_text(f),
{
    let name = name_of(f);
    let mut s = two("    ! ", name);
    s.append(" commands:\n    !   help         show this help\n    !   enable       enable ");
    s.append(name);
    s.append("\n    !   disable      disable ");
    s.append(name);
    s.append("\n    !   status       show if on or off\n");
    match f {
        Feature::Logging => {
            s.append("    !   clear-file   delete /tmp/btsh_debug.log\n");
        },
        Feature::History => {
            s.append("    !   clear-file   delete the history file\n");
        },
        _ => {
            assert(s@ + Seq::empty() =~= s@);
        },
    }
    s.append("    !   q / exit     leave this shell\n");
    s
}

fn reply(out: String, next: Next) -> (r: Reply)
    ensures
        r@ == (ReplyV { out: out@, keep: None, next }),
{
    Reply { out, keep: None, next }
}

fn silent(next: Next) -> (r: Reply)
    ensures
        r@ == (ReplyV { out: Seq::empty(), keep: None, next }),
{
    let out = String::new();
    assert(out@ =~= Seq::empty());
    Reply { out, keep: None, next }
}

/// What a line of the dialogue about a feature says and does.
pub fn exec_btshctl_feature(f: Feature, line: &str, shell: &mut Shell) -> (r: Reply)
    ensures
        (final(shell)@, r@) == dialogue(old(shell)@, f, line@),
{
    let t = trim(line);
    let cmd = t.as_str();
    if cmd.unicode_len() == 0 {
        silent(Next::Again)
    } else if same(cmd, "help") {
        reply(feature_help(f), Next::Again)
    } else if same(cmd, "enable") {
        set_feature(shell, f, true);
        Reply { out: owned("    ! enabled\n"), keep: Some((f, true)), next: Next::Again }
    } else if same(cmd, "disable") {
        set_feature(shell, f, false);
        Reply { out: owned("    ! disabled\n"), keep: Some((f, false)), next: Next::Again }
    } else if same(cmd, "status") {
        if is_on(shell, f) {
            reply(owned("    ! on\n"), Next::Again)
        } else {
            reply(owned("    ! off\n"), Next::Again)
        }
    } else if same(cmd, "clear-file") && (f == Feature::Logging || f == Feature::History) {
        silent(Next::ClearFile)
    } else if same(cmd, "q") || same(cmd, "exit") || same(cmd, "quit") {
        silent(Next::Leave(DIALOGUE_LEFT))
    } else {
        let mut s = two("    ! unknown command: ", cmd);
        s.append("\n");
        reply(s, Next::Again)
    }
}

pub fn exec_btshctl_logging(line: &str, shell: &mut Shell) -> (r: Reply)
    ensures
        (final(shell)@, r@) == dialogue(old(shell)@, Feature::Logging, line@),
{
    exec_btshctl_feature(Feature::Logging, line, shell)
}

pub fn exec_btshctl_shit(line: &str, shell: &mut Shell) -> (r: Reply)
    ensures
        (final(shell)@, r@) == dialogue(old(shell)@, Feature::Shit, line@),
{
    exec_btshctl_feature(Feature::Shit, line, shell)
}

pub fn exec_btshctl_history(line: &str, shell: &mut Shell) -> (r: Reply)
    ensures
        (final(shell)@, r@) == dialogue(old(shell)@, Feature::History, line@),
{
    exec_btshctl_feature(Feature::History, line, shell)
}

pub fn exec_btshctl_autosuggest(line: &str, shell: &mut Shell) -> (r: Reply)
    ensures
        (final(shell)@, r@) == dialogue(old(shell)@, Feature::Autosuggest, line@),
{
    exec_btshctl_feature(Feature::Autosuggest, line, shell)
}

/// What is asked before a file is deleted.
pub fn clear_question(path: &str) -> (r: String)
    ensures
        r@ == "    ! delete "@ + path@ + "? [y/n] "@,
{
    let mut s = two("    ! delete ", path);
    s.append("? [y/n] ");
    s
}

/// What is said once it is clear whether to delete the file, and whether to.
pub open spec fn clearing(byte: u8) -> Option<(bool, Seq<char>)> {
    match correct::answer_of(byte) {
        Answer::Yes => Some((true, "\n    ! cleared\n"@)),
        Answer::No => Some((false, "\n    ! cancelled\n"@)),
        Answer::Unclear => None,
    }
}

/// Whether a key, by its byte, makes clear whether to delete a file.
pub fn clear_answer(byte: u8) -> (r: Option<(bool, String)>)
    ensures
        match r {
            Some((yes, m)) => clearing(byte) == Some((yes, m@)),
            None => clearing(byte) is None,
        },
{
    match read_answer(byte) {
        Answer::Yes => Some((true, owned("\n    ! cleared\n"))),
        Answer::No => Some((false, owned("\n    ! cancelled\n"))),
        Answer::Unclear => None,
    }
}

// ---------------------------------------------------------------------------
// The command itself
// ---------------------------------------------------------------------------

/// What the arguments ask for.
pub enum ControlPlan {
    /// This is shown or said, and nothing else is done.
    Tell(Outcome),
    /// The features that the other arguments name are switched on or off.
    Switch(bool),
    /// The state of a feature is shown.
    Status,
    /// A dialogue about a feature is begun.
    Dialogue(Feature),
    /// A shell without history and settings is run.
    Fresh,
}

pub enum ControlPlanV {
    Tell(OutcomeV),
    Switch(bool),
    Status,
    Dialogue(Feature),
    Fresh,
}

impl View for ControlPlan {
    type V = ControlPlanV;

    open spec fn view(&self) -> ControlPlanV {
        match *self {
            ControlPlan::Tell(o) => ControlPlanV::Tell(o@),
            ControlPlan::Switch(on) => ControlPlanV::Switch(on),
            ControlPlan::Status => ControlPlanV::Status,
            ControlPlan::Dialogue(f) => ControlPlanV::Dialogue(f),
            ControlPlan::Fresh => ControlPlanV::Fresh,
        }
    }
}

/// The picture that the command shows without arguments.
pub open spec fn banner(version: Seq<char>) -> Seq<char> {
    "  @@@@@@@@@@@@@@@@@@\n @                  @@@@\n @    $btsh"@ + version
        + "         @\n @                       @@\n @                      @\n  @@@@@@@@@@@@@@@@@@@@@@\n"@
}

/// The overview of the command.
pub open spec fn overview(version: Seq<char>) -> Seq<char> {
    "btsh version "@ + version
        + "\nUsage: btshctl (command) {argument}\nCommands:\n┝ --help # prints this\n┝ --fresh # opens a shell that doesn't read your command history or config file \n┝ enable + argument # enables that feature\n┝ disable + argument # disables that feature\n┝ featurename # opens a sub-shell to configure that feature\n┕ status + argument # shows status of a command\nFeatures:\n┝ logging, off by default, logs commands for debugging(at /tmp/btsh_debug.log)\n┝ auto-suggestion, on by default, suggest command or path completions\n┝ history, on by default, saves commands to history\n┕ shit, on by default, if launched it tries to correct the last command\n"@
}

/// What the arguments, with the name of the command in front, ask for.
pub open spec fn control_plan(args: Seq<Seq<char>>, version: Seq<char>) -> ControlPlanV {
    if args.len() <= 1 {
        ControlPlanV::Tell(said(banner(version), None))
    } else if args[1] == "enable"@ {
        ControlPlanV::Switch(true)
    } else if args[1] == "disable"@ {
        ControlPlanV::Switch(false)
    } else if args[1] == "status"@ {
        ControlPlanV::Status
    } else if args[1] == "logging"@ {
        ControlPlanV::Dialogue(Feature::Logging)
    } else if args[1] == "shit"@ {
        ControlPlanV::Dialogue(Feature::Shit)
    } else if args[1] == "history"@ {
        ControlPlanV::Dialogue(Feature::History)
    } else if args[1] == "auto-suggestion"@ {
        ControlPlanV::Dialogue(Feature::Autosuggest)
    } else if args[1] == "--fresh"@ {
        ControlPlanV::Fresh
    } else if args[1] == "--help"@ {
        ControlPlanV::Tell(said(overview(version), None))
    } else {
        ControlPlanV::Tell(
            refused("btsh: btshctl: unknown subcommand: "@ + args[1] + "\n"@),
        )
    }
}

pub fn exec_btshctl_help(version: &str) -> (r: String)
    ensures
        r@ == overview(version@),
{
    let mut s = two("btsh version ", version);
    s.append(
        "\nUsage: btshctl (command) {argument}\nCommands:\n┝ --help # prints this\n┝ --fresh # opens a shell that doesn't read your command history or config file \n┝ enable + argument # enables that feature\n┝ disable + argument # disables that feature\n┝ featurename # opens a sub-shell to configure that feature\n┕ status + argument # shows status of a command\nFeatures:\n┝ logging, off by default, logs commands for debugging(at /tmp/btsh_debug.log)\n┝ auto-suggestion, on by default, suggest command or path completions\n┝ history, on by default, saves commands to history\n┕ shit, on by default, if launched it tries to correct the last command\n",
    );
    s
}

fn show_banner(version: &str) -> (r: String)
    ensures
        r@ == banner(version@),
{
    let mut s = two(
        "  @@@@@@@@@@@@@@@@@@\n @                  @@@@\n @    $btsh",
        version,
    );
    s.append(
        "         @\n @                       @@\n @                      @\n  @@@@@@@@@@@@@@@@@@@@@@\n",
    );
    s
}

/// What the arguments, with the name of the command in front, ask for.
pub fn exec_builtin_btshctl(args: &Vec<String>, version: &str) -> (r: ControlPlan)
    ensures
        r@ == control_plan(text::texts(args@), version@),
{
    assert(text::texts(args@).len() == args.len());
    if args.len() <= 1 {
        return ControlPlan::Tell(say(show_banner(version), None));
    }
    let sub = args[1].as_str();
    assert(text::texts(args@)[1] == sub@);
    if same(sub, "enable") {
        ControlPlan::Switch(true)
    } else if same(sub, "disable") {
        ControlPlan::Switch(false)
    } else if same(sub, "status") {
        ControlPlan::Status
    } else if same(sub, "logging") {
        ControlPlan::Dialogue(Feature::Logging)
    } else if same(sub, "shit") {
        ControlPlan::Dialogue(Feature::Shit)
    } else if same(sub, "history") {
        ControlPlan::Dialogue(Feature::History)
    } else if same(sub, "auto-suggestion") {
        ControlPlan::Dialogue(Feature::Autosuggest)
    } else if same(sub, "--fresh") {
        ControlPlan::Fresh
    } else if same(sub, "--help") {
        ControlPlan::Tell(say(exec_btshctl_help(version), None))
    } else {
        let mut s = two("btsh: btshctl: unknown subcommand: ", sub);
        s.append("\n");
        ControlPlan::Tell(refuse(s))
    }
}

/// What is said where a dialogue is asked for without a terminal.
pub fn interactive_only(name: &str) -> (r: Outcome)
    ensures
        r@ == refused("btsh: btshctl: "@ + name@ + ": interactive-only command\n"@),
{
    let mut s = two("btsh: btshctl: ", name);
    s.append(": interactive-only command\n");
    refuse(s)
}

/// The switch in the settings for a feature.
pub open spec fn switch_of(f: Feature) -> Switch {
    match f {
        Feature::Logging => Switch::Logging,
        Feature::Shit => Switch::Shit,
        Feature::History => Switch::History,
        Feature::Autosuggest => Switch::Autosuggest,
    }
}

/// What a settings file with this content is to hold so that the state of the
/// feature is kept in it.
pub fn persist_feature(content: &str, f: Feature, on: bool) -> (r: String)
    ensures
        r@ == config::with_switch(content@, settings::key_of(switch_of(f)), on),
{
    match f {
        Feature::Logging => config::persist_logging_to_config(content, on),
        Feature::Shit => config::persist_shit_to_config(content, on),
        Feature::History => config::persist_history_to_config(content, on),
        Feature::Autosuggest => config::persist_autosuggest_to_config(content, on),
    }
}

// ---------------------------------------------------------------------------
// What holds of all features
// ---------------------------------------------------------------------------

/// A feature that is switched on or off is on or off, and nothing else about
/// the shell changes: switching back leaves it as it was.
pub proof fn law_switching(s: ShellV, f: Feature, on: bool)
    ensures
        feature_on(with_feature(s, f, on), f) == on,
        forall|g: Feature| g != f ==> #[trigger] feature_on(with_feature(s, f, on), g)
            == feature_on(s, g),
        with_feature(with_feature(s, f, on), f, feature_on(s, f)) == s,
{
}

/// What is said of the state of a feature tells whether it is on.
pub proof fn law_status_tells_state(f: Feature)
    ensures
        state_text(f, true) != state_text(f, false),
{
    reveal_strlit("enabled");
    reveal_strlit("disabled (default)");
    reveal_strlit("enabled (default)");
    reveal_strlit("disabled");
    let a = state_text(f, true);
    let b = state_text(f, false);
    assert(a.len() != b.len());
}

} // verus!
