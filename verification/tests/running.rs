use btsh::builtins::{
    code_of_call, complain, config_file, delete_path, exec_builtin, exec_builtin_alias,
    exec_builtin_rm, exec_builtin_source, exec_builtin_unalias, expand_tilde_cd, extended_path,
    history_file, home_expanded, is_builtin, rm_confirmed, rm_step, source_code, source_file,
    timeout_refusal, type_code, type_report, AliasEvent, Call, Deletion, RmStep, DONE,
};
use btsh::exec::{
    apply_redirects, command_places, command_word, duration_parts, enters_history,
    exec_builtin_timeout, exec_builtin_with_redirects, exec_line, exec_node, exec_pipeline,
    exec_pipeline_simple, exec_redirect_only, exec_simple, failed_check, find_in_path, last_code,
    line_exit, log_command, resolve_command, stage_failure_code, start_of, DescriptorAction,
    FileCheck, Limit, LinePlan, PipelinePlan, RedirectAction, Request, Stage, StageFailure, Start,
    Waited, Way, INTERRUPTED, REFUSED,
};
use btsh::parser::{Node, Redirect, RedirectKind, Simple};
use btsh::process::{
    builtin_step, exec_external, pipeline_step, redirect_only_step, redirect_step, start_builtin,
    start_command, start_redirect_only, start_redirects, BuiltinPhase, PipelinePhase, ProgramPhase,
    RedirectOnlyPhase, RedirectPhase, Reply,
};
use btsh::shell::{clone_shell, exit_status_code, reap_background, Shell, StringMap, WaitReply};

fn shell() -> Shell {
    Shell::new(None, false)
}

fn strings(v: &[&str]) -> Vec<String> {
    v.iter().map(|s| s.to_string()).collect()
}

fn simple(args: &[&str]) -> Simple {
    Simple { args: strings(args), redirects: vec![] }
}

fn redirect(fd: i32, kind: RedirectKind) -> Redirect {
    Redirect { fd, kind, target: String::new() }
}

fn nodes(line: &str) -> Vec<Node> {
    match exec_line(line, &shell()) {
        LinePlan::Run(ns) => ns,
        _ => panic!("nothing to run"),
    }
}

#[test]
fn lines_are_planned() {
    assert!(matches!(exec_line("  ", &shell()), LinePlan::Nothing));
    assert!(matches!(exec_line(" # comment", &shell()), LinePlan::Nothing));
    assert!(matches!(exec_line("'a", &shell()),
        LinePlan::Refuse(m) if m.starts_with("btsh: parse error: unterminated")));
    assert!(matches!(exec_line("a &&", &shell()), LinePlan::Refuse(m) if m.starts_with("btsh: ")));
    assert_eq!(nodes("a; b").len(), 2);
    let mut sh = shell();
    sh.aliases.insert("x", "a; b; c");
    assert!(matches!(exec_line("x", &sh), LinePlan::Run(ns) if ns.len() == 3));
}

#[test]
fn codes_of_lines() {
    assert_eq!(last_code(7, &vec![]), 7);
    assert_eq!(last_code(7, &vec![1, 2]), 2);
    let code = |line: &str, codes: Vec<i32>| line_exit(&exec_line(line, &shell()), 7, &codes);
    assert_eq!(code("", vec![]), 7);
    assert_eq!(code("# a", vec![]), 7);
    assert_eq!(code("'a", vec![]), 2);
    assert_eq!(code("a &&", vec![]), 2);
    assert_eq!(code("a; b", vec![1, 3]), 3);
    assert_eq!((REFUSED, INTERRUPTED), (2, 130));
}

fn done(node: &Node, replies: &[i32]) -> Option<i32> {
    match exec_node(node, &replies.to_vec()).request {
        Request::Done(c) => Some(c),
        _ => None,
    }
}

#[test]
fn single_commands_are_run() {
    let ns = nodes("a");
    assert!(matches!(exec_node(&ns[0], &vec![]).request, Request::Interrupted));
    assert!(matches!(exec_node(&ns[0], &vec![0]).request, Request::Run(Node::Simple(_, false))));
    assert_eq!(done(&ns[0], &[0, 5]), Some(5));
    assert_eq!(done(&ns[0], &[1]), Some(130));
}

#[test]
fn operators_stop_early() {
    let ns = nodes("a && b");
    assert_eq!(done(&ns[0], &[0, 0, 3]), Some(3));
    assert_eq!(exec_node(&ns[0], &vec![0, 0, 3]).last_exit, Some(3));
    assert_eq!(done(&ns[0], &[0, 0, 0, 0, 4]), Some(4));
    assert_eq!(exec_node(&ns[0], &vec![0, 0, 0]).last_exit, Some(0));
    let ns = nodes("a || b");
    assert_eq!(done(&ns[0], &[0, 0, 0]), Some(0));
    assert_eq!(done(&ns[0], &[0, 0, 3, 0, 4]), Some(4));
    assert_eq!(done(&ns[0], &[0, 0, 3]), None);
}

#[test]
fn ways_of_commands() {
    assert_eq!(exec_simple(&simple(&["cd"]), &shell()), Way::Builtin);
    assert_eq!(exec_simple(&simple(&["ls"]), &shell()), Way::External);
    let only = Simple { args: vec![], redirects: vec![redirect(1, RedirectKind::Out)] };
    assert_eq!(exec_simple(&only, &shell()), Way::RedirectOnly);
    assert_eq!(exec_pipeline_simple(&simple(&[]), &shell()), Way::RedirectOnly);
    let mut sh = shell();
    assert!(is_builtin("shit", &sh));
    sh.shit = false;
    assert!(!is_builtin("shit", &sh));
    assert_eq!(exec_simple(&simple(&["shit"]), &sh), Way::External);
}

#[test]
fn stages_are_connected() {
    let cmds = vec![simple(&["a"]), simple(&["echo"]), simple(&["b"])];
    match exec_pipeline(&cmds, &shell()) {
        PipelinePlan::Stages(v) => assert_eq!(
            v,
            vec![
                Stage { builtin: false, read_from: None, write_to: Some(0) },
                Stage { builtin: true, read_from: Some(0), write_to: Some(1) },
                Stage { builtin: false, read_from: Some(1), write_to: None },
            ]
        ),
        _ => panic!("no stages"),
    }
    assert!(matches!(exec_pipeline(&vec![], &shell()), PipelinePlan::Nothing(0)));
    assert!(matches!(exec_pipeline(&vec![simple(&["a"])], &shell()),
        PipelinePlan::Single(Way::External)));
    assert_eq!(stage_failure_code(StageFailure::NotFound), 127);
    assert_eq!(stage_failure_code(StageFailure::NotRun), 126);
    assert_eq!(stage_failure_code(StageFailure::NoProcess), 1);
}

#[test]
fn programs_are_found() {
    assert_eq!(command_places("ls", "/bin:/usr/bin/:"), vec!["/bin/ls", "/usr/bin/ls", "ls"]);
    assert_eq!(command_places("./x", "/bin"), vec!["./x"]);
    assert_eq!(find_in_path("ls", "/a:/b", &vec![false, true]), Some("/b/ls".to_string()));
    assert_eq!(find_in_path("ls", "/a:/b", &vec![false, false]), None);
    assert_eq!(resolve_command("ls", "/a:/b", &vec![true, true]), Ok("/a/ls".to_string()));
    assert_eq!(
        resolve_command("ls", "/a", &vec![false]),
        Err((127, "btsh: ls: command not found".to_string()))
    );
    assert_eq!(
        resolve_command("./x", "/a", &vec![false]),
        Err((127, "btsh: ./x: No such file".to_string()))
    );
    assert_eq!(command_word("$X", &strings(&["ls", "-l"])), "ls");
    assert_eq!(command_word("$X", &vec![]), "$X");
}

#[test]
fn redirects_of_programs() {
    let act = |fd, kind, target: &str| apply_redirects(&redirect(fd, kind), target);
    assert!(matches!(act(0, RedirectKind::In, "f"), RedirectAction::Input(t, 0) if t == "f"));
    assert!(matches!(act(4, RedirectKind::In, "f"), RedirectAction::Input(_, 4)));
    assert!(matches!(act(1, RedirectKind::Out, "f"), RedirectAction::Output(t, 1) if t == "f"));
    assert!(matches!(act(2, RedirectKind::Out, "f"), RedirectAction::Output(_, 2)));
    assert!(matches!(act(3, RedirectKind::Out, "f"), RedirectAction::Output(t, 3) if t == "f"));
    assert!(matches!(act(2, RedirectKind::Append, "f"), RedirectAction::Append(_, 2)));
    assert!(matches!(act(5, RedirectKind::Append, "f"), RedirectAction::Append(_, 5)));
    assert!(matches!(act(2, RedirectKind::DupOut, "1"), RedirectAction::Duplicate(1, 2)));
    assert!(matches!(act(2, RedirectKind::DupOut, "x"),
        RedirectAction::Refuse(m) if m == "btsh: x: invalid file descriptor"));
    assert!(matches!(act(0, RedirectKind::DupIn, "-1"), RedirectAction::Refuse(_)));
    assert!(matches!(act(1, RedirectKind::Close, ""), RedirectAction::Discard(1)));
    assert!(matches!(act(5, RedirectKind::Close, ""), RedirectAction::Ignore));
}

#[test]
fn redirects_of_the_shell() {
    let act = |fd, kind, target: &str| exec_builtin_with_redirects(&redirect(fd, kind), target);
    assert!(matches!(act(0, RedirectKind::In, "f"), DescriptorAction::Read(t, 0) if t == "f"));
    assert!(matches!(act(1, RedirectKind::Out, "f"), DescriptorAction::Write(_, 1)));
    assert!(matches!(act(2, RedirectKind::Append, "f"), DescriptorAction::Append(_, 2)));
    assert!(matches!(act(2, RedirectKind::DupOut, "1"), DescriptorAction::Duplicate(1, 2)));
    assert!(matches!(act(7, RedirectKind::Close, ""), DescriptorAction::Close(7)));
    assert!(matches!(act(2, RedirectKind::DupIn, "q"), DescriptorAction::Refuse(_)));
}

#[test]
fn redirects_alone() {
    let act = |kind| exec_redirect_only(&redirect(1, kind), "f");
    assert!(matches!(act(RedirectKind::In), FileCheck::Read(m) if m == "btsh: f: No such file"));
    assert!(matches!(act(RedirectKind::Out), FileCheck::Create(m) if m == "btsh: f: cannot create"));
    assert!(matches!(act(RedirectKind::Append), FileCheck::Append(m) if m == "btsh: f: cannot create"));
    assert!(matches!(act(RedirectKind::Close), FileCheck::Nothing));
    assert_eq!(failed_check(act(RedirectKind::Append), true), None);
    assert_eq!(failed_check(act(RedirectKind::In), false), Some("btsh: f: No such file".to_string()));
    assert_eq!(failed_check(act(RedirectKind::DupOut), false), None);
}

#[test]
fn codes_of_redirects_alone() {
    assert_eq!(start_redirect_only(0), RedirectOnlyPhase::Over(0));
    assert_eq!(start_redirect_only(1), RedirectOnlyPhase::Check(0));
    assert_eq!(redirect_only_step(0, 1, true), RedirectOnlyPhase::Over(0));
    assert_eq!(redirect_only_step(0, 3, true), RedirectOnlyPhase::Check(1));
    assert_eq!(redirect_only_step(1, 3, false), RedirectOnlyPhase::Over(1));
    assert_eq!(redirect_only_step(2, 3, true), RedirectOnlyPhase::Over(0));
}

#[test]
fn redirects_of_programs_are_walked() {
    assert_eq!(start_redirects(0), RedirectPhase::Over);
    assert_eq!(start_redirects(2), RedirectPhase::Make(0));
    assert_eq!(redirect_step(0, 2, true), RedirectPhase::Make(1));
    assert_eq!(redirect_step(0, 2, false), RedirectPhase::Over);
    assert_eq!(redirect_step(1, 2, true), RedirectPhase::Over);
}

#[test]
fn time_limits() {
    assert_eq!(exec_builtin_timeout(false, Waited::Ended(3)), Limit::Over(3));
    assert_eq!(exec_builtin_timeout(true, Waited::Ended(3)), Limit::Over(124));
    assert_eq!(exec_builtin_timeout(false, Waited::Failed), Limit::Over(1));
    assert_eq!(exec_builtin_timeout(true, Waited::Failed), Limit::Over(124));
    assert_eq!(exec_builtin_timeout(false, Waited::Running(false)), Limit::Wait(20));
    assert_eq!(exec_builtin_timeout(false, Waited::Running(true)), Limit::AskToStop(500));
    assert_eq!(exec_builtin_timeout(true, Waited::Running(true)), Limit::Stop(124));
    assert_eq!(exec_builtin_timeout(true, Waited::Running(false)), Limit::Wait(20));
    assert_eq!(duration_parts("1.5m"), Some(("1.5".to_string(), 60)));
    assert_eq!(duration_parts("2"), Some(("2".to_string(), 1)));
    assert_eq!(duration_parts("3h"), Some(("3".to_string(), 3600)));
    assert_eq!(duration_parts("1d"), Some(("1".to_string(), 86400)));
    assert_eq!(duration_parts("4s"), Some(("4".to_string(), 1)));
    assert_eq!(duration_parts("4x"), None);
    assert_eq!(duration_parts(""), None);
    let usage = "btsh: timeout: usage: timeout DURATION COMMAND [ARGS...]\n".to_string();
    assert_eq!(timeout_refusal(&strings(&["timeout", "1"]), true), Some((2, usage)));
    let invalid = "btsh: timeout: invalid duration: x\n".to_string();
    assert_eq!(timeout_refusal(&strings(&["timeout", "x", "ls"]), false), Some((2, invalid)));
    assert_eq!(timeout_refusal(&strings(&["timeout", "1", "ls"]), true), None);
    assert_eq!(
        exec_external(ProgramPhase::Start, Reply::Failed(StageFailure::NotRun)),
        ProgramPhase::Restore(126)
    );
}

#[test]
fn starting_and_logging() {
    assert!(matches!(start_of(&strings(&["btsh", "-c", "ls"])), Start::Command(c) if c == "ls"));
    assert!(matches!(start_of(&strings(&["btsh", "-c"])), Start::Session(false)));
    assert!(matches!(start_of(&strings(&["btsh", "--fresh"])), Start::Session(true)));
    let mut sh = shell();
    assert_eq!(log_command(&sh, "ls"), None);
    sh.logging = true;
    assert_eq!(log_command(&sh, "ls"), Some("ls\n".to_string()));
    assert!(enters_history("ls", &sh));
    assert!(!enters_history("# ls", &sh));
    sh.history = false;
    assert!(!enters_history("ls", &sh));
}

#[test]
fn shells_are_copied() {
    let mut sh = Shell::new(Some("/c".to_string()), true);
    sh.vars.insert("a", "1");
    sh.running_bg.push(5);
    sh.remember("one");
    sh.remember("two");
    let copy = clone_shell(&sh);
    assert_eq!(copy.vars.get("a"), Some("1".to_string()));
    assert_eq!(copy.running_bg, vec![5]);
    assert_eq!((copy.prev_cmd.as_str(), copy.last_cmd.as_str()), ("one", "two"));
    assert_eq!(copy.config_path, Some("/c".to_string()));
    assert!(copy.fresh);
}

#[test]
fn maps_hold_one_value_for_a_name() {
    let mut m = StringMap::new();
    m.insert("b", "1");
    m.insert("a", "2");
    m.insert("b", "3");
    assert_eq!(m.get("b"), Some("3".to_string()));
    assert_eq!(m.sorted_names(), vec!["a", "b"]);
    assert!(m.remove("b"));
    assert!(!m.remove("b"));
    assert!(!m.contains("b"));
    m.clear();
    assert_eq!(m.get("a"), None);
}

#[test]
fn background_jobs() {
    let mut sh = shell();
    assert_eq!(sh.started_background(100), ("[1] 100".to_string(), 0));
    assert_eq!(sh.started_background(200), ("[2] 200".to_string(), 0));
    assert_eq!(sh.last_bg_pid, Some(200));
    let replies = vec![
        WaitReply { pid: 100, status: 0x0100 },
        WaitReply { pid: 0, status: 0 },
    ];
    reap_background(&mut sh, &replies);
    assert_eq!(sh.running_bg, vec![200]);
    reap_background(&mut sh, &vec![WaitReply { pid: 200, status: 0x137f }]);
    assert_eq!(sh.running_bg, vec![200]);
    reap_background(&mut sh, &vec![WaitReply { pid: 200, status: 9 }]);
    assert!(sh.running_bg.is_empty());
}

#[test]
fn exit_codes() {
    assert_eq!(exit_status_code(Some(3), None), 3);
    assert_eq!(exit_status_code(None, Some(9)), 137);
    assert_eq!(exit_status_code(None, None), 1);
}

fn call(args: &[&str]) -> Call {
    let mut sh = shell();
    sh.last_exit = 6;
    exec_builtin(&strings(args), &sh)
}

#[test]
fn builtins_are_told_apart() {
    assert!(matches!(call(&["exit"]), Call::Exit(6)));
    assert!(matches!(call(&["exit", "4"]), Call::Exit(4)));
    assert!(matches!(call(&["exit", "x"]), Call::Exit(6)));
    assert!(matches!(call(&["cd"]), Call::ChangeDir(d) if d == "~"));
    assert!(matches!(call(&["cd", "-"]), Call::ChangeBack));
    assert!(matches!(call(&["cd", "x"]), Call::ChangeDir(d) if d == "x"));
    assert!(matches!(call(&["echo", "a", "b"]), Call::Echo(s) if s == "a b\n"));
    assert!(matches!(call(&["echo"]), Call::Echo(s) if s == "\n"));
    assert!(matches!(call(&["type", "a"]), Call::Type(v) if v == vec!["a"]));
    assert!(matches!(call(&["export", "A=1", "B", "C=x=y"]), Call::Export(v)
        if v == vec![("A".to_string(), "1".to_string()), ("C".to_string(), "x=y".to_string())]));
    assert!(matches!(call(&["pwd"]), Call::PrintDir));
    assert!(matches!(call(&["."]), Call::Source));
    assert!(matches!(call(&["path", "/x"]), Call::AddPath(v) if v == vec!["/x"]));
    assert!(matches!(call(&["true"]), Call::Code(0)));
    assert!(matches!(call(&["false"]), Call::Code(1)));
    assert!(matches!(call(&["timeout"]), Call::Timeout));
    assert!(matches!(call(&["shit"]), Call::Shit));
    assert!(matches!(call(&["btshctl"]), Call::Control));
    assert!(matches!(call(&["rm"]), Call::Remove));
    assert!(matches!(call(&["alias"]), Call::Alias));
    assert!(matches!(call(&["unalias"]), Call::Unalias));
}

#[test]
fn directories_of_commands() {
    let home = Some("/h".to_string());
    assert_eq!(expand_tilde_cd("~", &home), "/h");
    assert_eq!(expand_tilde_cd("~/x", &home), "/h/x");
    assert_eq!(expand_tilde_cd("~x", &home), "~x");
    assert_eq!(expand_tilde_cd("~", &None), ".");
    assert_eq!(home_expanded("~/bin", "/h"), "/h/bin");
    assert_eq!(home_expanded("/bin", "/h"), "/bin");
    assert_eq!(extended_path("/a", "/b", false), Some("/a:/b".to_string()));
    assert_eq!(extended_path("", "/b", false), Some("/b".to_string()));
    assert_eq!(extended_path("/a", "/a", true), None);
    assert_eq!(command_places("x", &extended_path("/a", "/b", false).unwrap()), vec!["/a/x", "/b/x"]);
    assert_eq!(config_file("/h"), "/h/.config/btsh/config");
    assert_eq!(history_file(&home), "/h/.local/share/btsh/history.txt");
    assert_eq!(history_file(&None), "/dev/null");
}

#[test]
fn types_are_shown() {
    let sh = shell();
    assert_eq!(type_report("cd", &sh, &None), ("cd is a shell builtin\n".to_string(), true));
    assert_eq!(
        type_report("ls", &sh, &Some("/bin/ls".to_string())),
        ("ls is /bin/ls\n".to_string(), true)
    );
    assert_eq!(type_report("zz", &sh, &None), ("btsh: type: zz: not found\n".to_string(), false));
    assert_eq!(type_code(&vec![]), 0);
    assert_eq!(type_code(&vec![true, true]), 0);
    assert_eq!(type_code(&vec![true, false, true]), 1);
}

#[test]
fn codes_of_calls() {
    let sh = shell();
    let code = |args: &[&str]| code_of_call(&exec_builtin(&strings(args), &sh));
    assert_eq!(code(&["echo", "a"]), Some(0));
    assert_eq!(code(&["export", "A=b"]), Some(0));
    assert_eq!(code(&["add_path", "/x"]), Some(0));
    assert_eq!(code(&["true"]), Some(0));
    assert_eq!(code(&["false"]), Some(1));
    assert_eq!(code(&["cd"]), None);
    assert_eq!(DONE, 0);
    assert_eq!(
        complain("cd", None, "OLDPWD not set"),
        (1, "btsh: cd: OLDPWD not set\n".to_string())
    );
    assert_eq!(
        complain("source", Some("f"), "gone"),
        (1, "btsh: source: f: gone\n".to_string())
    );
}

#[test]
fn aliases_are_set_and_shown() {
    let mut sh = shell();
    let (es, code) = exec_builtin_alias(&strings(&["alias", "ll=ls -l", "ll", "zz"]), &mut sh);
    assert!(matches!(&es[0], AliasEvent::Keep(n, v) if n == "ll" && v == "ls -l"));
    assert!(matches!(&es[1], AliasEvent::Show(s) if s == "alias ll='ls -l'\n"));
    assert!(matches!(&es[2], AliasEvent::Missing(s) if s == "btsh: alias: zz: not found\n"));
    assert_eq!(code, 0);
    exec_builtin_alias(&strings(&["alias", "a=b"]), &mut sh);
    let (all, code) = exec_builtin_alias(&strings(&["alias"]), &mut sh);
    assert!(matches!(&all[0], AliasEvent::Show(s) if s == "alias a=b\n"));
    assert!(matches!(&all[1], AliasEvent::Show(s) if s == "alias ll='ls -l'\n"));
    assert_eq!((all.len(), code), (2, 0));
}

#[test]
fn aliases_are_taken_away() {
    let mut sh = shell();
    exec_builtin_alias(&strings(&["alias", "a=1", "b=2", "c=3"]), &mut sh);
    let (es, code) = exec_builtin_unalias(&strings(&["unalias", "a", "z"]), &mut sh);
    assert!(matches!(&es[0], AliasEvent::Forget(n) if n == "a"));
    assert!(matches!(&es[1], AliasEvent::Missing(s) if s == "btsh: unalias: z: not found\n"));
    assert_eq!(code, 1);
    assert!(!sh.aliases.contains("a"));
    let (es, code) = exec_builtin_unalias(&strings(&["unalias", "z", "-a", "y"]), &mut sh);
    assert!(matches!(&es[1], AliasEvent::ForgetAll));
    assert_eq!((es.len(), code), (2, 0));
    assert!(sh.aliases.sorted_names().is_empty());
}

#[test]
fn removal_is_planned() {
    let (p, code) = exec_builtin_rm(&strings(&["rm", "-rf", "a", "-", "--", "-b"]));
    let p = p.unwrap();
    assert_eq!(code, 0);
    assert!(p.force && p.recursive);
    assert_eq!(p.files, vec!["a", "-", "-b"]);
    let p = exec_builtin_rm(&strings(&["rm", "a", "-R"])).0.unwrap();
    assert!(!p.force && p.recursive);
    let (p, code) = exec_builtin_rm(&strings(&["rm", "-f"]));
    assert_eq!((p.err(), code), (Some("btsh: rm: missing operand\n".to_string()), 1));
}

#[test]
fn removal_is_asked_for() {
    assert!(matches!(rm_step(true, "f", false, false, true), RmStep::Remove));
    assert!(matches!(rm_step(false, "f", false, false, true),
        RmStep::Missing(m) if m == "btsh: rm: f: No such file\n"));
    assert!(matches!(rm_step(false, "f", true, true, true),
        RmStep::Ask(q) if q == "btsh: rm: remove directory 'f'? [y/n] "));
    assert!(matches!(rm_step(false, "f", true, false, true),
        RmStep::Ask(q) if q == "btsh: rm: remove regular file 'f'? [y/n] "));
    assert!(matches!(rm_step(false, "f", true, false, false), RmStep::Remove));
    assert_eq!(rm_confirmed(Some(b'y')), (true, "\n".to_string()));
    assert_eq!(rm_confirmed(Some(b'q')), (false, "  skipped\n".to_string()));
    assert_eq!(rm_confirmed(None), (true, "".to_string()));
    assert!(matches!(delete_path("d", true, true), Deletion::Tree));
    assert!(matches!(delete_path("d", false, true), Deletion::File));
    assert!(matches!(delete_path("d", true, false),
        Deletion::Refuse(m) if m == "btsh: rm: d: is a directory\n"));
}

#[test]
fn sourced_lines() {
    assert_eq!(
        exec_builtin_source("a\n\n# c\nprompt {\n echo x\n}\n  b\n}\n"),
        vec!["a", "  b", "}"]
    );
    let home = Some("/h".to_string());
    assert_eq!(source_file(&strings(&["source", "f"]), &home), Ok("f".to_string()));
    assert_eq!(source_file(&strings(&["source", "-d"]), &home),
        Ok("/h/.config/btsh/config".to_string()));
    assert_eq!(source_file(&strings(&["source", "--default"]), &None),
        Err((1, "btsh: source: HOME not set\n".to_string())));
    assert_eq!(source_file(&strings(&["source"]), &home),
        Err((1, "btsh: source: missing filename\n".to_string())));
    assert_eq!(source_code(&vec![]), 0);
    assert_eq!(source_code(&vec![1, 0, 5]), 5);
}

fn phases(n: usize, replies: &[Reply]) -> Vec<PipelinePhase> {
    let mut seen = vec![PipelinePhase::MakePipe(0)];
    for r in replies {
        let last = *seen.last().unwrap();
        seen.push(pipeline_step(last, n, *r));
    }
    seen
}

#[test]
fn pipelines_run_in_order() {
    let d = Reply::Done;
    assert_eq!(
        phases(2, &[d, d, d, d, d, Reply::Code(3), Reply::Code(4), d, d]),
        vec![
            PipelinePhase::MakePipe(0),
            PipelinePhase::Prepare,
            PipelinePhase::Start(0),
            PipelinePhase::Start(1),
            PipelinePhase::Close(None),
            PipelinePhase::Wait(0),
            PipelinePhase::Wait(1),
            PipelinePhase::Restore(4),
            PipelinePhase::Over(4),
            PipelinePhase::Over(4),
        ]
    );
}

#[test]
fn failed_stages_end_pipelines() {
    let d = Reply::Done;
    assert_eq!(
        phases(3, &[d, d, d, d, Reply::Failed(StageFailure::NotFound), d, d]),
        vec![
            PipelinePhase::MakePipe(0),
            PipelinePhase::MakePipe(1),
            PipelinePhase::Prepare,
            PipelinePhase::Start(0),
            PipelinePhase::Start(1),
            PipelinePhase::Close(Some(127)),
            PipelinePhase::Restore(127),
            PipelinePhase::Over(127),
        ]
    );
}

#[test]
fn programs_give_the_terminal_back() {
    let mut p = ProgramPhase::Find;
    for r in [Reply::Done, Reply::Done, Reply::Done, Reply::Done, Reply::Code(7)] {
        p = exec_external(p, r);
    }
    assert_eq!(p, ProgramPhase::Restore(7));
    assert_eq!(exec_external(p, Reply::Done), ProgramPhase::Over(7));
    assert_eq!(exec_external(ProgramPhase::Find, Reply::Code(127)), ProgramPhase::Over(127));
    assert_eq!(
        exec_external(ProgramPhase::Start, Reply::Failed(StageFailure::NotRun)),
        ProgramPhase::Restore(126)
    );
}

#[test]
fn builtins_are_run_behind_their_redirects() {
    assert_eq!(start_builtin(0), BuiltinPhase::Run);
    assert_eq!(builtin_step(BuiltinPhase::Run, 0, Reply::Code(2)), BuiltinPhase::Over(2));
    assert_eq!(start_builtin(2), BuiltinPhase::Save);
    let mut p = start_builtin(2);
    for want in [BuiltinPhase::Redirect(0), BuiltinPhase::Redirect(1), BuiltinPhase::Run] {
        p = builtin_step(p, 2, Reply::Done);
        assert_eq!(p, want);
    }
    assert_eq!(builtin_step(p, 2, Reply::Code(5)), BuiltinPhase::Restore(5));
    assert_eq!(
        builtin_step(BuiltinPhase::Redirect(0), 2, Reply::Failed(StageFailure::NotRun)),
        BuiltinPhase::Over(1)
    );
}

#[test]
fn redirects_are_made_in_a_process_of_its_own() {
    let mut c = simple(&["echo", "hi"]);
    assert_eq!(exec_pipeline_simple(&c, &shell()), Way::Builtin);
    assert_eq!(start_command(&c), BuiltinPhase::Run);
    c.redirects.push(redirect(1, RedirectKind::Out));
    assert_eq!(start_command(&c), BuiltinPhase::Save);
    assert_eq!(
        builtin_step(start_command(&c), c.redirects.len(), Reply::Done),
        BuiltinPhase::Redirect(0)
    );
}
