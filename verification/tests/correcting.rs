use btsh::correct::{
    ask_with, command_not_found, correction, correction_code, correction_question, dir_to_make,
    exec_builtin_shit, fix_with_cp_tree, fix_with_ls, fix_with_mkdir, fix_with_rm_tree,
    fix_with_sudo, get_close_matches, git_mistake, kept_correction, levenshtein, no_correction,
    read_answer, read_wish,
    shit_rule_cat_dir, shit_rule_cd_mkdir, shit_rule_command_not_found, shit_rule_common_typos,
    shit_rule_cp_omitting_directory, shit_rule_fix_alt_space, shit_rule_git_not_command,
    shit_rule_rm_dir, shit_rule_sudo, Answer, ShitCommand, ShitPlan,
};
use btsh::numbers::{
    i128_to_string, pad, parse_i128, parse_i32, parse_i64, parse_usize, u64_to_string,
    usize_to_string,
};
use btsh::shell::Shell;
use btsh::text::{join, lines, split_on, split_once, strip_prefix, trim, words};

fn sh() -> Shell {
    Shell::new(None, false)
}

fn cmd(script: &str, output: &str) -> ShitCommand {
    ShitCommand { script: script.to_string(), output: output.to_string() }
}

fn strings(v: &[&str]) -> Vec<String> {
    v.iter().map(|s| s.to_string()).collect()
}

#[test]
fn distances() {
    assert_eq!(levenshtein("kitten", "sitting"), 3);
    assert_eq!(levenshtein("", "abc"), 3);
    assert_eq!(levenshtein("abc", ""), 3);
    assert_eq!(levenshtein("same", "same"), 0);
    assert_eq!(levenshtein("gti", "git"), 2);
    assert_eq!(levenshtein("sitting", "kitten"), levenshtein("kitten", "sitting"));
    assert!(levenshtein("abc", "xyz") <= levenshtein("abc", "abz") + levenshtein("abz", "xyz"));
    assert_eq!(levenshtein("abc", "abcdef"), 3);
}

#[test]
fn best_matches() {
    let ps = strings(&["a", "b", "c", "d", "e"]);
    assert_eq!(get_close_matches(&ps, &vec![5, 9, 9, 1, 7], 2), vec!["b", "c", "e"]);
    assert_eq!(get_close_matches(&ps, &vec![5, 9, 1, 1, 1], 5), vec!["b", "a"]);
    assert!(get_close_matches(&ps, &vec![0, 0, 0, 0, 0], 1).is_empty());
}

#[test]
fn odd_spaces_are_mended() {
    assert_eq!(shit_rule_fix_alt_space(&cmd("ls\u{a0}-l", ""), &sh()), Some("ls -l".to_string()));
    assert_eq!(shit_rule_fix_alt_space(&cmd("ls -l", ""), &sh()), None);
}

#[test]
fn typos_are_mended() {
    let fix = |s: &str| shit_rule_common_typos(&cmd(s, ""), &sh());
    assert_eq!(fix("sl -l"), Some("ls -l".to_string()));
    assert_eq!(fix("dc x"), Some("cd x".to_string()));
    assert_eq!(fix("pythno3 a.py"), Some("python3 a.py".to_string()));
    assert_eq!(fix("  gi status"), Some("  git status".to_string()));
    assert_eq!(fix("k8s get"), Some("kubectl get".to_string()));
    assert_eq!(fix("dokcer-compose up"), Some("docker-compose up".to_string()));
    assert_eq!(fix("mv a b"), None);
    assert_eq!(fix("node x"), None);
    assert_eq!(fix(""), None);
}

#[test]
fn missing_rights_are_mended() {
    let c = cmd("apt install x", "E: Permission denied");
    assert_eq!(shit_rule_sudo(&c, &sh()), Some("sudo apt install x".to_string()));
    assert_eq!(shit_rule_sudo(&cmd("sudo x", "permission denied"), &sh()), None);
    assert_eq!(shit_rule_sudo(&cmd("x", "fine"), &sh()), None);
    assert_eq!(fix_with_sudo("x", "you must be root"), Some("sudo x".to_string()));
    assert_eq!(fix_with_sudo("x", "Permission Denied"), None);
}

#[test]
fn missing_directories_are_made() {
    let c = cmd("cd some/dir", "sh: cd: No Such File or directory");
    assert_eq!(shit_rule_cd_mkdir(&c, &sh()), Some("mkdir -p some/dir && cd some/dir".to_string()));
    assert_eq!(shit_rule_cd_mkdir(&cmd("cd  ", "does not exist"), &sh()), None);
    assert_eq!(shit_rule_cd_mkdir(&cmd("ls x", "does not exist"), &sh()), None);
    assert_eq!(fix_with_mkdir("cd d", "can't cd to d"), Some("mkdir -p d && cd d".to_string()));
    assert_eq!(dir_to_make("cd d ", "can't cd to d"), Some("d".to_string()));
}

#[test]
fn unknown_commands_are_mended() {
    let c = cmd("gerp x gerp", "sh: gerp: command not found");
    assert_eq!(command_not_found(&c), Some("gerp".to_string()));
    assert_eq!(
        shit_rule_command_not_found(&c, &sh(), &strings(&["grep", "perl"])),
        Some("grep x gerp".to_string())
    );
    assert_eq!(shit_rule_command_not_found(&c, &sh(), &vec![]), None);
    assert_eq!(command_not_found(&cmd("x", "ok")), None);
    assert_eq!(command_not_found(&cmd(" ", "command not found")), None);
}

#[test]
fn directories_are_not_files() {
    let c = cmd("cat src", "cat: src: Is a directory");
    assert_eq!(shit_rule_cat_dir(&c, &sh()), Some("ls src".to_string()));
    assert_eq!(fix_with_ls("cat x", "is a directory"), None);
    let c = cmd("rm src", "rm: cannot remove 'src': Is a directory");
    assert_eq!(shit_rule_rm_dir(&c, &sh()), Some("rm -rf src".to_string()));
    assert_eq!(fix_with_rm_tree("rm -r src", "is a directory"), None);
    let c = cmd("cp a b", "cp: -r not specified; Omitting directory 'a'");
    assert_eq!(shit_rule_cp_omitting_directory(&c, &sh()), Some("cp -r a b".to_string()));
    assert_eq!(fix_with_cp_tree("cp -r a b", "is a directory"), None);
}

#[test]
fn git_mistakes_are_mended() {
    let out = "git: 'comit' is not a git command. See 'git --help'.\n\nThe most similar command is\n\tcommit\n";
    let c = cmd("git comit -m x", out);
    assert_eq!(git_mistake(&c), Some(("comit".to_string(), vec!["commit".to_string()])));
    assert_eq!(
        shit_rule_git_not_command(&c, &sh(), &strings(&["commit"])),
        Some("git commit -m x".to_string())
    );
    assert_eq!(git_mistake(&cmd("git x", "git: 'x' is not a git command.")), None);
    assert_eq!(git_mistake(&cmd("git x", "git: 'x' is not a git command.\nDid you mean\n\n")), None);
}

#[test]
fn rules_come_in_order() {
    let c = cmd("sl x", "sl: command not found");
    assert_eq!(correction(&c, &sh(), &strings(&["sed"]), &vec![]), Some("ls x".to_string()));
    let c = cmd("ehco x", "ehco: command not found");
    assert_eq!(correction(&c, &sh(), &strings(&["echo"]), &vec![]), Some("echo x".to_string()));
    assert_eq!(correction(&c, &sh(), &strings(&["ehco"]), &vec![]), None);
    assert_eq!(correction(&cmd("ls", "a b c"), &sh(), &vec![], &vec![]), None);
}

#[test]
fn corrections_are_asked_for() {
    let dir = "some-dir/that/doesnt/exist";
    let c = cmd(&format!("cd {}", dir), "cd: no such file or directory");
    let fix = shit_rule_cd_mkdir(&c, &sh()).unwrap();
    assert_eq!(
        correction_question(&c, &fix),
        "btsh: shit: cd some-dir/that/doesnt/exist -> mkdir -p some-dir/that/doesnt/exist ? [y/n] "
    );
    assert_eq!(ask_with("sl", "", "ls"), "btsh: shit: sl -> ls ? [y/n] ");
    assert_eq!(read_answer(b'y'), Answer::Yes);
    assert_eq!(read_answer(b'\n'), Answer::Yes);
    assert_eq!(read_answer(b'N'), Answer::No);
    assert_eq!(read_answer(b'x'), Answer::Unclear);
    assert!(matches!(exec_builtin_shit(&sh()), ShitPlan::Nothing(1, m)
        if m == "btsh: shit: no previous command"));
    let mut s = sh();
    s.remember("ls");
    s.remember("shit");
    assert!(matches!(exec_builtin_shit(&s), ShitPlan::Rerun(c) if c == "ls"));
    assert_eq!(no_correction("x"), (1, "btsh: shit: no correction found for: x".to_string()));
}

#[test]
fn corrections_are_run_and_kept() {
    assert_eq!(read_wish(None), Answer::Yes);
    assert_eq!(read_wish(Some(b'y')), Answer::Yes);
    assert_eq!(read_wish(Some(b'n')), Answer::No);
    assert_eq!(read_wish(Some(b' ')), Answer::Unclear);
    assert_eq!(correction_code(None), 0);
    assert_eq!(correction_code(Some(3)), 3);
    let mut s = sh();
    assert_eq!(kept_correction("ls", &s), Some("ls\n".to_string()));
    s.history = false;
    assert_eq!(kept_correction("ls", &s), None);
    s.history = true;
    s.fresh = true;
    assert_eq!(kept_correction("ls", &s), None);
}

#[test]
fn numbers_are_read_and_written() {
    assert_eq!(parse_i32("-12"), Some(-12));
    assert_eq!(parse_i32("+12"), Some(12));
    assert_eq!(parse_i32("2147483648"), None);
    assert_eq!(parse_i32(""), None);
    assert_eq!(parse_i32("-"), None);
    assert_eq!(parse_i64("-9223372036854775808"), Some(i64::MIN));
    assert_eq!(parse_usize("-1"), None);
    assert_eq!(parse_usize("007"), Some(7));
    assert_eq!(parse_i128("170141183460469231731687303715884105728"), None);
    assert_eq!(parse_i128("-170141183460469231731687303715884105728"), Some(i128::MIN));
    assert_eq!(i128_to_string(i128::MIN), "-170141183460469231731687303715884105728");
    assert_eq!(u64_to_string(0), "0");
    assert_eq!(usize_to_string(1200), "1200");
    assert_eq!(pad("7", 3, '0'), "007");
    assert_eq!(parse_i128(&i128_to_string(-305)), Some(-305));
}

#[test]
fn texts_are_taken_apart() {
    assert_eq!(lines("a\r\nb\n\nc"), vec!["a", "b", "", "c"]);
    assert_eq!(words("  a\tb  c "), vec!["a", "b", "c"]);
    assert_eq!(trim("\u{a0} a b\t"), "a b");
    assert_eq!(split_once("a=b=c", '='), Some(("a".to_string(), "b=c".to_string())));
    assert_eq!(split_once("a", '='), None);
    assert_eq!(strip_prefix("alias x", "alias "), Some("x".to_string()));
    assert_eq!(split_on("a..b..", ".."), vec!["a", "b", ""]);
    assert_eq!(join(&strings(&["a", "b"]), ", "), "a, b");
}
