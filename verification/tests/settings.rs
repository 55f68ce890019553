use btsh::config::{
    config_prompt_format, load_config, parse_config_line, parse_echo_args, persist_alias,
    persist_autosuggest_to_config, persist_bool_to_config, persist_history_to_config,
    persist_logging_to_config, persist_path_to_config, persist_shit_to_config, prompt_commands,
    remove_alias_from_config, remove_aliases_from_config, render_config_prompt, session_prompt,
    shell_quote, start_shell, ConfigLine,
};
use btsh::control::{
    clear_answer, clear_question, exec_btshctl_autosuggest, exec_btshctl_disable,
    exec_btshctl_enable, exec_btshctl_feature, exec_btshctl_help, exec_btshctl_history,
    exec_btshctl_logging, exec_btshctl_shit, exec_btshctl_status, exec_builtin_btshctl,
    feature_help, interactive_only, persist_feature, ControlPlan, Feature, Next,
    DIALOGUE_LEFT,
};
use btsh::expand::{expand_word_no_brace, Environment};
use btsh::prompt::{
    color_sequence, color_to_ansi, prompt_color, render_format, render_prompt, render_ps1_format,
    PromptFacts,
};
use btsh::shell::{Shell, StringMap};
use btsh::token::{Token, Tokenizer};

fn strings(v: &[&str]) -> Vec<String> {
    v.iter().map(|s| s.to_string()).collect()
}

fn facts() -> PromptFacts {
    PromptFacts {
        cwd: "/home/u/src".to_string(),
        home: "/home/u".to_string(),
        user: Some("u".to_string()),
        host: None,
        hostname: "box.local".to_string(),
        euid: 1000,
        secs: 86400 * 3 + 3723,
    }
}

fn ps1(fmt: &str) -> String {
    render_ps1_format(fmt, &facts(), false)
}

#[test]
fn prompt_escapes() {
    assert_eq!(ps1("\\u@\\h \\w \\W\\$ "), "u@box ~/src src$ ");
    assert_eq!(ps1("%u %% \\\\ \\t"), "u % \\ 01:02:03");
    assert_eq!(ps1("a\\nb\\x\\"), "a\nb\\x");
    assert_eq!(ps1("\\[\x1b[1m]x"), "\x1b[1mx");
    let mut f = facts();
    f.euid = 0;
    f.cwd = "/home/u".to_string();
    f.user = None;
    f.host = Some("other".to_string());
    assert_eq!(render_ps1_format("\\u \\h \\w \\W \\#", &f, false), "user other ~ ~ #");
    f.home = String::new();
    assert_eq!(render_ps1_format("\\w \\W", &f, false), "/home/u u");
}

#[test]
fn prompt_colors() {
    assert_eq!(ps1("\\F{green}x\\f"), "\x1b[0;32mx\x1b[0m");
    assert_eq!(ps1("\\F{GREEN}x"), "\x1b[0;32mx");
    assert_eq!(ps1("\\F{nothing}x"), "x");
    assert_eq!(ps1("\\Fred}x"), "\x1b[0;31mx");
    assert_eq!(color_to_ansi("Bold"), Some("\x1b[1m".to_string()));
    assert_eq!(color_to_ansi("Nope"), None);
    assert_eq!(color_sequence("black"), Some("\x1b[0;30m".to_string()));
    assert_eq!(color_sequence("Black"), None);
    assert_eq!(prompt_color("blue", false), "\x1b[0;34m");
    assert_eq!(prompt_color("blue", true), "\x1b[0;31m");
    assert_eq!(prompt_color("underline", true), "\x1b[4m");
}

#[test]
fn failures_turn_the_prompt_red() {
    let mut sh = Shell::new(None, false);
    assert_eq!(render_format("\\F{green}a\\nb", &facts(), &sh), "\x1b[0;32ma\nb");
    sh.last_exit = 1;
    assert_eq!(
        render_format("\\F{green}a\\nb", &facts(), &sh),
        "\x1b[0;31m\x1b[0;31ma\x1b[0m\n\x1b[0;31mb\x1b[0m"
    );
    sh.prompt_on_failure = false;
    assert_eq!(render_format("\\F{green}a\\nb", &facts(), &sh), "\x1b[0;32ma\nb");
    assert_eq!(render_prompt(&None, &facts(), &sh), "u@box $ ");
    assert_eq!(render_prompt(&Some("> ".to_string()), &facts(), &sh), "> ");
}

const EXAMPLE: &str = "# settings\nif-interactive {\n    bfetch # or any other command\n}\n\nprompt {\n    echo \"\\F{green}\\u@\\h \\w\"\n    echo \"\\$ \"\n}\nif-not-interactive {\n  echo batch\n}\nalias ll=\"ls -l\"\npath ~/bin\nlog off\nshit on\nhistory off\nauto-suggestion on\nprompt-on-failure off\n";

#[test]
fn settings_are_read() {
    let c = load_config(EXAMPLE);
    assert_eq!(c.if_interactive_lines, vec!["bfetch # or any other command"]);
    assert_eq!(c.if_not_interactive_lines, vec!["echo batch"]);
    assert_eq!(c.aliases.get("ll"), Some("ls -l".to_string()));
    assert_eq!(c.paths, vec!["~/bin"]);
    assert!(!c.logging && c.shit && !c.history && c.autosuggest && !c.prompt_on_failure);
    assert_eq!(c.prompt_lines.len(), 2);
    let sh = Shell::new(None, false);
    assert_eq!(
        render_config_prompt(&c, &sh, &facts(), &vec![]),
        "\x1b[0;32mu@box ~/src\n$ "
    );
    let none = load_config("");
    assert!(!none.logging && none.shit && none.history && none.autosuggest && none.prompt_on_failure);
}

#[test]
fn an_empty_prompt_gives_way() {
    let sh = Shell::new(None, false);
    let own = load_config("prompt {\n echo \"A:\"\n}\n");
    let none = load_config("logging = false\n");
    let shown = |c| session_prompt(&c, &Some("> ".to_string()), &facts(), &sh, &vec![]);
    assert_eq!(shown(Some(own)), "A:");
    assert_eq!(shown(Some(none)), "> ");
    assert_eq!(shown(None), "> ");
}

#[test]
fn shells_start_with_settings() {
    let sh = start_shell(&Some(load_config(EXAMPLE)), Some("/c".to_string()), false);
    assert!(!sh.history && sh.shit && !sh.prompt_on_failure);
    assert_eq!(sh.aliases.get("ll"), Some("ls -l".to_string()));
    let plain = start_shell(&None, None, true);
    assert!(plain.fresh && plain.history && !plain.logging);
}

#[test]
fn echo_arguments() {
    assert_eq!(parse_echo_args("a \"b \\\"c\\\\ \\w\" 'd e'f"), vec!["a", "b \"c\\ \\w", "d e", "f"]);
    assert_eq!(parse_echo_args(""), Vec::<String>::new());
    assert_eq!(parse_echo_args("\"open"), vec!["open"]);
    assert!(matches!(parse_config_line("echo a b"), Some(ConfigLine::Echo(v)) if v == vec!["a", "b"]));
    assert!(matches!(parse_config_line("echo"), Some(ConfigLine::Echo(v)) if v.is_empty()));
    assert!(parse_config_line("echoes").is_none());
}

#[test]
fn prompts_show_output() {
    let c = load_config("prompt {\necho \"$(a) x\" $(b\necho $(c)\n}\n");
    assert_eq!(prompt_commands(&c), vec!["a", "b", "c"]);
    assert_eq!(config_prompt_format(&c, &strings(&["1", "2", "3"])), "1 x 2\n3");
}

#[test]
fn quoting() {
    assert_eq!(shell_quote(""), "''");
    assert_eq!(shell_quote("plain"), "plain");
    assert_eq!(shell_quote("a b"), "'a b'");
    assert_eq!(shell_quote("it's"), "'it'\\''s'");
}

#[test]
fn quoted_text_is_one_word() {
    let env = Environment { vars: StringMap::new(), pid: 1 };
    let sh = Shell::new(None, false);
    for s in ["", "a b", "it's $x `y` \"z\" \\", "plain", "{a,b};&|<>()#!", "a~", "a/~b~"] {
        assert_eq!(expand_word_no_brace(&shell_quote(s), &sh, &env, &vec![]), vec![s]);
        assert_eq!(
            Tokenizer::new(&shell_quote(s)).tokenize(),
            Ok(vec![Token::Word(shell_quote(s))])
        );
    }
}

#[test]
fn aliases_are_kept() {
    assert_eq!(persist_alias("", "ll", "ls -l"), "alias ll='ls -l'\n");
    assert_eq!(persist_alias("log on", "ll", "ls"), "log on\nalias ll=ls\n");
    assert_eq!(persist_alias("log on\n", "ll", "ls"), "log on\nalias ll=ls\n");
    let twice = persist_alias("alias ll=old\nshit off\n", "ll", "ls -l");
    assert_eq!(twice, "alias ll='ls -l'\nshit off\n");
    assert_eq!(load_config(&twice).aliases.get("ll"), Some("ls -l".to_string()));
    for v in ["'", "it's", "echo 'a b' \"c\"", "'a'", "''", "\\'\\''", "\"x\"", "", "  x  ", "~/bin/x"] {
        let kept = load_config(&persist_alias("", "n", v));
        assert_eq!(kept.aliases.get("n"), Some(v.to_string()));
    }
}

#[test]
fn quoted_values_are_read() {
    let value = |line: &str| load_config(line).aliases.get("a");
    assert_eq!(value("alias a='it'\\''s'"), Some("it's".to_string()));
    assert_eq!(value("alias a='x' 'y'"), Some("x' 'y".to_string()));
    assert_eq!(value("alias a=\"it'\\''s\""), Some("it'\\''s".to_string()));
    assert_eq!(value("alias a='"), Some("'".to_string()));
    assert_eq!(value("alias a=''"), Some("".to_string()));
}

#[test]
fn aliases_are_forgotten() {
    let content = "alias a=1\n  alias ab=2\nlog on\n";
    let without = remove_alias_from_config(content, "a");
    assert_eq!(without, "  alias ab=2\nlog on");
    assert_eq!(load_config(&without).aliases.get("a"), None);
    assert_eq!(load_config(&without).aliases.get("ab"), Some("2".to_string()));
    assert_eq!(remove_aliases_from_config(content), "log on");
}

#[test]
fn directories_are_kept() {
    assert_eq!(persist_path_to_config("log on", "~/bin"), Some("log on\npath ~/bin\n".to_string()));
    assert_eq!(persist_path_to_config(" path ~/bin\n", "~/bin"), None);
    let c = load_config(&persist_path_to_config("path /a\n", "/b").unwrap());
    assert_eq!(c.paths, vec!["/a", "/b"]);
}

#[test]
fn switches_are_kept() {
    assert_eq!(persist_logging_to_config("", true), "log on\n");
    assert_eq!(persist_shit_to_config("shit on\nlog on\n", false), "shit off\nlog on\n");
    assert_eq!(persist_history_to_config("log on", false), "log on\nhistory off\n");
    assert_eq!(persist_autosuggest_to_config("a\n", true), "a\nauto-suggestion on\n");
    let content = persist_bool_to_config(EXAMPLE, "prompt-on-failure", true);
    assert!(load_config(&content).prompt_on_failure);
    assert!(load_config(&persist_feature(EXAMPLE, Feature::Logging, true)).logging);
    assert!(!load_config(&persist_feature(EXAMPLE, Feature::Shit, false)).shit);
    assert!(load_config(&persist_feature(EXAMPLE, Feature::History, true)).history);
    assert!(!load_config(&persist_feature(EXAMPLE, Feature::Autosuggest, false)).autosuggest);
}

#[test]
fn features_are_switched() {
    let mut sh = Shell::new(None, false);
    let o = exec_btshctl_enable(&strings(&["logging"]), &mut sh);
    assert!(sh.logging);
    assert_eq!((o.out.as_str(), o.code, o.keep), ("logging enabled\n", 0, Some((Feature::Logging, true))));
    let o = exec_btshctl_disable(&strings(&["auto-suggestion"]), &mut sh);
    assert!(!sh.autosuggest);
    assert_eq!(o.out, "auto-suggestion disabled\n");
    let o = exec_btshctl_enable(&strings(&["x"]), &mut sh);
    assert_eq!((o.err.as_str(), o.code),
        ("usage: btshctl enable logging|shit|history|auto-suggestion\n", 1));
    let o = exec_btshctl_disable(&strings(&["shit", "history"]), &mut sh);
    assert_eq!(o.code, 1);
    assert!(sh.shit && sh.history);
}

#[test]
fn states_are_shown() {
    let sh = Shell::new(None, false);
    let status = |n: &str| exec_btshctl_status(&strings(&[n]), &sh).out;
    assert_eq!(status("logging"), "logging: disabled (default)\nlog file: /tmp/btsh_debug.log\n");
    assert_eq!(status("shit"), "shit: enabled (default)\n");
    assert_eq!(status("history"), "history: enabled (default)\n");
    assert_eq!(status("auto-suggestion"), "auto-suggestion: enabled (default)\n");
    assert_eq!(exec_btshctl_status(&vec![], &sh).code, 1);
}

#[test]
fn dialogues() {
    let mut sh = Shell::new(None, false);
    let r = exec_btshctl_logging(" enable ", &mut sh);
    assert_eq!((r.out.as_str(), r.next), ("    ! enabled\n", Next::Again));
    assert!(sh.logging);
    assert_eq!(exec_btshctl_logging("status", &mut sh).out, "    ! on\n");
    assert_eq!(exec_btshctl_logging("clear-file", &mut sh).next, Next::ClearFile);
    assert_eq!(exec_btshctl_history("clear-file", &mut sh).next, Next::ClearFile);
    assert_eq!(exec_btshctl_shit("clear-file", &mut sh).out, "    ! unknown command: clear-file\n");
    assert_eq!(exec_btshctl_shit("disable", &mut sh).keep, Some((Feature::Shit, false)));
    assert!(!sh.shit);
    assert_eq!(exec_btshctl_autosuggest("q", &mut sh).next, Next::Leave(DIALOGUE_LEFT));
    assert_eq!(DIALOGUE_LEFT, 0);
    assert_eq!(exec_btshctl_feature(Feature::Shit, "", &mut sh).out, "");
    assert_eq!(exec_btshctl_autosuggest("help", &mut sh).out, feature_help(Feature::Autosuggest));
    assert!(feature_help(Feature::Logging).contains("clear-file   delete /tmp/btsh_debug.log"));
}

#[test]
fn clearing_files() {
    assert_eq!(clear_question("/x"), "    ! delete /x? [y/n] ");
    assert_eq!(clear_answer(b'Y'), Some((true, "\n    ! cleared\n".to_string())));
    assert_eq!(clear_answer(b'n'), Some((false, "\n    ! cancelled\n".to_string())));
    assert_eq!(clear_answer(b'z'), None);
}

#[test]
fn control_commands() {
    let plan = |args: &[&str]| exec_builtin_btshctl(&strings(args), "1.2");
    assert!(matches!(plan(&["btshctl"]), ControlPlan::Tell(o)
        if o.out.contains("$btsh1.2 ") && o.code == 0));
    assert!(matches!(plan(&["btshctl", "--help"]), ControlPlan::Tell(o)
        if o.out == exec_btshctl_help("1.2") && o.code == 0));
    assert!(matches!(plan(&["btshctl", "enable", "x"]), ControlPlan::Switch(true)));
    assert!(matches!(plan(&["btshctl", "disable"]), ControlPlan::Switch(false)));
    assert!(matches!(plan(&["btshctl", "status"]), ControlPlan::Status));
    assert!(matches!(plan(&["btshctl", "history"]), ControlPlan::Dialogue(Feature::History)));
    assert!(matches!(plan(&["btshctl", "--fresh"]), ControlPlan::Fresh));
    assert!(matches!(plan(&["btshctl", "zz"]), ControlPlan::Tell(o)
        if o.err == "btsh: btshctl: unknown subcommand: zz\n" && o.code == 1));
    let o = interactive_only("shit");
    assert_eq!(o.err, "btsh: btshctl: shit: interactive-only command\n");
    assert_eq!((o.out.as_str(), o.code), ("", 1));
}
