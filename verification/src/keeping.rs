//! What holds of settings and of what is asked of the shell about itself: what the lines
//! of a settings file mean, how features are switched, and how things end.

use vstd::prelude::*;
use vstd::string::*;

use crate::config;
use crate::config::{Block, ConfigV, PatternV};
use crate::control;
use crate::control::{ControlPlanV, Feature, Next, OutcomeV};
use crate::expand;
use crate::meaning;
use crate::process;
use crate::process::{PipelinePhase, ProgramPhase, Reply};
use crate::prompt;
use crate::settings;
use crate::shell;
use crate::shell::{ShellV, WaitReply};
use crate::text;
use crate::token;
use crate::wording;

verus! {

// ---------------------------------------------------------------------------
// Lines of a settings file
// ---------------------------------------------------------------------------

/// The settings without a file: all features are on, but for logging.
pub proof fn law_usual_settings()
    ensures
        config::loaded(Seq::empty()) == (ConfigV {
            prompt_lines: Seq::empty(),
            aliases: Map::empty(),
            paths: Seq::empty(),
            interactive: Seq::empty(),
            not_interactive: Seq::empty(),
            logging: false,
            shit: true,
            history: true,
            autosuggest: true,
            prompt_on_failure: true,
        }),
{
    assert(text::lines_of(Seq::empty()) =~= Seq::<Seq<char>>::empty());
}

proof fn lemma_start(s: Seq<char>, p: Seq<char>)
    requires
        p.len() >= 2,
    ensures
        text::begins(s, p) ==> s.len() >= p.len() && s[0] == p[0] && s[1] == p[1],
{
    if text::begins(s, p) {
        assert(s.take(p.len() as int)[0] == s[0]);
        assert(s.take(p.len() as int)[1] == s[1]);
    }
}

/// How the lines of settings start.
proof fn lemma_starts(s: Seq<char>)
    ensures
        text::begins(s, "alias "@) ==> s.len() >= 6 && s[0] == 'a' && s[1] == 'l',
        text::begins(s, "path "@) ==> s.len() >= 5 && s[0] == 'p' && s[1] == 'a',
        text::begins(s, "log "@) ==> s.len() >= 4 && s[0] == 'l' && s[1] == 'o',
        text::begins(s, "shit "@) ==> s.len() >= 5 && s[0] == 's' && s[1] == 'h',
        text::begins(s, "history "@) ==> s.len() >= 8 && s[0] == 'h' && s[1] == 'i',
        text::begins(s, "auto-suggestion "@) ==> s.len() >= 16 && s[0] == 'a' && s[1] == 'u',
        text::begins(s, "prompt-on-failure "@) ==> s.len() >= 18 && s[0] == 'p' && s[1] == 'r',
        "alias "@.len() == 6,
        "path "@.len() == 5,
        "log "@.len() == 4,
        "shit "@.len() == 5,
        "history "@.len() == 8,
        "auto-suggestion "@.len() == 16,
        "prompt-on-failure "@.len() == 18,
        "}"@.len() == 1,
        "prompt {"@.len() == 8 && "prompt {"@[0] == 'p' && "prompt {"@[1] == 'r' && "prompt {"@[7]
            == '{',
        "function prompt {"@.len() == 17 && "function prompt {"@[0] == 'f',
        "if-interactive {"@.len() == 16 && "if-interactive {"@[0] == 'i',
        "if-not-interactive {"@.len() == 20 && "if-not-interactive {"@[0] == 'i',
        "on"@.len() == 2 && "on"@[0] == 'o' && "on"@[1] == 'n',
{
    reveal_strlit("alias ");
    reveal_strlit("path ");
    reveal_strlit("log ");
    reveal_strlit("shit ");
    reveal_strlit("history ");
    reveal_strlit("auto-suggestion ");
    reveal_strlit("prompt-on-failure ");
    reveal_strlit("}");
    reveal_strlit("prompt {");
    reveal_strlit("function prompt {");
    reveal_strlit("if-interactive {");
    reveal_strlit("if-not-interactive {");
    reveal_strlit("on");
    lemma_start(s, "alias "@);
    lemma_start(s, "path "@);
    lemma_start(s, "log "@);
    lemma_start(s, "shit "@);
    lemma_start(s, "history "@);
    lemma_start(s, "auto-suggestion "@);
    lemma_start(s, "prompt-on-failure "@);
}

proof fn lemma_line(before: Seq<Seq<char>>, line: Seq<char>)
    ensures
        config::loaded_lines(before.push(line)) == (if config::counts(text::trimmed(line)) {
            config::after_line(
                config::loaded_lines(before).0,
                config::loaded_lines(before).1,
                text::trimmed(line),
            )
        } else {
            config::loaded_lines(before)
        }),
{
    assert(before.push(line).drop_last() =~= before);
}

proof fn lemma_value(start: Seq<char>, v: Seq<char>)
    requires
        v == "on"@ || v == "off"@,
    ensures
        text::begins(start + v, start),
        (start + v).skip(start.len() as int) == v,
        config::says_on(v) <==> v == "on"@,
        v.len() >= 2,
        v.last() != '{',
        v[0] == 'o',
{
    reveal_strlit("on");
    reveal_strlit("off");
    assert((start + v).take(start.len() as int) =~= start);
    assert((start + v).skip(start.len() as int) =~= v);
    assert(text::trimmed_start(v) == v);
    assert(text::trimmed(v) == v);
}

/// A line with the name of a feature and `on` or `off` switches it, and changes nothing
/// else.
pub proof fn law_lines_that_switch(before: Seq<Seq<char>>, line: Seq<char>, v: Seq<char>)
    requires
        config::loaded_lines(before).1 == Block::Outside,
        v == "on"@ || v == "off"@,
    ensures
        ({
            let c = config::loaded_lines(before).0;
            let after = config::loaded_lines(before.push(line)).0;
            let t = text::trimmed(line);
            let on = v == "on"@;
            &&& t == "log "@ + v ==> after == ConfigV { logging: on, ..c }
            &&& t == "shit "@ + v ==> after == ConfigV { shit: on, ..c }
            &&& t == "history "@ + v ==> after == ConfigV { history: on, ..c }
            &&& t == "auto-suggestion "@ + v ==> after == ConfigV { autosuggest: on, ..c }
            &&& t == "prompt-on-failure "@ + v ==> after == ConfigV { prompt_on_failure: on, ..c }
        }),
{
    let t = text::trimmed(line);
    lemma_line(before, line);
    lemma_starts(t);
    lemma_value("log "@, v);
    lemma_value("shit "@, v);
    lemma_value("history "@, v);
    lemma_value("auto-suggestion "@, v);
    lemma_value("prompt-on-failure "@, v);
    if t == "log "@ + v || t == "shit "@ + v || t == "history "@ + v || t == "auto-suggestion "@ + v
        || t == "prompt-on-failure "@ + v {
        assert(t.last() == v.last());
        lemma_starts("log "@ + "log "@);
        lemma_no_bracket(t);
    }
}

proof fn lemma_no_bracket(t: Seq<char>)
    requires
        t.len() > 1,
        t.last() != '{',
    ensures
        t != "}"@,
        t != "prompt {"@,
        t != "function prompt {"@,
        t != "if-interactive {"@,
        t != "if-not-interactive {"@,
{
    reveal_strlit("}");
    reveal_strlit("prompt {");
    reveal_strlit("function prompt {");
    reveal_strlit("if-interactive {");
    reveal_strlit("if-not-interactive {");
    assert("prompt {"@.last() == '{');
    assert("function prompt {"@.last() == '{');
    assert("if-interactive {"@.last() == '{');
    assert("if-not-interactive {"@.last() == '{');
}

proof fn lemma_no_quotes(s: Seq<char>)
    requires
        !s.contains('\''),
    ensures
        config::quotes_unescaped(s) == s,
    decreases s.len(),
{
    if s.len() > 0 {
        assert(s[0] != '\'');
        let t = s.drop_first();
        assert(!t.contains('\'')) by {
            if t.contains('\'') {
                let k = t.index_of('\'');
                assert(s[k + 1] == '\'');
            }
        }
        lemma_no_quotes(t);
        assert(seq![s[0]] + t =~= s);
    } else {
        assert(s =~= Seq::empty());
    }
}

/// A line sets an alias to the value behind the first `=`, which may stand in quotes of
/// either kind, and changes nothing else.
pub proof fn law_lines_that_set_an_alias(
    before: Seq<Seq<char>>,
    line: Seq<char>,
    name: Seq<char>,
    w: Seq<char>,
    v: Seq<char>,
)
    requires
        config::loaded_lines(before).1 == Block::Outside,
        wording::tight(name),
        !name.contains('='),
        text::trimmed(line) == "alias "@ + name + seq!['='] + v,
        (v == w && wording::tight(w) && w[0] != '"' && w[0] != '\'' && w.last() != '{') || v
            == seq!['"'] + w + seq!['"'] || (v == seq!['\''] + w + seq!['\''] && !w.contains('\'')),
    ensures
        config::loaded_lines(before.push(line)).0 == (ConfigV {
            aliases: config::loaded_lines(before).0.aliases.insert(name, w),
            ..config::loaded_lines(before).0
        }),
{
    let t = text::trimmed(line);
    lemma_line(before, line);
    lemma_starts(t);
    let rest = name + seq!['='] + v;
    assert(t =~= "alias "@ + rest);
    assert(t.take(6) =~= "alias "@);
    assert(t.skip(6) =~= rest);
    reveal_strlit("alias ");
    assert(t[0] == 'a');
    assert(v.len() > 0);
    assert(t.last() == v.last());
    lemma_no_bracket(t);
    wording::law_parting(name, '=', v);
    let none = Seq::<char>::empty();
    assert(none + name + none =~= name);
    wording::law_trimming(none, name, none);
    assert(wording::tight(v));
    assert(none + v + none =~= v);
    wording::law_trimming(none, v, none);
    assert(text::trimmed(v) == v);
    if v != w || w[0] == '"' || w[0] == '\'' {
        assert(v.subrange(1, v.len() - 1) =~= w);
        if v[0] == '\'' {
            lemma_no_quotes(w);
        }
    }
}

/// A line adds a directory behind those that were added before it, and changes nothing
/// else.
pub proof fn law_lines_that_add_a_path(before: Seq<Seq<char>>, line: Seq<char>, dir: Seq<char>)
    requires
        config::loaded_lines(before).1 == Block::Outside,
        wording::tight(dir),
        dir.last() != '{',
        text::trimmed(line) == "path "@ + dir,
    ensures
        config::loaded_lines(before.push(line)).0 == (ConfigV {
            paths: config::loaded_lines(before).0.paths.push(dir),
            ..config::loaded_lines(before).0
        }),
{
    let t = text::trimmed(line);
    lemma_line(before, line);
    lemma_starts(t);
    reveal_strlit("path ");
    assert(t[0] == 'p' && t[1] == 'a');
    assert(t.take(5) =~= "path "@);
    assert(t.skip(5) =~= dir);
    assert(t.last() == dir.last());
    lemma_no_bracket(t);
    let none = Seq::<char>::empty();
    assert(none + dir + none =~= dir);
    wording::law_trimming(none, dir, none);
}

/// Blocks are opened by their names and closed by a brace; the lines of a block are kept
/// as they are, but for the white space around them. Empty lines and comments are left
/// out everywhere.
pub proof fn law_blocks_of_lines(before: Seq<Seq<char>>, line: Seq<char>)
    ensures
        ({
            let (c, block) = config::loaded_lines(before);
            let after = config::loaded_lines(before.push(line));
            let t = text::trimmed(line);
            &&& t.len() == 0 || t[0] == '#' ==> after == (c, block)
            &&& block == Block::Outside ==> {
                &&& t == "prompt {"@ ==> after == (c, Block::Prompt)
                &&& t == "function prompt {"@ ==> after == (c, Block::Prompt)
                &&& t == "if-interactive {"@ ==> after == (c, Block::Interactive)
                &&& t == "if-not-interactive {"@ ==> after == (c, Block::NotInteractive)
            }
            &&& block != Block::Outside && t == "}"@ ==> after == (c, Block::Outside)
            &&& block == Block::Interactive && t.len() > 0 && t[0] != '#' && t != "}"@ ==> after
                == (ConfigV { interactive: c.interactive.push(t), ..c }, block)
            &&& block == Block::NotInteractive && t.len() > 0 && t[0] != '#' && t != "}"@ ==> after
                == (ConfigV { not_interactive: c.not_interactive.push(t), ..c }, block)
        }),
{
    lemma_line(before, line);
    reveal_strlit("}");
    reveal_strlit("prompt {");
    reveal_strlit("function prompt {");
    reveal_strlit("if-interactive {");
    reveal_strlit("if-not-interactive {");
    assert("}"@[0] == '}');
    assert("prompt {"@[0] == 'p');
    assert("function prompt {"@[0] == 'f');
    assert("if-interactive {"@[0] == 'i' && "if-interactive {"@[3] == 'i');
    assert("if-not-interactive {"@[0] == 'i' && "if-not-interactive {"@[3] == 'n');
}

/// A shell takes its settings over, and has no others.
pub proof fn law_shell_takes_settings(c: ConfigV, path: Option<Seq<char>>, fresh: bool)
    ensures
        ({
            let s = config::started_with(Some(c), path, fresh);
            &&& s.aliases == c.aliases
            &&& s.logging == c.logging
            &&& s.shit == c.shit
            &&& s.history == c.history
            &&& s.autosuggest == c.autosuggest
            &&& s.prompt_on_failure == c.prompt_on_failure
            &&& s.config_path == path
            &&& s.fresh == fresh
            &&& s.last_exit == 0
            &&& s.running_bg == Seq::<u32>::empty()
        }),
        ({
            let s = config::started_with(None, path, fresh);
            !s.logging && s.shit && s.history && s.autosuggest && s.prompt_on_failure && s.last_exit
                == 0 && s.aliases == Map::<Seq<char>, Seq<char>>::empty()
        }),
{
}

/// A text needs no quotes where it has none of the characters that mean something to
/// the shell; a text with one of them gets a quote on each side.
pub proof fn law_quotes_where_needed(s: Seq<char>)
    ensures
        s.len() > 0 && (forall|k: int|
            0 <= k < s.len() ==> !" \t'\"\\$`!#&|;<>(){}"@.contains(#[trigger] s[k]))
            ==> config::quoted(s) == s,
        !s.contains('\'') && (exists|k: int|
            0 <= k < s.len() && " \t'\"\\$`!#&|;<>(){}"@.contains(#[trigger] s[k]))
            ==> config::quoted(s) == seq!['\''] + s + seq!['\''],
        config::quoted(Seq::empty()) == seq!['\'', '\''],
{
    let special = " \t'\"\\$`!#&|;<>(){}"@;
    reveal_strlit(" \t'\"\\$`!#&|;<>(){}");
    assert(special[0] == ' ' && special[1] == '\t' && special[2] == '\'' && special[3] == '"'
        && special[4] == '\\' && special[5] == '$' && special[6] == '`' && special[7] == '!'
        && special[8] == '#' && special[9] == '&' && special[10] == '|' && special[11] == ';'
        && special[12] == '<' && special[13] == '>' && special[14] == '(' && special[15] == ')'
        && special[16] == '{' && special[17] == '}');
    if !s.contains('\'') && exists|k: int| 0 <= k < s.len() && special.contains(#[trigger] s[k]) {
        let k = choose|k: int| 0 <= k < s.len() && special.contains(#[trigger] s[k]);
        let j = special.index_of(s[k]);
        assert(special.len() == 18);
        assert(config::needs_quotes(s[k]));
        lemma_nothing_escaped(s);
    }
    if config::any_needs_quotes(s) {
        let k = choose|k: int| 0 <= k < s.len() && config::needs_quotes(#[trigger] s[k]);
        assert(special.contains(s[k]));
    }
    assert(config::quoted(Seq::empty()) =~= seq!['\'', '\'']);
}

proof fn lemma_nothing_escaped(s: Seq<char>)
    requires
        !s.contains('\''),
    ensures
        config::quotes_escaped(s) == s,
    decreases s.len(),
{
    if s.len() > 0 {
        let t = s.drop_last();
        assert(s.last() != '\'') by {
            if s.last() == '\'' {
                assert(s[s.len() - 1] == '\'');
            }
        }
        assert(!t.contains('\'')) by {
            if t.contains('\'') {
                let k = t.index_of('\'');
                assert(s[k] == '\'');
            }
        }
        lemma_nothing_escaped(t);
        assert(t + seq![s.last()] =~= s);
    } else {
        assert(s =~= Seq::empty());
    }
}

// ---------------------------------------------------------------------------
// The prompt of the settings
// ---------------------------------------------------------------------------

/// An argument of an `echo` and how it is written.
pub enum Arg {
    /// Without quotes.
    Bare(Seq<char>),
    /// In single quotes.
    Single(Seq<char>),
    /// In double quotes, with a backslash before each quote and backslash.
    Double(Seq<char>),
}

pub open spec fn arg_ok(a: Arg) -> bool {
    match a {
        Arg::Bare(s) => s.len() > 0 && forall|k: int|
            0 <= k < s.len() ==> !text::white_space(#[trigger] s[k]) && s[k] != '\'' && s[k] != '"',
        Arg::Single(s) => !s.contains('\''),
        Arg::Double(_) => true,
    }
}

pub open spec fn escaped(s: Seq<char>) -> Seq<char>
    decreases s.len(),
{
    if s.len() == 0 {
        Seq::empty()
    } else {
        (if s[0] == '\\' || s[0] == '"' {
            seq!['\\', s[0]]
        } else {
            seq![s[0]]
        }) + escaped(s.drop_first())
    }
}

pub open spec fn written_arg(a: Arg) -> Seq<char> {
    match a {
        Arg::Bare(s) => s,
        Arg::Single(s) => seq!['\''] + s + seq!['\''],
        Arg::Double(s) => seq!['"'] + escaped(s) + seq!['"'],
    }
}

pub open spec fn value_of(a: Arg) -> Seq<char> {
    match a {
        Arg::Bare(s) => s,
        Arg::Single(s) => s,
        Arg::Double(s) => s,
    }
}

/// The arguments, each with a space before it.
pub open spec fn written_args(args: Seq<Arg>) -> Seq<char>
    decreases args.len(),
{
    if args.len() == 0 {
        Seq::empty()
    } else {
        seq![' '] + written_arg(args[0]) + written_args(args.drop_first())
    }
}

pub open spec fn values_of(args: Seq<Arg>) -> Seq<Seq<char>> {
    Seq::new(args.len(), |k: int| value_of(args[k]))
}

pub open spec fn args_ok(args: Seq<Arg>) -> bool {
    forall|k: int| 0 <= k < args.len() ==> arg_ok(#[trigger] args[k])
}

proof fn lemma_double(s: Seq<char>, i: int, w: Seq<char>, tail: Seq<char>, acc: Seq<char>)
    requires
        0 <= i <= s.len(),
        s.skip(i) == escaped(w) + seq!['"'] + tail,
    ensures
        config::double_quoted(s, i, acc) == (acc + w, i + escaped(w).len() + 1),
    decreases w.len(),
{
    let x = escaped(w) + seq!['"'] + tail;
    assert(s.skip(i).len() == s.len() - i);
    assert(s.skip(i)[0] == s[i]);
    if w.len() == 0 {
        assert(x[0] == '"');
        assert(acc + w =~= acc);
    } else {
        let rest = w.drop_first();
        if w[0] == '\\' || w[0] == '"' {
            assert(x[0] == '\\' && x[1] == w[0]);
            assert(s.skip(i)[1] == s[i + 1]);
            assert(s.skip(i + 2) =~= s.skip(i).skip(2));
            assert(x.skip(2) =~= escaped(rest) + seq!['"'] + tail);
            lemma_double(s, i + 2, rest, tail, acc.push(w[0]));
            assert(acc.push(w[0]) + rest =~= acc + w);
        } else {
            assert(x[0] == w[0]);
            assert(s.skip(i + 1) =~= s.skip(i).skip(1));
            assert(x.skip(1) =~= escaped(rest) + seq!['"'] + tail);
            lemma_double(s, i + 1, rest, tail, acc.push(w[0]));
            assert(acc.push(w[0]) + rest =~= acc + w);
        }
    }
}

proof fn lemma_bare(s: Seq<char>, i: int, n: int)
    requires
        0 <= i <= n <= s.len(),
        forall|k: int|
            i <= k < n ==> !text::white_space(#[trigger] s[k]) && s[k] != '\'' && s[k] != '"',
        n < s.len() ==> s[n] == ' ',
    ensures
        config::bare_end(s, i) == n,
    decreases n - i,
{
    if i < n {
        assert(!text::white_space(s[i]));
        lemma_bare(s, i + 1, n);
    }
}

proof fn lemma_arg(s: Seq<char>, i: int, args: Seq<Arg>, acc: Seq<Seq<char>>)
    requires
        0 <= i <= s.len(),
        args.len() > 0,
        args_ok(args),
        s.skip(i) == written_arg(args[0]) + written_args(args.drop_first()),
    ensures
        config::echo_args_from(s, i, acc) == acc + values_of(args),
    decreases args.len(), 0int,
{
    let a = args[0];
    let rest = args.drop_first();
    let tail = written_args(rest);
    assert(arg_ok(a));
    assert(args_ok(rest)) by {
        assert forall|k: int| 0 <= k < rest.len() implies arg_ok(#[trigger] rest[k]) by {
            assert(arg_ok(args[k + 1]));
        }
    }
    let x = written_arg(a) + tail;
    let n = i + written_arg(a).len();
    assert(s.skip(i).len() == s.len() - i);
    assert(s.skip(n) =~= s.skip(i).skip(written_arg(a).len() as int));
    assert(x.skip(written_arg(a).len() as int) =~= tail);
    assert(s.skip(i)[0] == s[i]);
    assert(x[0] == written_arg(a)[0]);
    assert(acc.push(value_of(a)) + values_of(rest) =~= acc + values_of(args));
    match a {
        Arg::Bare(w) => {
            assert forall|k: int| i <= k < n implies !text::white_space(#[trigger] s[k]) && s[k]
                != '\'' && s[k] != '"' by {
                assert(s.skip(i)[k - i] == s[k]);
                assert(x[k - i] == w[k - i]);
            }
            if n < s.len() {
                assert(s.skip(n)[0] == s[n]);
                assert(tail[0] == ' ');
            }
            lemma_bare(s, i, n);
            assert(s.subrange(i, n) =~= w) by {
                assert forall|k: int| 0 <= k < w.len() implies s.subrange(i, n)[k] == w[k] by {
                    assert(s.skip(i)[k] == s[i + k]);
                    assert(x[k] == w[k]);
                }
            }
            assert(!text::white_space(s[i]));
            assert(!text::ascii_space(s[i]));
        },
        Arg::Single(w) => {
            assert(s[i] == '\'');
            let y = s.skip(i + 1);
            assert(y =~= s.skip(i).skip(1));
            assert(y =~= w + seq!['\''] + tail);
            wording::law_parting(w, '\'', tail);
            text::lemma_until(y, '\'');
            assert(y[w.len() as int] == '\'');
            let m = text::until(y, '\'') as int;
            if m < w.len() {
                assert(y[m] == w[m]);
                assert(w.contains('\''));
            }
            assert(m == w.len());
            assert(s.subrange(i + 1, i + 1 + m) =~= w) by {
                assert forall|k: int| 0 <= k < w.len() implies s.subrange(i + 1, i + 1 + m)[k]
                    == w[k] by {
                    assert(y[k] == s[i + 1 + k]);
                }
            }
        },
        Arg::Double(w) => {
            assert(s[i] == '"');
            assert(s.skip(i + 1) =~= s.skip(i).skip(1));
            assert(x.skip(1) =~= escaped(w) + seq!['"'] + tail);
            lemma_double(s, i + 1, w, tail, Seq::empty());
            assert(Seq::<char>::empty() + w =~= w);
        },
    }
    lemma_args(s, n, rest, acc.push(value_of(a)));
}

proof fn lemma_args(s: Seq<char>, i: int, args: Seq<Arg>, acc: Seq<Seq<char>>)
    requires
        0 <= i <= s.len(),
        args_ok(args),
        s.skip(i) == written_args(args),
    ensures
        config::echo_args_from(s, i, acc) == acc + values_of(args),
    decreases args.len(), 1int,
{
    assert(s.skip(i).len() == s.len() - i);
    if args.len() == 0 {
        assert(acc + values_of(args) =~= acc);
    } else {
        let x = written_args(args);
        assert(s.skip(i)[0] == s[i]);
        assert(x[0] == ' ');
        assert(s.skip(i + 1) =~= s.skip(i).skip(1));
        assert(x.skip(1) =~= written_arg(args[0]) + written_args(args.drop_first()));
        lemma_arg(s, i + 1, args, acc);
    }
}

/// The arguments of an `echo` are read as they are meant, whether they stand in quotes
/// or not.
pub proof fn law_echo_arguments_are_read(args: Seq<Arg>)
    requires
        args_ok(args),
    ensures
        config::echo_args_from(written_args(args), 0, Seq::empty()) == values_of(args),
{
    let s = written_args(args);
    assert(s.skip(0) =~= s);
    lemma_args(s, 0, args, Seq::empty());
    assert(Seq::<Seq<char>>::empty() + values_of(args) =~= values_of(args));
}

proof fn lemma_no_command(s: Seq<char>, i: int, acc: Seq<char>, answers: Seq<Seq<char>>)
    requires
        0 <= i <= s.len(),
        forall|k: int| i <= k < s.len() ==> #[trigger] s[k] != '$',
    ensures
        expand::substituted_from(s, i, acc, answers) == acc + s.skip(i),
        expand::asked_from(s, i) == 0,
    decreases s.len() - i,
{
    if i < s.len() {
        assert(s[i] != '$');
        lemma_no_command(s, i + 1, acc.push(s[i]), answers);
        assert(acc.push(s[i]) + s.skip(i + 1) =~= acc + s.skip(i));
    } else {
        assert(acc + s.skip(i) =~= acc);
    }
}

proof fn lemma_to_command(
    s: Seq<char>,
    i: int,
    n: int,
    acc: Seq<char>,
    answers: Seq<Seq<char>>,
    cs: Seq<Seq<char>>,
)
    requires
        0 <= i <= n <= s.len(),
        forall|k: int| i <= k < n ==> #[trigger] s[k] != '$',
    ensures
        expand::substituted_from(s, i, acc, answers) == expand::substituted_from(
            s,
            n,
            acc + s.subrange(i, n),
            answers,
        ),
        expand::substitutions_from(s, i, cs) == expand::substitutions_from(s, n, cs),
    decreases n - i,
{
    if i < n {
        assert(s[i] != '$');
        lemma_to_command(s, i + 1, n, acc.push(s[i]), answers, cs);
        assert(acc.push(s[i]) + s.subrange(i + 1, n) =~= acc + s.subrange(i, n));
    } else {
        assert(acc + s.subrange(i, n) =~= acc);
    }
}

/// The output of a command stands in a text in place of the command, and the text
/// around it stays as it is.
pub proof fn law_output_is_put_in(
    a: Seq<char>,
    cmd: Seq<char>,
    b: Seq<char>,
    answer: Seq<char>,
    more: Seq<Seq<char>>,
)
    requires
        forall|k: int| 0 <= k < a.len() ==> #[trigger] a[k] != '$',
        forall|k: int| 0 <= k < b.len() ==> #[trigger] b[k] != '$',
        meaning::balanced(cmd),
    ensures
        ({
            let s = a + seq!['$', '('] + cmd + seq![')'] + b;
            &&& expand::substituted_from(s, 0, Seq::empty(), seq![answer] + more) == a + answer + b
            &&& expand::substitutions_from(s, 0, Seq::empty()) == seq![cmd]
        }),
{
    let s = a + seq!['$', '('] + cmd + seq![')'] + b;
    let n = a.len() as int;
    let answers = seq![answer] + more;
    let none = Seq::<Seq<char>>::empty();
    assert forall|k: int| 0 <= k < n implies #[trigger] s[k] != '$' by {
        assert(s[k] == a[k]);
    }
    lemma_to_command(s, 0, n, Seq::empty(), answers, none);
    assert(Seq::<char>::empty() + s.subrange(0, n) =~= a);
    assert(s[n] == '$' && s[n + 1] == '(');
    assert(meaning::at(s, n + 2, cmd + seq![')'])) by {
        assert forall|k: int| 0 <= k < cmd.len() + 1 implies s[n + 2 + k] == #[trigger] (cmd + seq![
            ')',
        ])[k] by {}
    }
    meaning::lemma_parens(s, n + 2, cmd, 0);
    let m = n + 2 + cmd.len() + 1;
    assert(token::paren_end(s, n + 2, 1) == Some(m));
    assert(s.subrange(n + 2, m - 1) =~= cmd);
    assert(answers[0] == answer);
    assert forall|k: int| m <= k < s.len() implies #[trigger] s[k] != '$' by {
        assert(s[k] == b[k - m]);
    }
    lemma_no_command(s, m, a + answer, expand::later(answers, 1));
    assert(s.skip(m) =~= b);
    lemma_to_command(s, m, s.len() as int, a + answer, answers, seq![cmd]);
    assert(none.push(cmd) =~= seq![cmd]);
}

pub open spec fn without_commands(args: Seq<Seq<char>>) -> bool {
    forall|k: int| 0 <= k < args.len() ==> !(#[trigger] args[k]).contains('$')
}

proof fn lemma_line_text(args: Seq<Seq<char>>, k: int, acc: Seq<char>, answers: Seq<Seq<char>>)
    requires
        0 < k <= args.len(),
        without_commands(args),
    ensures
        config::line_text(args, k, acc + meaning::spaced(args.take(k)), answers) == (
            acc + meaning::spaced(args),
            answers,
        ),
    decreases args.len() - k,
{
    let now = acc + meaning::spaced(args.take(k));
    if k < args.len() {
        let w = args[k];
        assert(!w.contains('$'));
        assert forall|j: int| 0 <= j < w.len() implies #[trigger] w[j] != '$' by {}
        lemma_no_command(w, 0, Seq::empty(), answers);
        assert(Seq::<char>::empty() + w.skip(0) =~= w);
        assert(args.take(k + 1).drop_last() =~= args.take(k));
        assert(args.take(k + 1).last() == w);
        assert(now.push(' ') + w =~= acc + meaning::spaced(args.take(k + 1)));
        assert(expand::later(answers, 0) =~= answers);
        lemma_line_text(args, k + 1, acc, answers);
    } else {
        assert(args.take(k) =~= args);
    }
}

/// The arguments of a line of the prompt are shown with a space between each two, and
/// its lines one below the other.
pub proof fn law_lines_of_the_prompt(
    first: Seq<Seq<char>>,
    second: Seq<Seq<char>>,
    answers: Seq<Seq<char>>,
)
    requires
        without_commands(first),
        without_commands(second),
        first.len() > 0,
        second.len() > 0,
    ensures
        config::prompt_text(seq![first], 0, Seq::empty(), answers) == meaning::spaced(first),
        config::prompt_text(seq![first, second], 0, Seq::empty(), answers) == meaning::spaced(first)
            + seq!['\n'] + meaning::spaced(second),
{
    let none = Seq::<char>::empty();
    let one = seq![first];
    let two = seq![first, second];
    lemma_whole_line(first, none, answers);
    assert(none + meaning::spaced(first) =~= meaning::spaced(first));
    assert(one[0] == first);
    assert(config::prompt_text(one, 1, meaning::spaced(first), answers) == meaning::spaced(first));
    assert(two[0] == first && two[1] == second);
    let start = meaning::spaced(first).push('\n');
    lemma_whole_line(second, start, answers);
    assert(config::prompt_text(two, 2, start + meaning::spaced(second), answers) == start
        + meaning::spaced(second));
    assert(config::prompt_text(two, 1, meaning::spaced(first), answers) == start + meaning::spaced(
        second,
    ));
    assert(start + meaning::spaced(second) =~= meaning::spaced(first) + seq!['\n']
        + meaning::spaced(second));
}

proof fn lemma_whole_line(args: Seq<Seq<char>>, acc: Seq<char>, answers: Seq<Seq<char>>)
    requires
        without_commands(args),
        args.len() > 0,
    ensures
        config::line_text(args, 0, acc, answers) == (acc + meaning::spaced(args), answers),
{
    let w = args[0];
    assert(!w.contains('$'));
    assert forall|j: int| 0 <= j < w.len() implies #[trigger] w[j] != '$' by {}
    lemma_no_command(w, 0, Seq::empty(), answers);
    assert(Seq::<char>::empty() + w.skip(0) =~= w);
    assert(expand::later(answers, 0) =~= answers);
    assert(args.take(1) =~= seq![w]);
    assert(meaning::spaced(args.take(1)) == w);
    lemma_line_text(args, 1, acc, answers);
}

// ---------------------------------------------------------------------------
// Features
// ---------------------------------------------------------------------------

/// A feature is switched by its name, on its own: that is said, and kept.
pub proof fn law_features_are_switched(s: ShellV, on: bool)
    ensures
        ({
            let done = |name: Seq<char>| control::switched(s, seq![name], on);
            let said = |name: Seq<char>, f: Feature|
                OutcomeV {
                    out: name + (if on {
                        " enabled\n"@
                    } else {
                        " disabled\n"@
                    }),
                    err: Seq::empty(),
                    code: 0,
                    keep: Some((f, on)),
                };
            &&& done("logging"@) == (
                ShellV { logging: on, ..s },
                said("logging"@, Feature::Logging),
            )
            &&& done("shit"@) == (ShellV { shit: on, ..s }, said("shit"@, Feature::Shit))
            &&& done("history"@) == (
                ShellV { history: on, ..s },
                said("history"@, Feature::History),
            )
            &&& done("auto-suggestion"@) == (
                ShellV { autosuggest: on, ..s },
                said("auto-suggestion"@, Feature::Autosuggest),
            )
        }),
{
    lemma_names();
}

proof fn lemma_names()
    ensures
        "logging"@.len() == 7 && "logging"@[0] == 'l',
        "shit"@.len() == 4 && "shit"@[0] == 's',
        "history"@.len() == 7 && "history"@[0] == 'h',
        "auto-suggestion"@.len() == 15,
        "enable"@.len() == 6 && "enable"@[0] == 'e',
        "disable"@.len() == 7 && "disable"@[0] == 'd',
        "status"@.len() == 6 && "status"@[0] == 's',
        "help"@.len() == 4 && "help"@[0] == 'h',
        "clear-file"@.len() == 10,
        "q"@.len() == 1,
        "exit"@.len() == 4 && "exit"@[0] == 'e',
        "quit"@.len() == 4 && "quit"@[0] == 'q',
        "--fresh"@.len() == 7 && "--fresh"@[0] == '-',
        "--help"@.len() == 6 && "--help"@[0] == '-',
{
    reveal_strlit("logging");
    reveal_strlit("shit");
    reveal_strlit("history");
    reveal_strlit("auto-suggestion");
    reveal_strlit("enable");
    reveal_strlit("disable");
    reveal_strlit("status");
    reveal_strlit("help");
    reveal_strlit("clear-file");
    reveal_strlit("q");
    reveal_strlit("exit");
    reveal_strlit("quit");
    reveal_strlit("--fresh");
    reveal_strlit("--help");
}

/// Arguments that name no feature, or more than one thing, are refused, and nothing
/// changes.
pub proof fn law_other_names_are_refused(s: ShellV, args: Seq<Seq<char>>, on: bool)
    requires
        args.len() != 1 || (args[0] != "logging"@ && args[0] != "shit"@ && args[0] != "history"@
            && args[0] != "auto-suggestion"@),
    ensures
        control::switched(s, args, on).0 == s,
        control::switched(s, args, on).1.code == 1,
        control::switched(s, args, on).1.out == Seq::<char>::empty(),
        control::switched(s, args, on).1.keep is None,
{
}

/// What the first argument asks for, whatever follows it.
pub proof fn law_what_is_asked(
    name: Seq<char>,
    w: Seq<char>,
    rest: Seq<Seq<char>>,
    version: Seq<char>,
)
    ensures
        ({
            let plan = |w: Seq<char>| control::control_plan(seq![name, w] + rest, version);
            &&& plan("enable"@) == ControlPlanV::Switch(true)
            &&& plan("disable"@) == ControlPlanV::Switch(false)
            &&& plan("status"@) is Status
            &&& plan("logging"@) == ControlPlanV::Dialogue(Feature::Logging)
            &&& plan("shit"@) == ControlPlanV::Dialogue(Feature::Shit)
            &&& plan("history"@) == ControlPlanV::Dialogue(Feature::History)
            &&& plan("auto-suggestion"@) == ControlPlanV::Dialogue(Feature::Autosuggest)
            &&& plan("--fresh"@) is Fresh
            &&& plan("--help"@) matches ControlPlanV::Tell(o) && o.code == 0 && o.err.len() == 0
                && o.keep is None
            &&& plan(w) is Tell && !(w == "--help"@) ==> plan(w)->Tell_0 == (OutcomeV {
                out: Seq::empty(),
                err: "btsh: btshctl: unknown subcommand: "@ + w + "\n"@,
                code: 1,
                keep: None,
            })
        }),
{
    lemma_names();
    lemma_second(name, "enable"@, rest);
    lemma_second(name, "disable"@, rest);
    lemma_second(name, "status"@, rest);
    lemma_second(name, "logging"@, rest);
    lemma_second(name, "shit"@, rest);
    lemma_second(name, "history"@, rest);
    lemma_second(name, "auto-suggestion"@, rest);
    lemma_second(name, "--fresh"@, rest);
    lemma_second(name, "--help"@, rest);
    lemma_second(name, w, rest);
}

proof fn lemma_second(name: Seq<char>, w: Seq<char>, rest: Seq<Seq<char>>)
    ensures
        (seq![name, w] + rest)[1] == w,
        (seq![name, w] + rest).len() >= 2,
{
}

/// What the lines of a dialogue about a feature do, whatever white space is around them.
pub proof fn law_dialogue(s: ShellV, f: Feature, line: Seq<char>)
    ensures
        ({
            let (after, r) = control::dialogue(s, f, line);
            let t = text::trimmed(line);
            &&& t == "enable"@ ==> after == control::switched(s, seq![control::feature_name(f)], true).0
                && r.keep == Some((f, true)) && r.next == Next::Again
            &&& t == "disable"@ ==> after == control::switched(
                s,
                seq![control::feature_name(f)],
                false,
            ).0 && r.keep == Some((f, false)) && r.next == Next::Again
            &&& t != "enable"@ && t != "disable"@ ==> after == s && r.keep is None
            &&& t == "q"@ || t == "exit"@ || t == "quit"@ ==> r.next == Next::Leave(0)
            &&& t == "clear-file"@ ==> (r.next == Next::ClearFile <==> f == Feature::Logging || f
                == Feature::History)
            &&& t != "q"@ && t != "exit"@ && t != "quit"@ && t != "clear-file"@ ==> r.next
                == Next::Again
            &&& t == "status"@ && f == Feature::Logging ==> r.out == (if s.logging {
                "    ! on\n"@
            } else {
                "    ! off\n"@
            })
            &&& t == "status"@ && f == Feature::Shit ==> r.out == (if s.shit {
                "    ! on\n"@
            } else {
                "    ! off\n"@
            })
            &&& t == "status"@ && f == Feature::History ==> r.out == (if s.history {
                "    ! on\n"@
            } else {
                "    ! off\n"@
            })
            &&& t == "status"@ && f == Feature::Autosuggest ==> r.out == (if s.autosuggest {
                "    ! on\n"@
            } else {
                "    ! off\n"@
            })
            &&& t.len() == 0 ==> r.out == Seq::<char>::empty()
        }),
{
    lemma_names();
    law_features_are_switched(s, true);
    law_features_are_switched(s, false);
}

/// A file is deleted on `y` or the enter key, kept on `n`, and asked about again
/// otherwise.
pub proof fn law_deleting_is_confirmed(b: u8)
    ensures
        b == 'y' as u8 || b == 'Y' as u8 || b == 13 || b == 10 ==> control::clearing(b) == Some(
            (true, "\n    ! cleared\n"@),
        ),
        b == 'n' as u8 || b == 'N' as u8 ==> control::clearing(b) == Some(
            (false, "\n    ! cancelled\n"@),
        ),
        b != 'y' as u8 && b != 'Y' as u8 && b != 13 && b != 10 && b != 'n' as u8 && b != 'N' as u8
            ==> control::clearing(b) is None,
{
}

// ---------------------------------------------------------------------------
// Processes
// ---------------------------------------------------------------------------

/// A process that ends by itself gives its own exit code, and one that a signal ends
/// 128 and the number of the signal.
pub proof fn law_exit_codes(c: i32, signal: Option<i32>, n: i32)
    ensures
        shell::exit_code(Some(c), signal) == c,
        shell::exit_code(None, Some(n)) == 128 + n,
        shell::exit_code(None, None) == 1,
{
}

/// A process has ended where it exited with any code, or a signal ended it; it has
/// not where it was only stopped, or the answer is about another process.
pub proof fn law_which_processes_have_ended(pid: u32, code: i32, signal: i32, other: i32)
    requires
        pid <= i32::MAX,
        0 <= code <= 255,
        0 < signal <= 64,
        other != pid,
    ensures
        shell::ended(pid, WaitReply { pid: pid as i32, status: (code * 256) as i32 }),
        shell::ended(pid, WaitReply { pid: pid as i32, status: signal }),
        !shell::ended(pid, WaitReply { pid: pid as i32, status: (signal * 256 + 0x7f) as i32 }),
        !shell::ended(pid, WaitReply { pid: other, status: (code * 256) as i32 }),
{
    let a: i32 = (code * 256) as i32;
    assert(a & 0x7f == 0) by (bit_vector)
        requires
            0 <= code <= 255,
            a == code * 256,
    ;
    assert(signal & 0x7f == signal) by (bit_vector)
        requires
            0 < signal <= 64,
    ;
    let b: i32 = (signal * 256 + 0x7f) as i32;
    assert(b & 0x7f == 0x7f) by (bit_vector)
        requires
            0 < signal <= 64,
            b == signal * 256 + 0x7f,
    ;
}

/// Where a pipeline of `n` stages is, once so much of it went well.
pub open spec fn progress(n: int, k: int, last: Reply) -> PipelinePhase {
    if k < n - 1 {
        PipelinePhase::MakePipe(k as usize)
    } else if k == n - 1 {
        PipelinePhase::Prepare
    } else if k < 2 * n {
        PipelinePhase::Start((k - n) as usize)
    } else if k == 2 * n {
        PipelinePhase::Close(None)
    } else if k <= 3 * n {
        PipelinePhase::Wait((k - 2 * n - 1) as usize)
    } else {
        PipelinePhase::Restore(
            match last {
                Reply::Code(c) => c,
                Reply::Done => 0,
                Reply::Failed(_) => 1,
            },
        )
    }
}

/// A pipeline makes all its pipes, hands the terminal over, starts its stages from the
/// first to the last, closes the pipes, waits for the stages in the same order, and takes
/// the terminal back. Its exit code is that of the last stage.
pub proof fn law_course_of_a_pipeline(n: nat, replies: Seq<Reply>)
    requires
        2 <= n <= usize::MAX,
        replies.len() <= 3 * n + 1,
        forall|k: int| 0 <= k < replies.len() ==> !(#[trigger] replies[k] is Failed),
    ensures
        process::pipeline_after(n, replies) == progress(
            n as int,
            replies.len() as int,
            if replies.len() > 0 {
                replies.last()
            } else {
                Reply::Done
            },
        ),
    decreases replies.len(),
{
    if replies.len() > 0 {
        let r = replies.drop_last();
        assert forall|k: int| 0 <= k < r.len() implies !(#[trigger] r[k] is Failed) by {
            assert(r[k] == replies[k]);
        }
        law_course_of_a_pipeline(n, r);
        assert(!(replies[replies.len() - 1] is Failed));
    }
}

/// A program that is found is arranged, given the terminal, started and waited for;
/// then the terminal is taken back, and its exit code is that of the program.
pub proof fn law_course_of_a_program(code: i32)
    ensures
        process::after_program(ProgramPhase::Find, Reply::Done) == ProgramPhase::Arrange,
        process::after_program(ProgramPhase::Arrange, Reply::Done) == ProgramPhase::Prepare,
        process::after_program(ProgramPhase::Prepare, Reply::Done) == ProgramPhase::Start,
        process::after_program(ProgramPhase::Start, Reply::Done) == ProgramPhase::Wait,
        process::after_program(ProgramPhase::Wait, Reply::Code(code)) == ProgramPhase::Restore(code),
        process::after_program(ProgramPhase::Restore(code), Reply::Done) == ProgramPhase::Over(code),
{
}

/// The line that keeps a feature in a settings file.
pub proof fn law_features_are_kept(on: bool)
    ensures
        ({
            let kept = |f: Feature|
                config::with_switch(
                    Seq::empty(),
                    settings::key_of(control::switch_of(f)),
                    on,
                );
            let state = if on {
                "on"@
            } else {
                "off"@
            };
            &&& kept(Feature::Logging) == "log"@ + seq![' '] + state + seq!['\n']
            &&& kept(Feature::Shit) == "shit"@ + seq![' '] + state + seq!['\n']
            &&& kept(Feature::History) == "history"@ + seq![' '] + state + seq!['\n']
            &&& kept(Feature::Autosuggest) == "auto-suggestion"@ + seq![' '] + state + seq!['\n']
        }),
{
    reveal_strlit(" ");
    assert(" "@ =~= seq![' ']);
    assert(text::lines_of(Seq::empty()) =~= Seq::<Seq<char>>::empty());
    let none = Seq::<char>::empty();
    assert forall|line: Seq<char>| #[trigger] config::with_line(none, line) == line + seq!['\n'] by {
        assert(none + line + seq!['\n'] =~= line + seq!['\n']);
    }
}

/// A file that has no line for a setting gets one at its end, on a line of its own.
pub proof fn law_lines_are_added(content: Seq<char>, line: Seq<char>)
    ensures
        config::with_line(Seq::empty(), line) == line + seq!['\n'],
        config::with_line(content.push('\n'), line) == content + seq!['\n'] + line + seq!['\n'],
        content.len() > 0 && content.last() != '\n' ==> config::with_line(content, line) == content
            + seq!['\n'] + line + seq!['\n'],
{
    assert(config::with_line(Seq::empty(), line) =~= line + seq!['\n']);
    assert(content.push('\n').last() == '\n');
    assert(config::with_line(content.push('\n'), line) =~= content + seq!['\n'] + line + seq!['\n']);
    if content.len() > 0 && content.last() != '\n' {
        assert(config::with_line(content, line) =~= content + seq!['\n'] + line + seq!['\n']);
    }
}

/// Only the lines that fit are replaced or taken out, and the others stay in order.
pub proof fn law_other_lines_stay(ls: Seq<Seq<char>>, p: PatternV, line: Seq<char>, k: int)
    requires
        0 <= k < ls.len(),
    ensures
        config::replaced(ls, p, line).len() == ls.len(),
        config::replaced(ls, p, line)[k] == (if config::fits(p, ls[k]) {
            line
        } else {
            ls[k]
        }),
        config::not_fitting(ls, p) == ls.filter(|l: Seq<char>| !config::fits(p, l)),
{
    lemma_not_fitting(ls, p);
}

proof fn lemma_not_fitting(ls: Seq<Seq<char>>, p: PatternV)
    ensures
        config::not_fitting(ls, p) == ls.filter(|l: Seq<char>| !config::fits(p, l)),
    decreases ls.len(),
{
    reveal(Seq::filter);
    if ls.len() > 0 {
        lemma_not_fitting(ls.drop_last(), p);
    }
}

/// The commands of the prompt are asked for from its first line to its last, and in a
/// line from the left.
pub proof fn law_prompt_asks_in_order(
    ls: Seq<Seq<Seq<char>>>,
    args: Seq<Seq<char>>,
    a: Seq<char>,
    cmd: Seq<char>,
    b: Seq<char>,
)
    requires
        forall|k: int| 0 <= k < a.len() ==> #[trigger] a[k] != '$',
        forall|k: int| 0 <= k < b.len() ==> #[trigger] b[k] != '$',
        meaning::balanced(cmd),
    ensures
        config::commands_of(ls.push(args.push(a + seq!['$', '('] + cmd + seq![')'] + b)))
            == config::commands_of(ls.push(args)).push(cmd),
        config::commands_of(ls.push(args.push(a))) == config::commands_of(ls.push(args)),
        config::commands_of(Seq::empty()) == Seq::<Seq<char>>::empty(),
{
    let w = a + seq!['$', '('] + cmd + seq![')'] + b;
    law_output_is_put_in(a, cmd, b, Seq::empty(), Seq::empty());
    assert(args.push(w).drop_last() =~= args);
    assert(args.push(a).drop_last() =~= args);
    assert(ls.push(args.push(w)).drop_last() =~= ls);
    assert(ls.push(args.push(a)).drop_last() =~= ls);
    assert(ls.push(args).drop_last() =~= ls);
    let none = Seq::<Seq<char>>::empty();
    lemma_to_command(a, 0, a.len() as int, Seq::empty(), none, none);
    let rest = config::commands_of(ls);
    assert(rest + (config::line_commands(args) + seq![cmd]) =~= (rest + config::line_commands(
        args,
    )).push(cmd));
    assert(config::line_commands(args) + none =~= config::line_commands(args));
}

/// The prompt of the settings is shown where it is not empty, and else the usual one.
pub proof fn law_which_prompt_is_shown(
    c: ConfigV,
    ps1: Option<Seq<char>>,
    f: prompt::PromptFacts,
    s: ShellV,
    answers: Seq<Seq<char>>,
)
    ensures
        ({
            let own = prompt::prompt_of(
                config::prompt_text(c.prompt_lines, 0, Seq::empty(), answers),
                f,
                s,
            );
            let usual = config::shown_prompt(None, ps1, f, s, answers);
            &&& own.len() > 0 ==> config::shown_prompt(Some(c), ps1, f, s, answers) == own
            &&& own.len() == 0 ==> config::shown_prompt(Some(c), ps1, f, s, answers) == usual
            &&& usual == prompt::prompt_of(prompt::description(ps1), f, s)
        }),
{
}

/// Of a file of two lines, those that fit are replaced or taken out, and the other keeps
/// its place.
pub proof fn law_lines_of_a_file(a: Seq<char>, b: Seq<char>, p: PatternV, line: Seq<char>)
    requires
        !a.contains('\n') && !b.contains('\n'),
        a.len() == 0 || a.last() != '\r',
        b.len() > 0,
        line.len() > 0,
        line.last() != '\n',
        b.last() != '\n',
    ensures
        ({
            let content = a + seq!['\n'] + b;
            let without = config::without_lines(content, p);
            let with = config::with_line_set(content, p, line);
            &&& config::fits(p, a) && !config::fits(p, b) ==> without == b && with == line + seq![
                '\n',
            ] + b + seq!['\n']
            &&& !config::fits(p, a) && config::fits(p, b) ==> without == a && with == a + seq!['\n']
                + line + seq!['\n']
            &&& config::fits(p, a) && config::fits(p, b) ==> without == Seq::<char>::empty()
            &&& !config::fits(p, a) && !config::fits(p, b) ==> without == content && with == content
                + seq!['\n'] + line + seq!['\n']
        }),
{
    let content = a + seq!['\n'] + b;
    let ls = seq![a, b];
    wording::law_lines(a, b);
    wording::law_lines(b, Seq::empty());
    assert(seq![a] + seq![b] =~= ls);
    assert(text::lines_of(content) == ls);
    reveal_strlit("\n");
    let feed = "\n"@;
    assert(feed =~= seq!['\n']);
    assert(ls.drop_last() =~= seq![a]);
    assert(seq![a].drop_last() =~= Seq::empty());
    let none = Seq::<Seq<char>>::empty();
    assert(config::not_fitting(none, p) =~= none);
    assert(seq![a].last() == a);
    assert(config::not_fitting(seq![a], p) =~= (if config::fits(p, a) {
        none
    } else {
        seq![a]
    }));
    assert(none.push(b) =~= seq![b]);
    assert(seq![a].push(b) =~= ls);
    wording::law_joining(seq![a], b, feed);
    wording::law_joining(none, a, feed);
    wording::law_joining(none, b, feed);
    assert(ls[0] == a && ls[1] == b);
    if config::fits(p, a) || config::fits(p, b) {
        assert(config::any_fits(p, ls));
        let x = if config::fits(p, a) {
            line
        } else {
            a
        };
        let y = if config::fits(p, b) {
            line
        } else {
            b
        };
        assert(config::replaced(ls, p, line) =~= seq![x].push(y));
        wording::law_joining(seq![x], y, feed);
        wording::law_joining(none, x, feed);
        let j = x + feed + y;
        assert(j.last() == y.last());
        assert(j.push('\n') =~= x + seq!['\n'] + y + seq!['\n']);
    } else {
        assert(!config::any_fits(p, ls));
        assert(content.last() == b.last());
        assert(config::with_line(content, line) =~= content + seq!['\n'] + line + seq!['\n']);
    }
}

} // verus!
