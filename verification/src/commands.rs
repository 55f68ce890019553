//! What holds of commands: what the builtin ones ask for, where programs are
//! looked for, what redirects do, and how a line is run.

use vstd::prelude::*;
use vstd::string::*;

use crate::alias;
use crate::builtins;
use crate::builtins::{AliasEventV, CallV, RmPlanV, RmStepV};
use crate::config;
use crate::exec;
use crate::exec::{
    DescriptorActionV, Limit, LinePlanV, PipelinePlan, RedirectActionV, RequestV,
    Waited,
};
use crate::grammar;
use crate::lexing;
use crate::lexing::Item;
use crate::meaning;
use crate::numbers;
use crate::order;
use crate::parser::{NodeV, RedirectKind, RedirectV, SimpleV};
use crate::process;
use crate::process::{BuiltinPhase, Reply};
use crate::shell::ShellV;
use crate::text;
use crate::token::Tok;

verus! {

// ---------------------------------------------------------------------------
// Lines
// ---------------------------------------------------------------------------

/// Whether none of the words at the start of a command is an alias.
pub open spec fn free_of_aliases(ts: Seq<Tok>, aliases: Map<Seq<char>, Seq<char>>) -> bool {
    forall|k: int|
        0 <= k < ts.len() ==> !(#[trigger] ts[k] matches Tok::Word(w) && aliases.dom().contains(w))
}

/// A line on which trees are written, without white space around it, is run as these
/// trees.
pub proof fn law_written_lines_are_run(
    items: Seq<(Seq<char>, Item)>,
    ns: Seq<NodeV>,
    aliases: Map<Seq<char>, Seq<char>>,
)
    requires
        lexing::items_ok(items),
        grammar::trees_ok(ns),
        ns.len() > 0,
        lexing::tokens(items) == grammar::written_list(ns),
        free_of_aliases(lexing::tokens(items), aliases),
        lexing::tokens(items).len() <= usize::MAX,
        lexing::line_of(items).len() > 0,
        !text::white_space(lexing::line_of(items)[0]),
        !text::white_space(lexing::line_of(items).last()),
        lexing::line_of(items)[0] != '#',
    ensures
        exec::plan_for(lexing::line_of(items), aliases) == LinePlanV::Run(ns),
{
    let line = lexing::line_of(items);
    let ts = lexing::tokens(items);
    lexing::law_written_tokens_are_read_back(items);
    grammar::law_written_trees_are_read_back(ns);
    assert(text::trimmed_start(line) == line);
    assert(text::trimmed(line) == line);
    alias::law_without_aliases_unchanged(ts, aliases);
    if ts.len() == 0 {
        assert(items.len() == 0);
        assert(lexing::line_of(items).len() == 0);
    }
}

/// A command gives its own exit code, once it has been run; before it is, it is
/// asked whether the user wants to stop, and then it is run.
pub proof fn law_commands_are_run(n: NodeV, code: i32, more: Seq<i32>)
    requires
        n is Simple || n is Pipeline,
    ensures
        exec::walked(n, Seq::empty(), 0, None).request == RequestV::Interrupted,
        exec::walked(n, seq![0i32], 0, None).request == RequestV::Run(n),
        exec::walked(n, seq![0i32, code] + more, 0, None).request == RequestV::Done(code),
        code != 0 ==> exec::walked(n, seq![code] + more, 0, None).request == RequestV::Done(130),
{
    let r = seq![0i32, code] + more;
    assert(r[0] == 0 && r[1] == code);
    let q = seq![code] + more;
    assert(q[0] == code);
}

/// A command without words is only its redirects; one whose first word is that of a
/// builtin command is carried out by the shell, and any other is a program.
pub proof fn law_way_of_a_command(c: SimpleV, shit: bool)
    ensures
        c.args.len() == 0 ==> exec::way_of(c, shit) == exec::Way::RedirectOnly,
        c.args.len() > 0 && builtin_names().contains(c.args[0]) ==> exec::way_of(c, shit)
            == exec::Way::Builtin,
        c.args.len() > 0 && c.args[0] == "shit"@ && shit ==> exec::way_of(c, shit)
            == exec::Way::Builtin,
        c.args.len() > 0 && !builtin_names().contains(c.args[0]) && !(c.args[0] == "shit"@ && shit)
            ==> exec::way_of(c, shit) == exec::Way::External,
{
    if c.args.len() > 0 {
        lemma_names(c.args[0], shit);
    }
}

// ---------------------------------------------------------------------------
// Builtin commands
// ---------------------------------------------------------------------------

/// The names of the commands that a shell always carries out itself.
pub open spec fn builtin_names() -> Seq<Seq<char>> {
    seq![
        "exit"@,
        "cd"@,
        "pwd"@,
        "echo"@,
        "type"@,
        "export"@,
        "true"@,
        "false"@,
        "rm"@,
        "source"@,
        "."@,
        "alias"@,
        "unalias"@,
        "add_path"@,
        "path"@,
        "btshctl"@,
        "timeout"@,
    ]
}

proof fn lemma_names(w: Seq<char>, shit: bool)
    ensures
        builtins::builtin(w, shit) <==> builtin_names().contains(w) || (w == "shit"@ && shit),
{
    let ns = builtin_names();
    assert(ns[0] == "exit"@ && ns[1] == "cd"@ && ns[2] == "pwd"@ && ns[3] == "echo"@ && ns[4]
        == "type"@ && ns[5] == "export"@ && ns[6] == "true"@ && ns[7] == "false"@ && ns[8] == "rm"@
        && ns[9] == "source"@ && ns[10] == "."@ && ns[11] == "alias"@ && ns[12] == "unalias"@
        && ns[13] == "add_path"@ && ns[14] == "path"@ && ns[15] == "btshctl"@ && ns[16]
        == "timeout"@);
}

/// The names are all different, as their lengths and letters show.
proof fn lemma_distinct()
    ensures
        "exit"@.len() == 4 && "exit"@[0] == 'e' && "exit"@[1] == 'x',
        "cd"@.len() == 2 && "cd"@[0] == 'c',
        "pwd"@.len() == 3,
        "echo"@.len() == 4 && "echo"@[0] == 'e' && "echo"@[1] == 'c',
        "type"@.len() == 4 && "type"@[0] == 't' && "type"@[1] == 'y',
        "export"@.len() == 6 && "export"@[0] == 'e',
        "true"@.len() == 4 && "true"@[0] == 't' && "true"@[1] == 'r',
        "false"@.len() == 5 && "false"@[0] == 'f',
        "rm"@.len() == 2 && "rm"@[0] == 'r',
        "source"@.len() == 6 && "source"@[0] == 's',
        "."@.len() == 1,
        "alias"@.len() == 5 && "alias"@[0] == 'a',
        "unalias"@.len() == 7 && "unalias"@[0] == 'u',
        "add_path"@.len() == 8,
        "path"@.len() == 4 && "path"@[0] == 'p',
        "btshctl"@.len() == 7 && "btshctl"@[0] == 'b',
        "timeout"@.len() == 7 && "timeout"@[0] == 't',
        "shit"@.len() == 4 && "shit"@[0] == 's',
{
    reveal_strlit("exit");
    reveal_strlit("cd");
    reveal_strlit("pwd");
    reveal_strlit("echo");
    reveal_strlit("type");
    reveal_strlit("export");
    reveal_strlit("true");
    reveal_strlit("false");
    reveal_strlit("rm");
    reveal_strlit("source");
    reveal_strlit(".");
    reveal_strlit("alias");
    reveal_strlit("unalias");
    reveal_strlit("add_path");
    reveal_strlit("path");
    reveal_strlit("btshctl");
    reveal_strlit("timeout");
    reveal_strlit("shit");
}

/// What each builtin command asks for, whatever its arguments are.
pub proof fn law_builtin_commands(rest: Seq<Seq<char>>, s: ShellV)
    ensures
        ({
            let call = |name: Seq<char>| builtins::call_of(seq![name] + rest, s);
            &&& call("pwd"@) == CallV::PrintDir
            &&& call("type"@) == CallV::Type(rest)
            &&& call("source"@) == CallV::Source
            &&& call("."@) == CallV::Source
            &&& call("timeout"@) == CallV::Timeout
            &&& call("shit"@) == CallV::Shit
            &&& call("btshctl"@) == CallV::Control
            &&& call("rm"@) == CallV::Remove
            &&& call("alias"@) == CallV::Alias
            &&& call("unalias"@) == CallV::Unalias
            &&& call("add_path"@) == CallV::AddPath(rest)
            &&& call("path"@) == CallV::AddPath(rest)
            &&& call("true"@) == CallV::Code(0)
            &&& call("false"@) == CallV::Code(1)
        }),
{
    lemma_distinct();
    assert forall|name: Seq<char>| #[trigger] (seq![name] + rest)[0] == name && (seq![name]
        + rest).skip(1) == rest by {
        assert((seq![name] + rest).skip(1) =~= rest);
    }
}

/// `cd` goes to the directory that is named, and back to the one before with `-`;
/// without a name it goes home.
pub proof fn law_cd(dir: Seq<char>, rest: Seq<Seq<char>>, s: ShellV, home: Option<Seq<char>>)
    ensures
        builtins::call_of(seq!["cd"@], s) == CallV::ChangeDir("~"@),
        builtins::call_of(seq!["cd"@, "-"@] + rest, s) == CallV::ChangeBack,
        dir != "-"@ ==> builtins::call_of(seq!["cd"@, dir] + rest, s) == CallV::ChangeDir(dir),
        home matches Some(h) ==> builtins::cd_to("~"@, home) == h && builtins::cd_to(
            seq!['~', '/'] + dir,
            home,
        ) == h + seq!['/'] + dir,
        dir.len() == 0 || dir[0] != '~' ==> builtins::cd_to(dir, home) == dir,
        dir.len() >= 2 && dir[1] != '/' ==> builtins::cd_to(dir, home) == dir,
{
    lemma_distinct();
    let a = seq!["cd"@, "-"@] + rest;
    let b = seq!["cd"@, dir] + rest;
    assert(a[0] == "cd"@ && a[1] == "-"@);
    assert(b[0] == "cd"@ && b[1] == dir);
    assert(seq!["cd"@][0] == "cd"@);
    reveal_strlit("~");
    reveal_strlit("~/");
    reveal_strlit("/");
    assert("/"@ =~= seq!['/']);
    let t = seq!['~', '/'] + dir;
    assert(t.take(2) =~= "~/"@);
    assert(t.skip(2) =~= dir);
    assert(t.len() >= 2);
    assert("~"@.len() == 1 && "~"@[0] == '~');
    if dir.len() >= 2 {
        assert(dir.take(2)[0] == dir[0] && dir.take(2)[1] == dir[1]);
        assert("~/"@[0] == '~' && "~/"@[1] == '/');
    }
}

/// `exit` ends with the number that it is given, and with the last exit code where it
/// is given none, or something else.
pub proof fn law_exit(n: int, w: Seq<char>, rest: Seq<Seq<char>>, s: ShellV)
    ensures
        builtins::call_of(seq!["exit"@], s) == CallV::Exit(s.last_exit as int),
        i32::MIN <= n <= i32::MAX ==> builtins::call_of(
            seq!["exit"@, numbers::decimal(n)] + rest,
            s,
        ) == CallV::Exit(n),
        w.len() > 0 && !('0' <= w[0] <= '9') && w[0] != '-' && w[0] != '+'
            ==> builtins::call_of(seq!["exit"@, w] + rest, s) == CallV::Exit(s.last_exit as int),
{
    lemma_distinct();
    numbers::law_decimal_read_back(n);
    let a = seq!["exit"@, numbers::decimal(n)] + rest;
    assert(a[0] == "exit"@ && a[1] == numbers::decimal(n));
    let b = seq!["exit"@, w] + rest;
    assert(b[0] == "exit"@ && b[1] == w);
    assert(seq!["exit"@][0] == "exit"@);
    if w.len() > 0 && !('0' <= w[0] <= '9') {
        assert(!text::ascii_digit(w[0]));
    }
}

proof fn lemma_joined(items: Seq<Seq<char>>)
    ensures
        text::joined(items, " "@) == meaning::spaced(items),
    decreases items.len(),
{
    reveal_strlit(" ");
    assert(" "@ =~= seq![' ']);
    if items.len() > 1 {
        lemma_joined(items.drop_last());
    }
}

/// `echo` shows its arguments with a space between each two, and ends the line.
pub proof fn law_echo(rest: Seq<Seq<char>>, s: ShellV)
    ensures
        builtins::call_of(seq!["echo"@] + rest, s) == CallV::Echo(
            meaning::spaced(rest) + seq!['\n'],
        ),
{
    lemma_distinct();
    let a = seq!["echo"@] + rest;
    assert(a[0] == "echo"@);
    assert(a.skip(1) =~= rest);
    lemma_joined(rest);
    reveal_strlit("\n");
    assert("\n"@ =~= seq!['\n']);
}

proof fn lemma_exports(args: Seq<Seq<char>>, k: int, pairs: Seq<(Seq<char>, Seq<char>)>, acc: Seq<(Seq<char>, Seq<char>)>)
    requires
        0 <= k,
        args.len() == k + pairs.len(),
        forall|j: int|
            0 <= j < pairs.len() ==> args[k + j] == (#[trigger] pairs[j]).0 + seq!['='] + pairs[j].1
                && !pairs[j].0.contains('='),
    ensures
        builtins::exports(args, k, acc) == acc + pairs,
    decreases pairs.len(),
{
    if pairs.len() > 0 {
        let p = pairs[0];
        let rest = pairs.drop_first();
        assert(args[k + 0] == p.0 + seq!['='] + p.1);
        crate::settings::lemma_parted_first(p.0, p.1, '=');
        assert forall|j: int| 0 <= j < rest.len() implies args[k + 1 + j] == (#[trigger] rest[j]).0
            + seq!['='] + rest[j].1 && !rest[j].0.contains('=') by {
            assert(args[k + (j + 1)] == pairs[j + 1].0 + seq!['='] + pairs[j + 1].1);
        }
        lemma_exports(args, k + 1, rest, acc.push(p));
        assert(acc.push(p) + rest =~= acc + pairs);
    } else {
        assert(acc + pairs =~= acc);
    }
}

/// `export` sets each name before a `=` to what stands behind it.
pub proof fn law_export(pairs: Seq<(Seq<char>, Seq<char>)>, s: ShellV)
    requires
        forall|j: int| 0 <= j < pairs.len() ==> !(#[trigger] pairs[j]).0.contains('='),
    ensures
        builtins::call_of(
            seq!["export"@] + Seq::new(
                pairs.len(),
                |j: int| pairs[j].0 + seq!['='] + pairs[j].1,
            ),
            s,
        ) == CallV::Export(pairs),
{
    lemma_distinct();
    let tail = Seq::new(pairs.len(), |j: int| pairs[j].0 + seq!['='] + pairs[j].1);
    let args = seq!["export"@] + tail;
    assert(args[0] == "export"@);
    assert forall|j: int| 0 <= j < pairs.len() implies args[1 + j] == (#[trigger] pairs[j]).0 + seq![
        '=',
    ] + pairs[j].1 && !pairs[j].0.contains('=') by {
        assert(args[1 + j] == tail[j]);
    }
    lemma_exports(args, 1, pairs, Seq::empty());
    assert(Seq::<(Seq<char>, Seq<char>)>::empty() + pairs =~= pairs);
}

/// `type` says of a builtin command that it is one, of a program where it is, and of
/// any other name that it is not found.
pub proof fn law_type(name: Seq<char>, shit: bool, file: Seq<char>)
    ensures
        builtin_names().contains(name) ==> builtins::type_line(name, shit, None) == (
            name + " is a shell builtin\n"@,
            true,
        ) && builtins::type_line(name, shit, Some(file)) == (
            name + " is a shell builtin\n"@,
            true,
        ),
        !builtin_names().contains(name) && name != "shit"@ ==> builtins::type_line(
            name,
            shit,
            Some(file),
        ) == (name + " is "@ + file + "\n"@, true) && builtins::type_line(name, shit, None) == (
            "btsh: type: "@ + name + ": not found\n"@,
            false,
        ),
{
    lemma_names(name, shit);
}

// ---------------------------------------------------------------------------
// Aliases
// ---------------------------------------------------------------------------

/// `alias` with a name and a value sets it and keeps it, with a name alone shows it,
/// and says so where there is none. Nothing else changes.
pub proof fn law_alias(name: Seq<char>, value: Seq<char>, aliases: Map<Seq<char>, Seq<char>>)
    requires
        !name.contains('='),
    ensures
        builtins::aliased(
            seq!["alias"@, name + seq!['='] + value],
            1,
            aliases,
            Seq::empty(),
        ) == (aliases.insert(name, value), seq![AliasEventV::Keep(name, value)]),
        aliases.dom().contains(name) ==> ({
            let (after, es) = builtins::aliased(seq!["alias"@, name], 1, aliases, Seq::empty());
            after == aliases && es.len() == 1 && es[0] is Show
        }),
        !aliases.dom().contains(name) ==> builtins::aliased(
            seq!["alias"@, name],
            1,
            aliases,
            Seq::empty(),
        ) == (
            aliases,
            seq![AliasEventV::Missing("btsh: alias: "@ + name + ": not found\n"@)],
        ),
{
    let a = seq!["alias"@, name + seq!['='] + value];
    let b = seq!["alias"@, name];
    crate::settings::lemma_parted_first(name, value, '=');
    assert(a[1] == name + seq!['='] + value);
    assert(b[1] == name);
    let none = Seq::<AliasEventV>::empty();
    let keep = none.push(AliasEventV::Keep(name, value));
    assert(builtins::aliased(a, 2, aliases.insert(name, value), keep) == (
        aliases.insert(name, value),
        keep,
    ));
    assert(keep =~= seq![AliasEventV::Keep(name, value)]);
    let show = none.push(builtins::shown(name, aliases));
    assert(builtins::aliased(b, 2, aliases, show) == (aliases, show));
    let missing = none.push(
        AliasEventV::Missing("btsh: alias: "@ + name + ": not found\n"@),
    );
    assert(builtins::aliased(b, 2, aliases, missing) == (aliases, missing));
    assert(missing =~= seq![AliasEventV::Missing("btsh: alias: "@ + name + ": not found\n"@)]);
}

/// `unalias` takes away what it names; a name that is no alias makes the exit code
/// 1, and `-a` takes all away.
pub proof fn law_unalias(name: Seq<char>, aliases: Map<Seq<char>, Seq<char>>)
    requires
        name != "-a"@,
    ensures
        aliases.dom().contains(name) ==> builtins::unaliased(
            seq!["unalias"@, name],
            1,
            aliases,
            Seq::empty(),
            0,
        ) == (aliases.remove(name), seq![AliasEventV::Forget(name)], 0i32),
        !aliases.dom().contains(name) ==> builtins::unaliased(
            seq!["unalias"@, name],
            1,
            aliases,
            Seq::empty(),
            0,
        ) == (
            aliases,
            seq![AliasEventV::Missing("btsh: unalias: "@ + name + ": not found\n"@)],
            1i32,
        ),
        builtins::unaliased(seq!["unalias"@, "-a"@], 1, aliases, Seq::empty(), 0) == (
            Map::<Seq<char>, Seq<char>>::empty(),
            seq![AliasEventV::ForgetAll],
            0i32,
        ),
{
    let a = seq!["unalias"@, name];
    let b = seq!["unalias"@, "-a"@];
    assert(a[1] == name);
    assert(b[1] == "-a"@);
    let none = Seq::<AliasEventV>::empty();
    let forget = none.push(AliasEventV::Forget(name));
    assert(forget =~= seq![AliasEventV::Forget(name)]);
    let missing = none.push(
        AliasEventV::Missing("btsh: unalias: "@ + name + ": not found\n"@),
    );
    assert(missing =~= seq![AliasEventV::Missing("btsh: unalias: "@ + name + ": not found\n"@)]);
    assert(none.push(AliasEventV::ForgetAll) =~= seq![AliasEventV::ForgetAll]);
    assert(builtins::unaliased(a, 2, aliases.remove(name), forget, 0) == (
        aliases.remove(name),
        forget,
        0i32,
    ));
    assert(builtins::unaliased(a, 2, aliases, missing, 1) == (aliases, missing, 1i32));
}

// ---------------------------------------------------------------------------
// Removing
// ---------------------------------------------------------------------------

/// Whether a word is taken for options: a `-` with letters behind it.
pub open spec fn is_option(w: Seq<char>) -> bool {
    w.len() > 1 && w[0] == '-' && w != "--"@
}

proof fn lemma_rm(args: Seq<Seq<char>>, k: int, p: RmPlanV)
    requires
        0 <= k <= args.len(),
        forall|j: int| k <= j < args.len() ==> #[trigger] args[j] != "--"@,
    ensures
        ({
            let q = builtins::rm_from(args, k, p);
            &&& q.force <==> p.force || exists|j: int|
                k <= j < args.len() && is_option(#[trigger] args[j]) && args[j].skip(1).contains('f')
            &&& q.recursive <==> p.recursive || exists|j: int|
                k <= j < args.len() && is_option(#[trigger] args[j]) && (args[j].skip(1).contains(
                    'r',
                ) || args[j].skip(1).contains('R'))
            &&& q.files == p.files + args.skip(k).filter(|w: Seq<char>| !is_option(w))
        }),
    decreases args.len() - k,
{
    reveal(Seq::filter);
    let keep = |w: Seq<char>| !is_option(w);
    if k < args.len() {
        let w = args[k];
        assert(args[k] != "--"@);
        let next = if is_option(w) {
            builtins::with_options(p, w)
        } else {
            RmPlanV { files: p.files.push(w), ..p }
        };
        lemma_rm(args, k + 1, next);
        lemma_filter_first(args.skip(k), keep);
        assert(args.skip(k).drop_first() =~= args.skip(k + 1));
        assert(args.skip(k)[0] == w);
        let rest = args.skip(k + 1).filter(keep);
        if is_option(w) {
            assert(p.files + args.skip(k).filter(keep) =~= p.files + rest);
        } else {
            assert(p.files.push(w) + rest =~= p.files + args.skip(k).filter(keep));
        }
        assert(builtins::rm_from(args, k, p) == builtins::rm_from(args, k + 1, next));
    } else {
        assert(args.skip(k) =~= Seq::empty());
        assert(args.skip(k).filter(keep) =~= Seq::empty());
        assert(p.files + args.skip(k).filter(keep) =~= p.files);
    }
}

proof fn lemma_filter_first(s: Seq<Seq<char>>, f: spec_fn(Seq<char>) -> bool)
    requires
        s.len() > 0,
    ensures
        s.filter(f) == (if f(s[0]) {
            seq![s[0]]
        } else {
            Seq::empty()
        }) + s.drop_first().filter(f),
    decreases s.len(),
{
    reveal(Seq::filter);
    if s.len() == 1 {
        assert(s.drop_last() =~= Seq::empty());
        assert(s.drop_first() =~= Seq::empty());
        assert(s.drop_last().filter(f) =~= Seq::empty());
        assert(s.drop_first().filter(f) =~= Seq::empty());
        assert(s.last() == s[0]);
        assert(s.filter(f) =~= (if f(s[0]) {
            seq![s[0]]
        } else {
            Seq::empty()
        }) + s.drop_first().filter(f));
    } else {
        lemma_filter_first(s.drop_last(), f);
        assert(s.drop_last().drop_first() =~= s.drop_first().drop_last());
        assert(s.drop_last()[0] == s[0]);
        assert(s.drop_first().last() == s.last());
        assert(s.filter(f) =~= (if f(s[0]) {
            seq![s[0]]
        } else {
            Seq::empty()
        }) + s.drop_first().filter(f));
    }
}

/// `rm` removes the words that are no options, in order. It asks nothing where an
/// option has an `f`, and takes directories where one has an `r` or an `R`.
pub proof fn law_rm_reads_options_and_files(args: Seq<Seq<char>>)
    requires
        args.len() > 0,
        forall|j: int| 1 <= j < args.len() ==> #[trigger] args[j] != "--"@,
    ensures
        ({
            let p = builtins::rm_plan(args);
            &&& p.force <==> exists|j: int|
                1 <= j < args.len() && is_option(#[trigger] args[j]) && args[j].skip(1).contains('f')
            &&& p.recursive <==> exists|j: int|
                1 <= j < args.len() && is_option(#[trigger] args[j]) && (args[j].skip(1).contains(
                    'r',
                ) || args[j].skip(1).contains('R'))
            &&& p.files == args.skip(1).filter(|w: Seq<char>| !is_option(w))
        }),
{
    let p = RmPlanV { force: false, recursive: false, files: Seq::empty() };
    lemma_rm(args, 1, p);
    let keep = |w: Seq<char>| !is_option(w);
    assert(Seq::<Seq<char>>::empty() + args.skip(1).filter(keep) =~= args.skip(1).filter(keep));
}

/// Behind `--` all words are files, whatever they look like.
pub proof fn law_rm_takes_files_behind_two_dashes(files: Seq<Seq<char>>)
    ensures
        builtins::rm_plan(seq!["rm"@, "--"@] + files) == (RmPlanV {
            force: false,
            recursive: false,
            files,
        }),
{
    let args = seq!["rm"@, "--"@] + files;
    assert(args[1] == "--"@);
    assert(args.skip(2) =~= files);
    assert(Seq::<Seq<char>>::empty() + files =~= files);
}

/// A file that is there is asked about where there is a user, unless `rm` is told
/// not to ask. One that is not there is removed by no one. Whoever answers neither yes
/// nor ends the line keeps the file.
pub proof fn law_rm_asks(file: Seq<char>, is_dir: bool, interactive: bool, b: u8)
    ensures
        builtins::rm_step_of(true, file, true, is_dir, interactive) is Remove,
        builtins::rm_step_of(false, file, true, is_dir, true) is Ask,
        builtins::rm_step_of(false, file, true, is_dir, false) is Remove,
        builtins::rm_step_of(false, file, false, is_dir, interactive) == RmStepV::Missing(
            "btsh: rm: "@ + file + ": No such file\n"@,
        ),
        builtins::rm_goes_on(Some(b)).0 <==> b == 'y' as u8 || b == 'Y' as u8 || b == 13 || b == 10,
        builtins::rm_goes_on(None).0,
{
}

// ---------------------------------------------------------------------------
// Files of the shell
// ---------------------------------------------------------------------------

/// The settings and the history stand in fixed places below the home directory.
pub proof fn law_places_of_files(home: Seq<char>)
    requires
        home.len() > 0,
        home.last() != '/',
    ensures
        builtins::config_file_of(home) == home + "/.config/btsh/config"@,
        builtins::history_file_of(Some(home)) == home + "/.local/share/btsh/history.txt"@,
        builtins::history_file_of(None) == "/dev/null"@,
{
    reveal_strlit("/");
    reveal_strlit(".config");
    reveal_strlit("btsh");
    reveal_strlit("config");
    reveal_strlit(".local");
    reveal_strlit("share");
    reveal_strlit("history.txt");
    reveal_strlit("/.config/btsh/config");
    reveal_strlit("/.local/share/btsh/history.txt");
    let a = exec::path_in(home, ".config"@);
    assert(a.last() == 'g');
    let b = exec::path_in(a, "btsh"@);
    assert(b.last() == 'h');
    assert(builtins::config_file_of(home) =~= home + "/.config/btsh/config"@);
    let c = exec::path_in(home, ".local"@);
    assert(c.last() == 'l');
    let d = exec::path_in(c, "share"@);
    assert(d.last() == 'e');
    let e = exec::path_in(d, "btsh"@);
    assert(e.last() == 'h');
    assert(builtins::history_file_of(Some(home)) =~= home + "/.local/share/btsh/history.txt"@);
}

/// `source` reads the file that is named, and the settings with `-d` or `--default`.
pub proof fn law_source_reads(
    file: Seq<char>,
    rest: Seq<Seq<char>>,
    name: Seq<char>,
    home: Option<Seq<char>>,
)
    ensures
        file != "-d"@ && file != "--default"@ ==> builtins::source_of(
            seq![name, file] + rest,
            home,
        ) == Ok::<Seq<char>, (i32, Seq<char>)>(file),
        home matches Some(h) ==> builtins::source_of(seq![name, "-d"@] + rest, home) == Ok::<
            Seq<char>,
            (i32, Seq<char>),
        >(builtins::config_file_of(h)) && builtins::source_of(seq![name, "--default"@] + rest, home)
            == Ok::<Seq<char>, (i32, Seq<char>)>(builtins::config_file_of(h)),
        builtins::source_of(seq![name], home) == Err::<Seq<char>, (i32, Seq<char>)>(
            (1, "btsh: source: missing filename\n"@),
        ),
{
    assert((seq![name, file] + rest)[1] == file);
    assert((seq![name, "-d"@] + rest)[1] == "-d"@);
    assert((seq![name, "--default"@] + rest)[1] == "--default"@);
}

/// Whether a line of a file is run as a command: it is not empty, no comment, and
/// opens no block.
pub open spec fn is_command(line: Seq<char>) -> bool {
    let t = text::trimmed(line);
    t.len() > 0 && t[0] != '#' && t.last() != '{'
}

proof fn lemma_run_lines(a: Seq<Seq<char>>, b: Seq<Seq<char>>, k: int, acc: Seq<Seq<char>>)
    requires
        0 <= k <= a.len(),
        forall|j: int| 0 <= j < a.len() ==> is_command(#[trigger] a[j]),
    ensures
        builtins::lines_to_run(a + b, k, false, acc) == builtins::lines_to_run(
            a + b,
            a.len() as int,
            false,
            acc + a.skip(k),
        ),
    decreases a.len() - k,
{
    if k < a.len() {
        assert((a + b)[k] == a[k]);
        assert(is_command(a[k]));
        lemma_run_lines(a, b, k + 1, acc.push(a[k]));
        assert(acc.push(a[k]) + a.skip(k + 1) =~= acc + a.skip(k));
    } else {
        assert(acc + a.skip(k) =~= acc);
    }
}

proof fn lemma_skip_block(ls: Seq<Seq<char>>, k: int, n: int, acc: Seq<Seq<char>>)
    requires
        0 <= k <= n < ls.len(),
        forall|j: int| k <= j < n ==> text::trimmed(#[trigger] ls[j]) != "}"@,
        text::trimmed(ls[n]) == "}"@,
    ensures
        builtins::lines_to_run(ls, k, true, acc) == builtins::lines_to_run(ls, n + 1, false, acc),
    decreases n - k,
{
    reveal_strlit("}");
    if k < n {
        lemma_skip_block(ls, k + 1, n, acc);
    } else {
        assert("}"@[0] == '}');
    }
}

/// The lines of a file are run in order, without the blocks in braces.
pub proof fn law_source_runs_lines(
    before: Seq<Seq<char>>,
    open: Seq<char>,
    block: Seq<Seq<char>>,
    close: Seq<char>,
    after: Seq<Seq<char>>,
)
    requires
        forall|j: int| 0 <= j < before.len() ==> is_command(#[trigger] before[j]),
        forall|j: int| 0 <= j < after.len() ==> is_command(#[trigger] after[j]),
        text::trimmed(open).len() > 0,
        text::trimmed(open)[0] != '#',
        text::trimmed(open).last() == '{',
        forall|j: int| 0 <= j < block.len() ==> text::trimmed(#[trigger] block[j]) != "}"@,
        text::trimmed(close) == "}"@,
    ensures
        builtins::lines_to_run(
            before + seq![open] + block + seq![close] + after,
            0,
            false,
            Seq::empty(),
        ) == before + after,
        builtins::lines_to_run(before, 0, false, Seq::empty()) == before,
{
    let ls = before + seq![open] + block + seq![close] + after;
    let none = Seq::<Seq<char>>::empty();
    let m = before.len() as int;
    let n = m + 1 + block.len();
    assert(ls =~= before + (seq![open] + block + seq![close] + after));
    lemma_run_lines(before, seq![open] + block + seq![close] + after, 0, none);
    assert(none + before.skip(0) =~= before);
    assert(ls[m] == open);
    assert(ls[n] == close);
    assert forall|j: int| m + 1 <= j < n implies text::trimmed(#[trigger] ls[j]) != "}"@ by {
        assert(ls[j] == block[j - m - 1]);
    }
    lemma_skip_block(ls, m + 1, n, before);
    lemma_run_tail(ls, n + 1, after, before);
    assert(before + none =~= before);
    lemma_run_lines(before, none, 0, none);
}

proof fn lemma_run_tail(ls: Seq<Seq<char>>, k: int, after: Seq<Seq<char>>, acc: Seq<Seq<char>>)
    requires
        0 <= k,
        k + after.len() == ls.len(),
        forall|j: int| 0 <= j < after.len() ==> ls[k + j] == #[trigger] after[j],
        forall|j: int| 0 <= j < after.len() ==> is_command(#[trigger] after[j]),
    ensures
        builtins::lines_to_run(ls, k, false, acc) == acc + after,
    decreases after.len(),
{
    if after.len() > 0 {
        let rest = after.drop_first();
        assert(ls[k + 0] == after[0]);
        assert(is_command(after[0]));
        assert forall|j: int| 0 <= j < rest.len() implies ls[k + 1 + j] == #[trigger] rest[j] by {
            assert(ls[k + (j + 1)] == after[j + 1]);
        }
        assert forall|j: int| 0 <= j < rest.len() implies is_command(#[trigger] rest[j]) by {
            assert(is_command(after[j + 1]));
        }
        lemma_run_tail(ls, k + 1, rest, acc.push(after[0]));
        assert(acc.push(after[0]) + rest =~= acc + after);
    } else {
        assert(acc + after =~= acc);
    }
}

// ---------------------------------------------------------------------------
// Programs
// ---------------------------------------------------------------------------

/// A name with a `/` is looked for as it is. Any other is looked for in the
/// directories of the search path, in order, and the first that holds such a file is
/// taken; where none does, the exit code is 127.
pub proof fn law_programs_are_found(
    name: Seq<char>,
    path: Seq<char>,
    is_file: Seq<bool>,
    k: int,
)
    requires
        is_file.len() == exec::places(name, path).len(),
    ensures
        name.contains('/') ==> exec::places(name, path) == seq![name],
        !name.contains('/') ==> ({
            let dirs = text::pieces(path, ":"@);
            exec::places(name, path).len() == dirs.len() && forall|j: int|
                0 <= j < dirs.len() && (#[trigger] dirs[j]).len() > 0 && dirs[j].last() != '/'
                    ==> exec::places(name, path)[j] == dirs[j] + seq!['/'] + name
        }),
        0 <= k < is_file.len() && is_file[k] && (forall|j: int|
            0 <= j < k ==> !#[trigger] is_file[j]) ==> exec::command_file(name, path, is_file)
            == Ok::<Seq<char>, (i32, Seq<char>)>(exec::places(name, path)[k]),
        (forall|j: int| 0 <= j < is_file.len() ==> !#[trigger] is_file[j]) ==> exec::command_file(
            name,
            path,
            is_file,
        ) == Err::<Seq<char>, (i32, Seq<char>)>(
            (
                127,
                "btsh: "@ + name + (if name.contains('/') {
                    ": No such file"@
                } else {
                    ": command not found"@
                }),
            ),
        ),
{
    reveal_strlit("/");
    assert("/"@ =~= seq!['/']);
    lemma_first_file(exec::places(name, path), is_file, k);
}

proof fn lemma_first_file(ps: Seq<Seq<char>>, is_file: Seq<bool>, k: int)
    requires
        ps.len() == is_file.len(),
    ensures
        0 <= k < is_file.len() && is_file[k] && (forall|j: int|
            0 <= j < k ==> !#[trigger] is_file[j]) ==> exec::first_file(ps, is_file) == Some(ps[k]),
        (forall|j: int| 0 <= j < is_file.len() ==> !#[trigger] is_file[j]) ==> exec::first_file(
            ps,
            is_file,
        ) is None,
    decreases ps.len(),
{
    if ps.len() > 0 {
        let rest = is_file.drop_first();
        lemma_first_file(ps.drop_first(), rest, k - 1);
        if forall|j: int| 0 <= j < is_file.len() ==> !#[trigger] is_file[j] {
            assert(!is_file[0]);
            assert forall|j: int| 0 <= j < rest.len() implies !#[trigger] rest[j] by {
                assert(!is_file[j + 1]);
            }
        }
        if 0 < k < is_file.len() && is_file[k] && (forall|j: int|
            0 <= j < k ==> !#[trigger] is_file[j]) {
            assert(!is_file[0]);
            assert(rest[k - 1] == is_file[k]);
            assert forall|j: int| 0 <= j < k - 1 implies !#[trigger] rest[j] by {
                assert(!is_file[j + 1]);
            }
        }
    }
}

// ---------------------------------------------------------------------------
// Redirects
// ---------------------------------------------------------------------------

/// A redirect does to the descriptor it names, and to no other, what its kind says:
/// reading, writing anew, or writing at the end; and it does the same for a program
/// and for the shell itself. Without a command an append never empties its file.
pub proof fn law_redirects_go_to_files(fd: int, target: Seq<char>, kept: Seq<char>)
    ensures
        ({
            let r = |kind: RedirectKind| RedirectV { fd, kind, target: kept };
            &&& exec::action_of(r(RedirectKind::In), target) == RedirectActionV::Input(target, fd)
            &&& exec::action_of(r(RedirectKind::Out), target) == RedirectActionV::Output(
                target,
                fd,
            )
            &&& exec::action_of(r(RedirectKind::Append), target) == RedirectActionV::Append(
                target,
                fd,
            )
            &&& exec::descriptor_action(r(RedirectKind::In), target) == DescriptorActionV::Read(
                target,
                fd,
            )
            &&& exec::descriptor_action(r(RedirectKind::Out), target) == DescriptorActionV::Write(
                target,
                fd,
            )
            &&& exec::descriptor_action(r(RedirectKind::Append), target)
                == DescriptorActionV::Append(target, fd)
            &&& exec::check_of(r(RedirectKind::In), target) is Read
            &&& exec::check_of(r(RedirectKind::Out), target) is Create
            &&& exec::check_of(r(RedirectKind::Append), target) is Append
            &&& exec::check_of(r(RedirectKind::DupOut), target) is Nothing
            &&& exec::check_of(r(RedirectKind::DupIn), target) is Nothing
            &&& exec::check_of(r(RedirectKind::Close), target) is Nothing
        }),
{
}

/// A descriptor becomes a copy of the one whose number is the target; a target that
/// is no such number is refused.
pub proof fn law_redirects_copy_descriptors(
    fd: int,
    n: int,
    kept: Seq<char>,
    kind: RedirectKind,
    w: Seq<char>,
)
    requires
        kind == RedirectKind::DupOut || kind == RedirectKind::DupIn,
        0 <= n <= i32::MAX,
        w.len() > 0,
        !('0' <= w[0] <= '9'),
        w[0] != '+',
        w[0] != '-',
    ensures
        exec::action_of(RedirectV { fd, kind, target: kept }, numbers::decimal(n))
            == RedirectActionV::Duplicate(n, fd),
        exec::descriptor_action(RedirectV { fd, kind, target: kept }, numbers::decimal(n))
            == DescriptorActionV::Duplicate(n, fd),
        exec::action_of(RedirectV { fd, kind, target: kept }, w) == RedirectActionV::Refuse(
            "btsh: "@ + w + ": invalid file descriptor"@,
        ),
        exec::descriptor_action(RedirectV { fd, kind, target: kept }, w)
            == DescriptorActionV::Refuse("btsh: "@ + w + ": invalid file descriptor"@),
{
    numbers::law_decimal_read_back(n);
    assert(!text::ascii_digit(w[0]));
}

/// Closing one of the standard streams of a program leaves it with nothing to read or
/// write there; the shell closes the descriptor itself.
pub proof fn law_redirects_close(fd: int, target: Seq<char>, kept: Seq<char>)
    ensures
        0 <= fd <= 2 ==> exec::action_of(
            RedirectV { fd, kind: RedirectKind::Close, target: kept },
            target,
        ) == RedirectActionV::Discard(fd),
        fd > 2 ==> exec::action_of(
            RedirectV { fd, kind: RedirectKind::Close, target: kept },
            target,
        ) == RedirectActionV::Ignore,
        exec::descriptor_action(
            RedirectV { fd, kind: RedirectKind::Close, target: kept },
            target,
        ) == DescriptorActionV::Close(fd),
{
}

/// Where a file of a redirect without a command can not be opened, that is said.
pub proof fn law_failed_checks_are_told(fd: int, target: Seq<char>, kept: Seq<char>)
    ensures
        ({
            let told = |kind: RedirectKind, opened: bool|
                exec::check_failure(
                    exec::check_of(RedirectV { fd, kind, target: kept }, target),
                    opened,
                );
            &&& told(RedirectKind::In, false) == Some("btsh: "@ + target + ": No such file"@)
            &&& told(RedirectKind::Out, false) == Some("btsh: "@ + target + ": cannot create"@)
            &&& told(RedirectKind::Append, false) == Some("btsh: "@ + target + ": cannot create"@)
            &&& told(RedirectKind::In, true) is None
            &&& told(RedirectKind::Out, true) is None
            &&& told(RedirectKind::Append, true) is None
            &&& told(RedirectKind::DupOut, false) is None
        }),
{
}

// ---------------------------------------------------------------------------
// Time limits
// ---------------------------------------------------------------------------

/// The unit of a duration is its last letter: seconds, minutes, hours or days, and
/// seconds without one. Other letters are no units.
pub proof fn law_units_of_time(n: Seq<char>, c: char)
    requires
        n.len() > 0,
        '0' <= n.last() <= '9',
    ensures
        exec::duration(n) == Some((n, 1int)),
        exec::duration(n.push('s')) == Some((n, 1int)),
        exec::duration(n.push('m')) == Some((n, 60int)),
        exec::duration(n.push('h')) == Some((n, 60 * 60int)),
        exec::duration(n.push('d')) == Some((n, 24 * 60 * 60int)),
        ('a' <= c <= 'z' || 'A' <= c <= 'Z') && c != 's' && c != 'm' && c != 'h' && c != 'd'
            ==> exec::duration(n.push(c)) is None,
{
    assert(n.push('s').drop_last() =~= n);
    assert(n.push('m').drop_last() =~= n);
    assert(n.push('h').drop_last() =~= n);
    assert(n.push('d').drop_last() =~= n);
}

/// A program that ends in time gives its own exit code. One whose time is up is asked
/// to stop, and stopped where it does not; either way the exit code is 124.
pub proof fn law_time_limit(code: i32)
    ensures
        exec::limit_step(false, Waited::Ended(code)) == Limit::Over(code),
        exec::limit_step(true, Waited::Ended(code)) == Limit::Over(124),
        exec::limit_step(false, Waited::Running(false)) == Limit::Wait(20),
        exec::limit_step(true, Waited::Running(false)) == Limit::Wait(20),
        exec::limit_step(false, Waited::Running(true)) == Limit::AskToStop(500),
        exec::limit_step(true, Waited::Running(true)) == Limit::Stop(124),
        exec::limit_step(false, Waited::Failed) == Limit::Over(1),
        exec::limit_step(true, Waited::Failed) == Limit::Over(124),
{
}

/// A program that is not found gives 127, one that can not be run 126, and one for
/// which there is no process 1.
pub proof fn law_failures_have_codes()
    ensures
        exec::failure_code(exec::StageFailure::NotFound) == 127,
        exec::failure_code(exec::StageFailure::NotRun) == 126,
        exec::failure_code(exec::StageFailure::NoProcess) == 1,
{
}

/// What can not be run with a time limit is told why.
pub proof fn law_time_limits_are_refused(name: Seq<char>, d: Seq<char>, c: Seq<char>, rest: Seq<Seq<char>>)
    ensures
        builtins::limit_refused(seq![name, d, c] + rest, true) is None,
        builtins::limit_refused(seq![name, d, c] + rest, false) == Some(
            "btsh: timeout: invalid duration: "@ + d + "\n"@,
        ),
        builtins::limit_refused(seq![name, d], true) == Some(
            "btsh: timeout: usage: timeout DURATION COMMAND [ARGS...]\n"@,
        ),
        builtins::limit_refused(seq![name], true) is Some,
{
    assert((seq![name, d, c] + rest)[1] == d);
}

/// The exit codes of the commands that can not fail.
pub proof fn law_codes_of_calls(rest: Seq<Seq<char>>, s: ShellV)
    ensures
        builtins::call_code(builtins::call_of(seq!["echo"@] + rest, s)) == Some(0int),
        builtins::call_code(builtins::call_of(seq!["export"@] + rest, s)) == Some(0int),
        builtins::call_code(builtins::call_of(seq!["add_path"@] + rest, s)) == Some(0int),
        builtins::call_code(builtins::call_of(seq!["true"@] + rest, s)) == Some(0int),
        builtins::call_code(builtins::call_of(seq!["false"@] + rest, s)) == Some(1int),
        builtins::call_code(builtins::call_of(seq!["cd"@] + rest, s)) is None,
        builtins::call_code(builtins::call_of(seq!["rm"@] + rest, s)) is None,
{
    law_builtin_commands(rest, s);
    lemma_distinct();
    assert((seq!["echo"@] + rest)[0] == "echo"@);
    assert((seq!["export"@] + rest)[0] == "export"@);
    assert((seq!["cd"@] + rest)[0] == "cd"@);
}

/// What a command says that failed: its name, what it failed on, and why.
pub proof fn law_complaints(command: Seq<char>, subject: Seq<char>, error: Seq<char>)
    ensures
        builtins::complaint(command, Some(subject), error) == "btsh: "@ + command + ": "@ + subject
            + ": "@ + error + "\n"@,
        builtins::complaint(command, None, error) == "btsh: "@ + command + ": "@ + error + "\n"@,
{
    assert(builtins::complaint(command, Some(subject), error) =~= "btsh: "@ + command + ": "@
        + subject + ": "@ + error + "\n"@);
    assert(builtins::complaint(command, None, error) =~= "btsh: "@ + command + ": "@ + error
        + "\n"@);
}

/// A `~` in front of a directory that is added stands for the home directory, and only
/// there. The first directory that is added is the whole list.
pub proof fn law_directories_are_added(dir: Seq<char>, home: Seq<char>)
    ensures
        builtins::at_home(seq!['~'] + dir, home) == home + dir,
        dir.len() == 0 || dir[0] != '~' ==> builtins::at_home(dir, home) == dir,
        builtins::path_with(Seq::empty(), dir) == dir,
{
    assert((seq!['~'] + dir)[0] == '~');
    assert((seq!['~'] + dir).skip(1) =~= dir);
    assert(builtins::path_with(Seq::empty(), dir) =~= dir);
}

/// `alias` alone shows each alias, in order of their names, as it could be entered.
pub proof fn law_alias_shows_all(
    es: Seq<AliasEventV>,
    aliases: Map<Seq<char>, Seq<char>>,
    name: Seq<char>,
)
    requires
        builtins::lists_all(es, aliases),
        aliases.dom().contains(name),
    ensures
        es.len() == aliases.dom().len(),
        es.contains(
            AliasEventV::Show(
                "alias "@ + name + "="@ + config::quoted(aliases[name]) + "\n"@,
            ),
        ),
{
    let names = choose|names: Seq<Seq<char>>|
        #![trigger order::sorted(names)]
        order::sorted(names) && names.no_duplicates() && names.to_set() == aliases.dom()
            && es.len() == names.len() && forall|k: int|
            0 <= k < names.len() ==> #[trigger] es[k] == builtins::shown(names[k], aliases);
    names.unique_seq_to_set();
    assert(names.to_set().contains(name));
    assert(names.contains(name));
    let k = names.index_of(name);
    assert(es[k] == builtins::shown(names[k], aliases));
}

/// The command that is run is the first that its word stands for, or the word itself
/// where that stands for nothing.
pub proof fn law_command_word(name: Seq<char>, first: Seq<char>, rest: Seq<Seq<char>>)
    ensures
        exec::command_name(name, seq![first] + rest) == first,
        exec::command_name(name, Seq::empty()) == name,
{
    assert((seq![first] + rest)[0] == first);
}

/// A line gives the exit code of the last command on it.
pub proof fn law_last_command_gives_code(last: i32, codes: Seq<i32>, c: i32)
    ensures
        exec::line_code(last, codes.push(c)) == c,
        exec::line_code(last, Seq::empty()) == last,
{
}

/// A single command is run without pipes. In a pipeline each stage reads the pipe behind
/// the stage before it and writes the one before the next, and the stages whose names are
/// those of builtin commands are carried out by the shell.
pub proof fn law_stages_of_a_pipeline(plan: PipelinePlan, cmds: Seq<SimpleV>, k: int)
    requires
        exec::plans(plan, cmds, false),
        0 <= k < cmds.len() <= usize::MAX,
        cmds[k].args.len() > 0,
    ensures
        cmds.len() == 1 ==> plan == PipelinePlan::Single(
            if builtin_names().contains(cmds[0].args[0]) {
                exec::Way::Builtin
            } else {
                exec::Way::External
            },
        ),
        cmds.len() > 1 ==> (plan matches PipelinePlan::Stages(v) && v@.len() == cmds.len() && v@[k]
            == (exec::Stage {
            builtin: builtin_names().contains(cmds[k].args[0]),
            read_from: if k == 0 {
                None
            } else {
                Some((k - 1) as usize)
            },
            write_to: if k == cmds.len() - 1 {
                None
            } else {
                Some(k as usize)
            },
        })),
{
    lemma_names(cmds[k].args[0], false);
}

/// The redirects of a builtin command are made one after the other, then it is run, and
/// then the streams are put back; without redirects it is just run.
pub proof fn law_course_of_a_builtin(n: nat, k: usize, c: i32)
    requires
        k + 1 < n,
    ensures
        process::builtin_start(0) == BuiltinPhase::Run,
        process::after_builtin(BuiltinPhase::Run, 0, Reply::Code(c)) == BuiltinPhase::Over(c),
        process::builtin_start(n) == BuiltinPhase::Save,
        process::after_builtin(BuiltinPhase::Save, n, Reply::Done) == BuiltinPhase::Redirect(0),
        process::after_builtin(BuiltinPhase::Redirect(k), n, Reply::Done) == BuiltinPhase::Redirect(
            (k + 1) as usize,
        ),
        n <= usize::MAX ==> process::after_builtin(
            BuiltinPhase::Redirect((n - 1) as usize),
            n,
            Reply::Done,
        ) == BuiltinPhase::Run,
        process::after_builtin(BuiltinPhase::Run, n, Reply::Code(c)) == BuiltinPhase::Restore(c),
        process::after_builtin(BuiltinPhase::Restore(c), n, Reply::Done) == BuiltinPhase::Over(c),
{
}

} // verus!
