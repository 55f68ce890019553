//! The commands that the shell carries out itself.

use vstd::prelude::*;
use vstd::string::*;

use crate::config;
use crate::config::show_alias;
use crate::exec;
use crate::numbers;
use crate::numbers::parse_i32;
use crate::order;
use crate::shell;
use crate::shell::{Shell, ShellV};
use crate::text;
use crate::text::{
    ends_with_char, join, lines, owned, same, split_once, starts_with, starts_with_char, trim,
};

verus! {

/// Whether a command is one that the shell carries out itself. `shit` can be
/// switched off.
pub open spec fn builtin(cmd: Seq<char>, shit: bool) -> bool {
    ||| cmd == "exit"@
    ||| cmd == "cd"@
    ||| cmd == "pwd"@
    ||| cmd == "echo"@
    ||| cmd == "type"@
    ||| cmd == "export"@
    ||| cmd == "true"@
    ||| cmd == "false"@
    ||| cmd == "rm"@
    ||| cmd == "source"@
    ||| cmd == "."@
    ||| cmd == "alias"@
    ||| cmd == "unalias"@
    ||| cmd == "add_path"@
    ||| cmd == "path"@
    ||| cmd == "shit"@ && shit
    ||| cmd == "btshctl"@
    ||| cmd == "timeout"@
}

pub fn is_builtin(cmd: &str, shell: &Shell) -> (r: bool)
    ensures
        r == builtin(cmd@, shell@.shit),
{
    same(cmd, "exit") || same(cmd, "cd") || same(cmd, "pwd") || same(cmd, "echo") || same(
        cmd,
        "type",
    ) || same(cmd, "export") || same(cmd, "true") || same(cmd, "false") || same(cmd, "rm") || same(
        cmd,
        "source",
    ) || same(cmd, ".") || same(cmd, "alias") || same(cmd, "unalias") || same(cmd, "add_path")
        || same(cmd, "path") || (same(cmd, "shit") && shell.shit) || same(cmd, "btshctl") || same(cmd, "timeout")
}

// ---------------------------------------------------------------------------
// Which command it is
// ---------------------------------------------------------------------------

/// What a builtin command asks for.
pub enum Call {
    /// The shell ends with this exit code.
    Exit(i32),
    /// The directory before this one becomes the current one.
    ChangeBack,
    /// This becomes the current directory.
    ChangeDir(String),
    /// The current directory is shown.
    PrintDir,
    /// This is shown.
    Echo(String),
    /// It is shown what each of these names is.
    Type(Vec<String>),
    /// These variables of the environment get these values.
    Export(Vec<(String, String)>),
    /// The lines of a file are run.
    Source,
    /// A command is run with a time limit.
    Timeout,
    /// The command before this one is corrected.
    Shit,
    /// The shell's features are looked after.
    Control,
    /// Files are removed.
    Remove,
    Alias,
    Unalias,
    /// These directories are added to those where programs are looked for.
    AddPath(Vec<String>),
    /// Nothing is done; this is the exit code.
    Code(i32),
}

pub enum CallV {
    Exit(int),
    ChangeBack,
    ChangeDir(Seq<char>),
    PrintDir,
    Echo(Seq<char>),
    Type(Seq<Seq<char>>),
    Export(Seq<(Seq<char>, Seq<char>)>),
    Source,
    Timeout,
    Shit,
    Control,
    Remove,
    Alias,
    Unalias,
    AddPath(Seq<Seq<char>>),
    Code(int),
}

pub open spec fn pairs(v: Seq<(String, String)>) -> Seq<(Seq<char>, Seq<char>)> {
    v.map_values(|p: (String, String)| (p.0@, p.1@))
}

impl View for Call {
    type V = CallV;

    open spec fn view(&self) -> CallV {
        match *self {
            Call::Exit(c) => CallV::Exit(c as int),
            Call::ChangeBack => CallV::ChangeBack,
            Call::ChangeDir(d) => CallV::ChangeDir(d@),
            Call::PrintDir => CallV::PrintDir,
            Call::Echo(s) => CallV::Echo(s@),
            Call::Type(v) => CallV::Type(text::texts(v@)),
            Call::Export(v) => CallV::Export(pairs(v@)),
            Call::Source => CallV::Source,
            Call::Timeout => CallV::Timeout,
            Call::Shit => CallV::Shit,
            Call::Control => CallV::Control,
            Call::Remove => CallV::Remove,
            Call::Alias => CallV::Alias,
            Call::Unalias => CallV::Unalias,
            Call::AddPath(v) => CallV::AddPath(text::texts(v@)),
            Call::Code(c) => CallV::Code(c as int),
        }
    }
}

/// The exit code that `exit` gives: its argument, if that is one, or else that
/// of the last command.
pub open spec fn exit_with(args: Seq<Seq<char>>, last_exit: i32) -> int {
    if args.len() > 1 {
        match numbers::within(
            numbers::signed_value(args[1]),
            i32::MIN as int,
            i32::MAX as int,
        ) {
            Some(n) => n,
            None => last_exit as int,
        }
    } else {
        last_exit as int
    }
}

/// The names and values in the arguments from place `k` on, behind `acc`. An
/// argument without a `=` gives none.
pub open spec fn exports(
    args: Seq<Seq<char>>,
    k: int,
    acc: Seq<(Seq<char>, Seq<char>)>,
) -> Seq<(Seq<char>, Seq<char>)>
    decreases args.len() - k,
{
    if k < 0 || k >= args.len() {
        acc
    } else {
        match text::parted(args[k], '=') {
            Some(p) => exports(args, k + 1, acc.push(p)),
            None => exports(args, k + 1, acc),
        }
    }
}

/// What a builtin command with these arguments, its own name in front, asks
/// for.
pub open spec fn call_of(args: Seq<Seq<char>>, s: ShellV) -> CallV {
    let cmd = args[0];
    if cmd == "exit"@ {
        CallV::Exit(exit_with(args, s.last_exit))
    } else if cmd == "cd"@ {
        if args.len() <= 1 {
            CallV::ChangeDir("~"@)
        } else if args[1] == "-"@ {
            CallV::ChangeBack
        } else {
            CallV::ChangeDir(args[1])
        }
    } else if cmd == "pwd"@ {
        CallV::PrintDir
    } else if cmd == "echo"@ {
        CallV::Echo(text::joined(args.skip(1), " "@) + "\n"@)
    } else if cmd == "type"@ {
        CallV::Type(args.skip(1))
    } else if cmd == "export"@ {
        CallV::Export(exports(args, 1, Seq::empty()))
    } else if cmd == "source"@ || cmd == "."@ {
        CallV::Source
    } else if cmd == "timeout"@ {
        CallV::Timeout
    } else if cmd == "shit"@ {
        CallV::Shit
    } else if cmd == "btshctl"@ {
        CallV::Control
    } else if cmd == "rm"@ {
        CallV::Remove
    } else if cmd == "alias"@ {
        CallV::Alias
    } else if cmd == "unalias"@ {
        CallV::Unalias
    } else if cmd == "add_path"@ || cmd == "path"@ {
        CallV::AddPath(args.skip(1))
    } else if cmd == "true"@ {
        CallV::Code(0)
    } else {
        CallV::Code(1)
    }
}

/// The arguments from place `from` on.
fn rest(args: &Vec<String>, from: usize) -> (r: Vec<String>)
    requires
        from <= args.len(),
    ensures
        text::texts(r@) == text::texts(args@).skip(from as int),
{
    let mut r: Vec<String> = Vec::new();
    let mut i: usize = from;
    while i < args.len()
        invariant
            from <= i <= args.len(),
            r.len() == i - from,
            forall|k: int| 0 <= k < i - from ==> (#[trigger] r@[k])@ == args@[from + k]@,
        decreases args.len() - i,
    {
        r.push(args[i].clone());
        i += 1;
    }
    assert(text::texts(r@) =~= text::texts(args@).skip(from as int));
    r
}

fn exported(args: &Vec<String>) -> (r: Vec<(String, String)>)
    requires
        args.len() > 0,
    ensures
        pairs(r@) == exports(text::texts(args@), 1, Seq::empty()),
{
    let mut r: Vec<(String, String)> = Vec::new();
    let mut i: usize = 1;
    let ghost all = text::texts(args@);
    assert(pairs(r@) =~= Seq::empty());
    while i < args.len()
        invariant
            1 <= i <= args.len(),
            all == text::texts(args@),
            exports(all, i as int, pairs(r@)) == exports(all, 1, Seq::empty()),
        decreases args.len() - i,
    {
        let ghost before = pairs(r@);
        assert(all[i as int] == args@[i as int]@);
        if let Some((n, v)) = split_once(args[i].as_str(), '=') {
            let ghost p = (n@, v@);
            r.push((n, v));
            assert(pairs(r@) =~= before.push(p));
        }
        i += 1;
    }
    r
}

/// What a builtin command with these arguments, its own name in front, asks
/// for.
pub fn exec_builtin(args: &Vec<String>, shell: &Shell) -> (r: Call)
    requires
        args.len() > 0,
    ensures
        r@ == call_of(text::texts(args@), shell@),
{
    let ghost all = text::texts(args@);
    assert(all.len() == args.len());
    let cmd = args[0].as_str();
    assert(all[0] == cmd@);
    if args.len() > 1 {
        assert(all[1] == args@[1]@);
    }
    if same(cmd, "exit") {
        let mut code = shell.last_exit;
        if args.len() > 1 {
            if let Some(n) = parse_i32(args[1].as_str()) {
                code = n;
            }
        }
        Call::Exit(code)
    } else if same(cmd, "cd") {
        if args.len() <= 1 {
            Call::ChangeDir(owned("~"))
        } else if same(args[1].as_str(), "-") {
            Call::ChangeBack
        } else {
            Call::ChangeDir(args[1].clone())
        }
    } else if same(cmd, "pwd") {
        Call::PrintDir
    } else if same(cmd, "echo") {
        let mut s = join(&rest(args, 1), " ");
        s.append("\n");
        Call::Echo(s)
    } else if same(cmd, "type") {
        Call::Type(rest(args, 1))
    } else if same(cmd, "export") {
        Call::Export(exported(args))
    } else if same(cmd, "source") || same(cmd, ".") {
        Call::Source
    } else if same(cmd, "timeout") {
        Call::Timeout
    } else if same(cmd, "shit") {
        Call::Shit
    } else if same(cmd, "btshctl") {
        Call::Control
    } else if same(cmd, "rm") {
        Call::Remove
    } else if same(cmd, "alias") {
        Call::Alias
    } else if same(cmd, "unalias") {
        Call::Unalias
    } else if same(cmd, "add_path") || same(cmd, "path") {
        Call::AddPath(rest(args, 1))
    } else if same(cmd, "true") {
        Call::Code(0)
    } else {
        Call::Code(1)
    }
}

/// The exit code of a call that can not fail. That of the others depends on what
/// comes of them.
pub open spec fn call_code(call: CallV) -> Option<int> {
    match call {
        CallV::Echo(_) => Some(0),
        CallV::Export(_) => Some(0),
        CallV::AddPath(_) => Some(0),
        CallV::Code(c) => Some(c),
        _ => None,
    }
}

pub fn code_of_call(call: &Call) -> (r: Option<i32>)
    ensures
        match r {
            Some(c) => call_code(call@) == Some(c as int),
            None => call_code(call@) is None,
        },
{
    match call {
        Call::Echo(_) => Some(0),
        Call::Export(_) => Some(0),
        Call::AddPath(_) => Some(0),
        Call::Code(c) => Some(*c),
        _ => None,
    }
}

/// The exit code of a command that did its work.
pub const DONE: i32 = 0;

/// What a command says that could not do its work on `subject`, or at all.
pub open spec fn complaint(
    command: Seq<char>,
    subject: Option<Seq<char>>,
    error: Seq<char>,
) -> Seq<char> {
    "btsh: "@ + command + ": "@ + (match subject {
        Some(s) => s + ": "@,
        None => Seq::empty(),
    }) + error + "\n"@
}

/// The exit code of a command that could not do its work, and what it says.
pub fn complain(command: &str, subject: Option<&str>, error: &str) -> (r: (i32, String))
    ensures
        r.0 == 1,
        r.1@ == complaint(
            command@,
            match subject {
                Some(s) => Some(s@),
                None => None,
            },
            error@,
        ),
{
    let mut s = two("btsh: ", command);
    s.append(": ");
    let ghost before = s@;
    if let Some(t) = subject {
        s.append(t);
        s.append(": ");
        assert(s@ =~= before + (t@ + ": "@));
    } else {
        assert(s@ =~= before + Seq::empty());
    }
    s.append(error);
    s.append("\n");
    (1, s)
}

fn two(a: &str, b: &str) -> (r: String)
    ensures
        r@ == a@ + b@,
{
    let mut s = owned(a);
    s.append(b);
    s
}

// ---------------------------------------------------------------------------
// Directories
// ---------------------------------------------------------------------------

/// The directory that `cd` changes to, given the home directory, if it is
/// known.
pub open spec fn cd_to(target: Seq<char>, home: Option<Seq<char>>) -> Seq<char> {
    let h = match home {
        Some(h) => h,
        None => "."@,
    };
    if target == "~"@ {
        h
    } else if text::begins(target, "~/"@) {
        h + "/"@ + target.skip(2)
    } else {
        target
    }
}

pub fn expand_tilde_cd(target: &str, home: &Option<String>) -> (r: String)
    ensures
        r@ == cd_to(target@, shell::opt(*home)),
{
    let h = match home {
        Some(h) => h.as_str(),
        None => ".",
    };
    if same(target, "~") {
        owned(h)
    } else if starts_with(target, "~/") {
        proof {
            reveal_strlit("~/");
        }
        let mut s = two(h, "/");
        s.append(text::skip(target, 2).as_str());
        s
    } else {
        owned(target)
    }
}

/// A directory as it was written, with the home directory for a `~` in front.
pub open spec fn at_home(arg: Seq<char>, home: Seq<char>) -> Seq<char> {
    if arg.len() > 0 && arg[0] == '~' {
        home + arg.skip(1)
    } else {
        arg
    }
}

pub fn home_expanded(arg: &str, home: &str) -> (r: String)
    ensures
        r@ == at_home(arg@, home@),
{
    if starts_with_char(arg, '~') {
        two(home, text::skip(arg, 1).as_str())
    } else {
        owned(arg)
    }
}

/// The list of directories with one more.
pub open spec fn path_with(current: Seq<char>, dir: Seq<char>) -> Seq<char> {
    current + (if current.len() == 0 {
        Seq::empty()
    } else {
        ":"@
    }) + dir
}

/// The list of directories to look for programs in with one more, unless it is
/// among them already.
pub fn extended_path(current: &str, dir: &str, already: bool) -> (r: Option<String>)
    ensures
        shell::opt(r) == (if already {
            None
        } else {
            Some(path_with(current@, dir@))
        }),
{
    if already {
        return None;
    }
    let mut s = owned(current);
    if current.unicode_len() > 0 {
        s.append(":");
    }
    s.append(dir);
    assert(s@ =~= path_with(current@, dir@));
    Some(s)
}

/// A directory that was added is the last that is looked in, and those before
/// stay in their order.
pub proof fn law_added_directory_is_last(current: Seq<char>, dir: Seq<char>)
    requires
        current.len() > 0,
        !dir.contains(':'),
    ensures
        text::pieces(path_with(current, dir), ":"@) == text::pieces(current, ":"@).push(dir),
    decreases current.len(),
{
    reveal_strlit(":");
    let sep = ":"@;
    assert(sep =~= seq![':']);
    let whole = path_with(current, dir);
    assert(whole =~= current + seq![':'] + dir);
    lemma_pieces_end(current, dir);
}

proof fn lemma_found_colon(s: Seq<char>, i: int)
    requires
        0 <= i <= s.len(),
    ensures
        match text::found_from(s, ":"@, i) {
            Some(k) => i <= k < s.len() && s[k] == ':' && forall|j: int|
                i <= j < k ==> #[trigger] s[j] != ':',
            None => forall|j: int| i <= j < s.len() ==> #[trigger] s[j] != ':',
        },
    decreases s.len() - i,
{
    reveal_strlit(":");
    let sep = ":"@;
    assert(sep =~= seq![':']);
    if i < s.len() {
        if s[i] == ':' {
            assert(s.subrange(i, i + 1) =~= sep);
        } else {
            assert(s.subrange(i, i + 1)[0] == s[i]);
            assert(sep[0] == ':');
            lemma_found_colon(s, i + 1);
        }
    }
}

proof fn lemma_pieces_end(s: Seq<char>, dir: Seq<char>)
    requires
        !dir.contains(':'),
    ensures
        text::pieces(s + seq![':'] + dir, ":"@) == text::pieces(s, ":"@).push(dir),
    decreases s.len(),
{
    reveal_strlit(":");
    let whole = s + seq![':'] + dir;
    lemma_found_colon(whole, 0);
    lemma_found_colon(s, 0);
    match text::found(s, ":"@) {
        Some(k) => {
            assert(whole[k] == s[k]);
            let w = text::found(whole, ":"@)->0;
            if w < k {
                assert(s[w] == whole[w]);
            }
            assert(w == k);
            assert(whole.take(k) =~= s.take(k));
            assert(whole.skip(k + 1) =~= s.skip(k + 1) + seq![':'] + dir);
            lemma_pieces_end(s.skip(k + 1), dir);
            assert(text::pieces(whole, ":"@) =~= text::pieces(s, ":"@).push(dir));
        },
        None => {
            assert(whole[s.len() as int] == ':');
            let w = text::found(whole, ":"@)->0;
            if w < s.len() {
                assert(s[w] == whole[w]);
            }
            assert(w == s.len());
            assert(whole.take(w) =~= s);
            assert(whole.skip(w + 1) =~= dir);
            lemma_found_colon(dir, 0);
            if let Some(j) = text::found(dir, ":"@) {
                assert(dir.contains(':'));
            }
            assert(text::pieces(dir, ":"@) == seq![dir]);
            assert(text::pieces(whole, ":"@) =~= text::pieces(s, ":"@).push(dir));
        },
    }
}

/// What is said of a name, and whether it is known. `found` is the file that it
/// is, if it is one.
pub open spec fn type_line(name: Seq<char>, shit: bool, found: Option<Seq<char>>) -> (
    Seq<char>,
    bool,
) {
    if builtin(name, shit) {
        (name + " is a shell builtin\n"@, true)
    } else {
        match found {
            Some(p) => (name + " is "@ + p + "\n"@, true),
            None => ("btsh: type: "@ + name + ": not found\n"@, false),
        }
    }
}

/// What `type` says of a name, and whether it is known.
pub fn type_report(name: &str, shell: &Shell, found: &Option<String>) -> (r: (String, bool))
    ensures
        (r.0@, r.1) == type_line(name@, shell@.shit, shell::opt(*found)),
{
    if is_builtin(name, shell) {
        return (two(name, " is a shell builtin\n"), true);
    }
    match found {
        Some(p) => {
            let mut s = two(name, " is ");
            s.append(p.as_str());
            s.append("\n");
            (s, true)
        },
        None => {
            let mut s = two("btsh: type: ", name);
            s.append(": not found\n");
            (s, false)
        },
    }
}

/// The exit code of `type`, given whether each of the names is known.
pub fn type_code(known: &Vec<bool>) -> (r: i32)
    ensures
        r == (if known@.contains(false) {
            1i32
        } else {
            0
        }),
{
    let mut i: usize = 0;
    while i < known.len()
        invariant
            i <= known.len(),
            forall|k: int| 0 <= k < i ==> #[trigger] known@[k],
        decreases known.len() - i,
    {
        if !known[i] {
            assert(known@[i as int] == false);
            return 1;
        }
        i += 1;
    }
    0
}

// ---------------------------------------------------------------------------
// Aliases
// ---------------------------------------------------------------------------

/// Something that changing aliases brings about.
pub enum AliasEvent {
    /// This is shown.
    Show(String),
    /// This is said, since there is no such alias.
    Missing(String),
    /// The alias is to be kept in the settings.
    Keep(String, String),
    /// The alias is to be taken out of the settings.
    Forget(String),
    /// All aliases are to be taken out of the settings.
    ForgetAll,
}

pub enum AliasEventV {
    Show(Seq<char>),
    Missing(Seq<char>),
    Keep(Seq<char>, Seq<char>),
    Forget(Seq<char>),
    ForgetAll,
}

impl View for AliasEvent {
    type V = AliasEventV;

    open spec fn view(&self) -> AliasEventV {
        match *self {
            AliasEvent::Show(s) => AliasEventV::Show(s@),
            AliasEvent::Missing(s) => AliasEventV::Missing(s@),
            AliasEvent::Keep(n, v) => AliasEventV::Keep(n@, v@),
            AliasEvent::Forget(n) => AliasEventV::Forget(n@),
            AliasEvent::ForgetAll => AliasEventV::ForgetAll,
        }
    }
}

pub open spec fn events(v: Seq<AliasEvent>) -> Seq<AliasEventV> {
    v.map_values(|e: AliasEvent| e@)
}

pub broadcast proof fn events_push(v: Seq<AliasEvent>, e: AliasEvent)
    ensures
        #[trigger] events(v.push(e)) == events(v).push(e@),
{
    assert(events(v.push(e)) =~= events(v).push(e@));
}

/// The line that shows an alias.
pub open spec fn shown(name: Seq<char>, aliases: Map<Seq<char>, Seq<char>>) -> AliasEventV {
    AliasEventV::Show(config::alias_line(name, aliases[name]) + "\n"@)
}

/// The aliases, and what comes of the arguments from place `k` on, behind
/// `acc`: an argument with a `=` sets an alias, and another one asks for it.
pub open spec fn aliased(
    args: Seq<Seq<char>>,
    k: int,
    aliases: Map<Seq<char>, Seq<char>>,
    acc: Seq<AliasEventV>,
) -> (Map<Seq<char>, Seq<char>>, Seq<AliasEventV>)
    decreases args.len() - k,
{
    if k < 0 || k >= args.len() {
        (aliases, acc)
    } else {
        match text::parted(args[k], '=') {
            Some((n, v)) => aliased(
                args,
                k + 1,
                aliases.insert(n, v),
                acc.push(AliasEventV::Keep(n, v)),
            ),
            None => if aliases.dom().contains(args[k]) {
                aliased(args, k + 1, aliases, acc.push(shown(args[k], aliases)))
            } else {
                aliased(
                    args,
                    k + 1,
                    aliases,
                    acc.push(
                        AliasEventV::Missing("btsh: alias: "@ + args[k] + ": not found\n"@),
                    ),
                )
            },
        }
    }
}

/// Whether the events show each alias once, in the order of their names.
pub open spec fn lists_all(es: Seq<AliasEventV>, aliases: Map<Seq<char>, Seq<char>>) -> bool {
    exists|names: Seq<Seq<char>>|
        #![trigger order::sorted(names)]
        order::sorted(names) && names.no_duplicates() && names.to_set() == aliases.dom()
            && es.len() == names.len() && forall|k: int|
            0 <= k < names.len() ==> #[trigger] es[k] == shown(names[k], aliases)
}

fn show(name: &str, value: &str) -> (r: AliasEvent)
    ensures
        r@ == AliasEventV::Show(config::alias_line(name@, value@) + "\n"@),
{
    let mut s = show_alias(name, value);
    s.append("\n");
    AliasEvent::Show(s)
}

fn list_aliases(shell: &Shell) -> (r: Vec<AliasEvent>)
    ensures
        lists_all(events(r@), shell@.aliases),
{
    let names = shell.aliases.sorted_names();
    let ghost all = text::texts(names@);
    let mut r: Vec<AliasEvent> = Vec::new();
    let mut i: usize = 0;
    while i < names.len()
        invariant
            i <= names.len(),
            r.len() == i,
            all == text::texts(names@),
            all.to_set() == shell@.aliases.dom(),
            forall|k: int| 0 <= k < i ==> (#[trigger] r@[k])@ == shown(all[k], shell@.aliases),
        decreases names.len() - i,
    {
        assert(all[i as int] == names@[i as int]@);
        assert(all.to_set().contains(all[i as int]));
        let value = match shell.aliases.get(names[i].as_str()) {
            Some(v) => v,
            None => String::new(),
        };
        r.push(show(names[i].as_str(), value.as_str()));
        i += 1;
    }
    let ghost es = events(r@);
    assert(order::sorted(all));
    assert(es.len() == all.len());
    assert forall|k: int| 0 <= k < all.len() implies #[trigger] es[k] == shown(
        all[k],
        shell@.aliases,
    ) by {
        assert(es[k] == r@[k]@);
    }
    r
}

/// Sets and shows aliases, and gives what comes of it, and the exit code. A name
/// that is no alias does not change the code.
pub fn exec_builtin_alias(args: &Vec<String>, shell: &mut Shell) -> (r: (Vec<AliasEvent>, i32))
    requires
        args.len() > 0,
    ensures
        r.1 == 0,
        args.len() == 1 ==> final(shell)@ == old(shell)@ && lists_all(
            events(r.0@),
            old(shell)@.aliases,
        ),
        args.len() > 1 ==> ({
            let (aliases, es) = aliased(
                text::texts(args@),
                1,
                old(shell)@.aliases,
                Seq::empty(),
            );
            &&& final(shell)@ == (ShellV { aliases, ..old(shell)@ })
            &&& events(r.0@) == es
        }),
{
    if args.len() == 1 {
        return (list_aliases(shell), 0);
    }
    let mut r: Vec<AliasEvent> = Vec::new();
    let mut i: usize = 1;
    let ghost all = text::texts(args@);
    let ghost before = shell@;
    let ghost want = aliased(all, 1, before.aliases, Seq::empty());
    assert(events(r@) =~= Seq::empty());
    while i < args.len()
        invariant
            1 <= i <= args.len(),
            all == text::texts(args@),
            shell@ == (ShellV { aliases: shell@.aliases, ..before }),
            aliased(all, i as int, shell@.aliases, events(r@)) == want,
        decreases args.len() - i,
    {
        broadcast use events_push;

        let arg = args[i].as_str();
        assert(all[i as int] == arg@);
        match split_once(arg, '=') {
            Some((n, v)) => {
                shell.aliases.insert(n.as_str(), v.as_str());
                r.push(AliasEvent::Keep(n, v));
            },
            None => match shell.aliases.get(arg) {
                Some(v) => {
                    r.push(show(arg, v.as_str()));
                },
                None => {
                    let mut s = two("btsh: alias: ", arg);
                    s.append(": not found\n");
                    r.push(AliasEvent::Missing(s));
                },
            },
        }
        i += 1;
    }
    (r, 0)
}

/// The aliases, what comes of the arguments from place `k` on, behind `acc`,
/// and the exit code: `-a` takes all aliases away and ends the command, and
/// another argument takes one away.
pub open spec fn unaliased(
    args: Seq<Seq<char>>,
    k: int,
    aliases: Map<Seq<char>, Seq<char>>,
    acc: Seq<AliasEventV>,
    code: i32,
) -> (Map<Seq<char>, Seq<char>>, Seq<AliasEventV>, i32)
    decreases args.len() - k,
{
    if k < 0 || k >= args.len() {
        (aliases, acc, code)
    } else if args[k] == "-a"@ {
        (Map::empty(), acc.push(AliasEventV::ForgetAll), 0)
    } else if aliases.dom().contains(args[k]) {
        unaliased(
            args,
            k + 1,
            aliases.remove(args[k]),
            acc.push(AliasEventV::Forget(args[k])),
            code,
        )
    } else {
        unaliased(
            args,
            k + 1,
            aliases,
            acc.push(AliasEventV::Missing("btsh: unalias: "@ + args[k] + ": not found\n"@)),
            1,
        )
    }
}

/// Takes aliases away, and gives what comes of it, and the exit code.
pub fn exec_builtin_unalias(args: &Vec<String>, shell: &mut Shell) -> (r: (Vec<AliasEvent>, i32))
    requires
        args.len() > 0,
    ensures
        ({
            let (aliases, es, code) = unaliased(
                text::texts(args@),
                1,
                old(shell)@.aliases,
                Seq::empty(),
                0,
            );
            &&& final(shell)@ == (ShellV { aliases, ..old(shell)@ })
            &&& events(r.0@) == es
            &&& r.1 == code
        }),
{
    let mut r: Vec<AliasEvent> = Vec::new();
    let mut code: i32 = 0;
    let mut i: usize = 1;
    let ghost all = text::texts(args@);
    let ghost before = shell@;
    let ghost want = unaliased(all, 1, before.aliases, Seq::empty(), 0);
    assert(events(r@) =~= Seq::empty());
    while i < args.len()
        invariant
            1 <= i <= args.len(),
            all == text::texts(args@),
            shell@ == (ShellV { aliases: shell@.aliases, ..before }),
            before == old(shell)@,
            want == unaliased(all, 1, before.aliases, Seq::empty(), 0),
            unaliased(all, i as int, shell@.aliases, events(r@), code) == want,
        decreases args.len() - i,
    {
        broadcast use events_push;

        let arg = args[i].as_str();
        assert(all[i as int] == arg@);
        if same(arg, "-a") {
            shell.aliases.clear();
            r.push(AliasEvent::ForgetAll);
            return (r, 0);
        }
        let ghost held = shell@.aliases;
        if shell.aliases.remove(arg) {
            r.push(AliasEvent::Forget(owned(arg)));
        } else {
            assert(held.remove(arg@) =~= held);
            let mut s = two("btsh: unalias: ", arg);
            s.append(": not found\n");
            r.push(AliasEvent::Missing(s));
            code = 1;
        }
        i += 1;
    }
    (r, code)
}

/// An alias that was set has the value that it was given, and `unalias` takes it
/// away again.
pub proof fn law_alias_and_unalias(
    name: Seq<char>,
    value: Seq<char>,
    aliases: Map<Seq<char>, Seq<char>>,
)
    requires
        !name.contains('='),
        name != "-a"@,
    ensures
        ({
            let set = aliased(
                seq!["alias"@, name + seq!['='] + value],
                1,
                aliases,
                Seq::empty(),
            ).0;
            &&& set == aliases.insert(name, value)
            &&& unaliased(seq!["unalias"@, name], 1, set, Seq::empty(), 0).0 == aliases.remove(
                name,
            )
            &&& unaliased(seq!["unalias"@, name], 1, set, Seq::empty(), 0).2 == 0
        }),
{
    let arg = name + seq!['='] + value;
    let args = seq!["alias"@, arg];
    crate::settings::lemma_parted_first(name, value, '=');
    assert(args[1] == arg);
    let set = aliases.insert(name, value);
    let acc = Seq::empty().push(AliasEventV::Keep(name, value));
    assert(aliased(args, 2, set, acc) == (set, acc));
    let off = seq!["unalias"@, name];
    assert(off[1] == name);
    assert(set.remove(name) =~= aliases.remove(name));
    let gone = Seq::empty().push(AliasEventV::Forget(name));
    assert(unaliased(off, 2, set.remove(name), gone, 0) == (set.remove(name), gone, 0i32));
}

// ---------------------------------------------------------------------------
// Removing files
// ---------------------------------------------------------------------------

/// What `rm` is to remove, and how.
pub struct RmPlan {
    /// Nothing is asked, and nothing is said of files that are not there.
    pub force: bool,
    /// Directories are removed with all that is in them.
    pub recursive: bool,
    pub files: Vec<String>,
}

#[verifier::ext_equal]
pub struct RmPlanV {
    pub force: bool,
    pub recursive: bool,
    pub files: Seq<Seq<char>>,
}

impl View for RmPlan {
    type V = RmPlanV;

    open spec fn view(&self) -> RmPlanV {
        RmPlanV {
            force: self.force,
            recursive: self.recursive,
            files: text::texts(self.files@),
        }
    }
}

/// The plan once an argument of options is taken in.
pub open spec fn with_options(p: RmPlanV, arg: Seq<char>) -> RmPlanV {
    let letters = arg.skip(1);
    RmPlanV {
        force: p.force || letters.contains('f'),
        recursive: p.recursive || letters.contains('r') || letters.contains('R'),
        ..p
    }
}

/// What the arguments from place `k` on add to the plan. What starts with a `-`
/// and goes on is options; behind a `--` all are files.
pub open spec fn rm_from(args: Seq<Seq<char>>, k: int, p: RmPlanV) -> RmPlanV
    decreases args.len() - k,
{
    if k < 0 || k >= args.len() {
        p
    } else if args[k] == "--"@ {
        RmPlanV { files: p.files + args.skip(k + 1), ..p }
    } else if args[k].len() > 1 && args[k][0] == '-' {
        rm_from(args, k + 1, with_options(p, args[k]))
    } else {
        rm_from(args, k + 1, RmPlanV { files: p.files.push(args[k]), ..p })
    }
}

/// What `rm` with these arguments, its own name in front, is to do.
pub open spec fn rm_plan(args: Seq<Seq<char>>) -> RmPlanV {
    rm_from(args, 1, RmPlanV { force: false, recursive: false, files: Seq::empty() })
}

/// What `rm` with these arguments, its own name in front, is to do, or what is
/// said where there is nothing to remove, and the exit code. What comes of the
/// files does not change the code.
pub fn exec_builtin_rm(args: &Vec<String>) -> (r: (Result<RmPlan, String>, i32))
    requires
        args.len() > 0,
    ensures
        match r.0 {
            Ok(p) => p@ == rm_plan(text::texts(args@)) && p@.files.len() > 0 && r.1 == 0,
            Err(m) => rm_plan(text::texts(args@)).files.len() == 0 && m@
                == "btsh: rm: missing operand\n"@ && r.1 == 1,
        },
{
    let mut force = false;
    let mut recursive = false;
    let mut files: Vec<String> = Vec::new();
    let mut i: usize = 1;
    let ghost all = text::texts(args@);
    let ghost want = rm_plan(all);
    assert(text::texts(files@) =~= Seq::empty());
    while i < args.len()
        invariant_except_break
            rm_from(
                all,
                i as int,
                RmPlanV { force, recursive, files: text::texts(files@) },
            ) == want,
        invariant
            1 <= i <= args.len(),
            all == text::texts(args@),
        ensures
            (RmPlanV { force, recursive, files: text::texts(files@) }) == want,
        decreases args.len() - i,
    {
        broadcast use text::texts_push, text::texts_add;

        let a = args[i].as_str();
        assert(all[i as int] == a@);
        if same(a, "--") {
            let ghost before = text::texts(files@);
            let mut others = rest(args, i + 1);
            files.append(&mut others);
            assert(text::texts(files@) =~= before + all.skip(i + 1));
            break;
        }
        if starts_with_char(a, '-') && a.unicode_len() > 1 {
            let letters = text::skip(a, 1);
            if text::contains_char(letters.as_str(), 'f') {
                force = true;
            }
            if text::contains_char(letters.as_str(), 'r') || text::contains_char(
                letters.as_str(),
                'R',
            ) {
                recursive = true;
            }
        } else {
            files.push(args[i].clone());
        }
        i += 1;
    }
    assert(text::texts(files@).len() == files.len());
    if files.len() == 0 {
        (Err(owned("btsh: rm: missing operand\n")), 1)
    } else {
        (Ok(RmPlan { force, recursive, files }), 0)
    }
}

/// What is to be done about a file that `rm` is to remove.
pub enum RmStep {
    /// It is removed.
    Remove,
    /// This is said, since it is not there.
    Missing(String),
    /// This is asked first.
    Ask(String),
}

pub enum RmStepV {
    Remove,
    Missing(Seq<char>),
    Ask(Seq<char>),
}

impl View for RmStep {
    type V = RmStepV;

    open spec fn view(&self) -> RmStepV {
        match *self {
            RmStep::Remove => RmStepV::Remove,
            RmStep::Missing(m) => RmStepV::Missing(m@),
            RmStep::Ask(q) => RmStepV::Ask(q@),
        }
    }
}

/// What is to be done about a file, given whether it is there, whether it is a
/// directory, and whether there is a user to ask.
pub open spec fn rm_step_of(
    force: bool,
    file: Seq<char>,
    exists: bool,
    is_dir: bool,
    interactive: bool,
) -> RmStepV {
    if force {
        RmStepV::Remove
    } else if !exists {
        RmStepV::Missing("btsh: rm: "@ + file + ": No such file\n"@)
    } else if interactive {
        RmStepV::Ask(
            "btsh: rm: remove "@ + (if is_dir {
                "directory"@
            } else {
                "regular file"@
            }) + " '"@ + file + "'? [y/n] "@,
        )
    } else {
        RmStepV::Remove
    }
}

pub fn rm_step(force: bool, file: &str, exists: bool, is_dir: bool, interactive: bool) -> (r: RmStep)
    ensures
        r@ == rm_step_of(force, file@, exists, is_dir, interactive),
{
    if force {
        RmStep::Remove
    } else if !exists {
        let mut s = two("btsh: rm: ", file);
        s.append(": No such file\n");
        RmStep::Missing(s)
    } else if interactive {
        let mut s = two(
            "btsh: rm: remove ",
            if is_dir {
                "directory"
            } else {
                "regular file"
            },
        );
        s.append(" '");
        s.append(file);
        s.append("'? [y/n] ");
        RmStep::Ask(s)
    } else {
        RmStep::Remove
    }
}

/// Whether a key, by its byte, tells `rm` to go on, and what is then said. The
/// end of the input tells it too, and nothing is said.
pub open spec fn rm_goes_on(byte: Option<u8>) -> (bool, Seq<char>) {
    match byte {
        Some(b) => if b == 0x79 || b == 0x59 || b == 0x0d || b == 0x0a {
            (true, "\n"@)
        } else {
            (false, "  skipped\n"@)
        },
        None => (true, Seq::empty()),
    }
}

pub fn rm_confirmed(byte: Option<u8>) -> (r: (bool, String))
    ensures
        (r.0, r.1@) == rm_goes_on(byte),
{
    match byte {
        Some(b) => {
            if b == 0x79 || b == 0x59 || b == 0x0d || b == 0x0a {
                (true, owned("\n"))
            } else {
                (false, owned("  skipped\n"))
            }
        },
        None => {
            let s = String::new();
            assert(s@ =~= Seq::empty());
            (true, s)
        },
    }
}

/// How a path is removed.
pub enum Deletion {
    /// The directory with all that is in it.
    Tree,
    File,
    /// It stays, and this is said.
    Refuse(String),
}

/// How a path is removed, given whether it is a directory.
pub fn delete_path(path: &str, is_dir: bool, recursive: bool) -> (r: Deletion)
    ensures
        match r {
            Deletion::Tree => is_dir && recursive,
            Deletion::File => !is_dir,
            Deletion::Refuse(m) => is_dir && !recursive && m@ == "btsh: rm: "@ + path@
                + ": is a directory\n"@,
        },
{
    if !is_dir {
        Deletion::File
    } else if recursive {
        Deletion::Tree
    } else {
        let mut s = two("btsh: rm: ", path);
        s.append(": is a directory\n");
        Deletion::Refuse(s)
    }
}

/// What has been asked for stays asked for, whatever arguments follow, and files
/// are removed in the order in which they are named.
pub proof fn law_rm_options_add_up(args: Seq<Seq<char>>, k: int, p: RmPlanV)
    ensures
        p.force ==> rm_from(args, k, p).force,
        p.recursive ==> rm_from(args, k, p).recursive,
        rm_from(args, k, p).files.len() >= p.files.len(),
        rm_from(args, k, p).files.take(p.files.len() as int) == p.files,
    decreases args.len() - k,
{
    if 0 <= k < args.len() {
        if args[k] == "--"@ {
            assert((p.files + args.skip(k + 1)).take(p.files.len() as int) =~= p.files);
        } else if args[k].len() > 1 && args[k][0] == '-' {
            law_rm_options_add_up(args, k + 1, with_options(p, args[k]));
        } else {
            let q = RmPlanV { files: p.files.push(args[k]), ..p };
            law_rm_options_add_up(args, k + 1, q);
            let f = rm_from(args, k + 1, q).files;
            assert(f.take(p.files.len() as int) =~= f.take(q.files.len() as int).take(
                p.files.len() as int,
            ));
            assert(q.files.take(p.files.len() as int) =~= p.files);
        }
    } else {
        assert(p.files.take(p.files.len() as int) =~= p.files);
    }
}

// ---------------------------------------------------------------------------
// Files of the shell
// ---------------------------------------------------------------------------

/// The settings file of a user with this home directory.
pub open spec fn config_file_of(home: Seq<char>) -> Seq<char> {
    exec::path_in(exec::path_in(exec::path_in(home, ".config"@), "btsh"@), "config"@)
}

pub fn config_file(home: &str) -> (r: String)
    ensures
        r@ == config_file_of(home@),
{
    let a = exec::join_path(home, ".config");
    let b = exec::join_path(a.as_str(), "btsh");
    exec::join_path(b.as_str(), "config")
}

/// The history file of a user with this home directory, if that is known.
pub open spec fn history_file_of(home: Option<Seq<char>>) -> Seq<char> {
    match home {
        Some(h) => exec::path_in(
            exec::path_in(exec::path_in(exec::path_in(h, ".local"@), "share"@), "btsh"@),
            "history.txt"@,
        ),
        None => "/dev/null"@,
    }
}

pub fn history_file(home: &Option<String>) -> (r: String)
    ensures
        r@ == history_file_of(shell::opt(*home)),
{
    match home {
        Some(h) => {
            let a = exec::join_path(h.as_str(), ".local");
            let b = exec::join_path(a.as_str(), "share");
            let c = exec::join_path(b.as_str(), "btsh");
            exec::join_path(c.as_str(), "history.txt")
        },
        None => owned("/dev/null"),
    }
}

// ---------------------------------------------------------------------------
// Running the lines of a file
// ---------------------------------------------------------------------------

/// The file that `source` reads, or the exit code and what is said where there
/// is none.
pub open spec fn source_of(args: Seq<Seq<char>>, home: Option<Seq<char>>) -> Result<
    Seq<char>,
    (i32, Seq<char>),
> {
    if args.len() <= 1 {
        Err((1, "btsh: source: missing filename\n"@))
    } else if args[1] == "-d"@ || args[1] == "--default"@ {
        match home {
            Some(h) => Ok(config_file_of(h)),
            None => Err((1, "btsh: source: HOME not set\n"@)),
        }
    } else {
        Ok(args[1])
    }
}

/// The file that `source` reads, or the exit code and what is said where there
/// is none.
pub fn source_file(args: &Vec<String>, home: &Option<String>) -> (r: Result<
    String,
    (i32, String),
>)
    ensures
        match r {
            Ok(f) => source_of(text::texts(args@), shell::opt(*home)) == Ok::<
                Seq<char>,
                (i32, Seq<char>),
            >(f@),
            Err((code, m)) => source_of(text::texts(args@), shell::opt(*home)) == Err::<
                Seq<char>,
                (i32, Seq<char>),
            >((code, m@)),
        },
{
    assert(text::texts(args@).len() == args.len());
    if args.len() <= 1 {
        return Err((1, owned("btsh: source: missing filename\n")));
    }
    let f = args[1].as_str();
    assert(text::texts(args@)[1] == f@);
    if same(f, "-d") || same(f, "--default") {
        match home {
            Some(h) => Ok(config_file(h.as_str())),
            None => Err((1, owned("btsh: source: HOME not set\n"))),
        }
    } else {
        Ok(owned(f))
    }
}

/// The lines that are run from line `k` on, behind `acc`. Empty lines and
/// comments are left out, and so is what stands between a line that ends with an
/// opening brace and the next line that is a closing one.
pub open spec fn lines_to_run(
    ls: Seq<Seq<char>>,
    k: int,
    in_block: bool,
    acc: Seq<Seq<char>>,
) -> Seq<Seq<char>>
    decreases ls.len() - k,
{
    if k < 0 || k >= ls.len() {
        acc
    } else {
        let t = text::trimmed(ls[k]);
        if t.len() == 0 || t[0] == '#' {
            lines_to_run(ls, k + 1, in_block, acc)
        } else if in_block {
            lines_to_run(ls, k + 1, t != "}"@, acc)
        } else if t.last() == '{' {
            lines_to_run(ls, k + 1, true, acc)
        } else {
            lines_to_run(ls, k + 1, false, acc.push(ls[k]))
        }
    }
}

/// The lines of a file that `source` runs.
pub fn exec_builtin_source(content: &str) -> (r: Vec<String>)
    ensures
        text::texts(r@) == lines_to_run(text::lines_of(content@), 0, false, Seq::empty()),
{
    let ls = lines(content);
    let ghost all = text::texts(ls@);
    let mut r: Vec<String> = Vec::new();
    let mut in_block = false;
    let mut i: usize = 0;
    assert(text::texts(r@) =~= Seq::empty());
    while i < ls.len()
        invariant
            i <= ls.len(),
            all == text::texts(ls@),
            lines_to_run(all, i as int, in_block, text::texts(r@)) == lines_to_run(
                all,
                0,
                false,
                Seq::empty(),
            ),
        decreases ls.len() - i,
    {
        broadcast use text::texts_push;

        assert(all[i as int] == ls@[i as int]@);
        let t = trim(ls[i].as_str());
        if t.as_str().unicode_len() == 0 || starts_with_char(t.as_str(), '#') {
        } else if in_block {
            in_block = !same(t.as_str(), "}");
        } else if ends_with_char(t.as_str(), '{') {
            in_block = true;
        } else {
            r.push(ls[i].clone());
        }
        i += 1;
    }
    r
}

/// The exit code of `source`, given those of the lines that it ran: that of the
/// last, and zero without lines. A file that can not be read gives another
/// (`complain`).
pub fn source_code(codes: &Vec<i32>) -> (r: i32)
    ensures
        r == (if codes.len() > 0 {
            codes@.last()
        } else {
            0
        }),
{
    exec::last_code(0, codes)
}

// ---------------------------------------------------------------------------
// Time limits
// ---------------------------------------------------------------------------

/// The exit code of a command that can not be run with a time limit since it
/// lacks something or since the limit is none.
pub const NO_LIMIT: i32 = 2;

/// Why a command is not run with a time limit, if it is not: there have to be a
/// duration and a command, and the duration has to be above zero, which
/// `positive` says.
pub open spec fn limit_refused(args: Seq<Seq<char>>, positive: bool) -> Option<Seq<char>> {
    if args.len() < 3 {
        Some("btsh: timeout: usage: timeout DURATION COMMAND [ARGS...]\n"@)
    } else if !positive {
        Some("btsh: timeout: invalid duration: "@ + args[1] + "\n"@)
    } else {
        None
    }
}

/// The exit code and the message for a command that is not run with a time
/// limit.
pub fn timeout_refusal(args: &Vec<String>, positive: bool) -> (r: Option<(i32, String)>)
    ensures
        match r {
            Some((code, m)) => code == NO_LIMIT && limit_refused(text::texts(args@), positive)
                == Some(m@),
            None => limit_refused(text::texts(args@), positive) is None,
        },
{
    assert(text::texts(args@).len() == args.len());
    if args.len() < 3 {
        Some((NO_LIMIT, owned("btsh: timeout: usage: timeout DURATION COMMAND [ARGS...]\n")))
    } else if !positive {
        assert(text::texts(args@)[1] == args@[1]@);
        let mut s = two("btsh: timeout: invalid duration: ", args[1].as_str());
        s.append("\n");
        Some((NO_LIMIT, s))
    } else {
        None
    }
}

} // verus!
