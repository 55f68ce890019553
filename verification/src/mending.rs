//! What holds of the corrections of commands: which rule comes first, and what
//! each makes of a command.

use vstd::prelude::*;
use vstd::string::*;

use crate::correct;
use crate::prompt;
use crate::text;

verus! {

// ---------------------------------------------------------------------------
// What a text holds
// ---------------------------------------------------------------------------

/// The phrases of an output that speak of missing rights.
pub open spec fn rights() -> Seq<Seq<char>> {
    seq![
        "permission denied"@,
        "eacces"@,
        "operation not permitted"@,
        "not super-user"@,
        "must be root"@,
        "must run as root"@,
        "only root can"@,
        "authentication is required"@,
        "not superuser"@,
        "need to be root"@,
        "must be superuser"@,
        "edspermissionerror"@,
        "error: insufficient privileges"@,
    ]
}

/// Whether a text holds none of the phrases.
pub open spec fn silent_on(s: Seq<char>, phrases: Seq<Seq<char>>) -> bool {
    forall|k: int| 0 <= k < phrases.len() ==> !text::mentions(s, #[trigger] phrases[k])
}

/// The first words that are known to be misspelt.
pub open spec fn misspelt(w: Seq<char>) -> bool {
    w == "sl"@ || w == "dc"@ || w == "pyhton"@ || w == "pythno"@ || w == "pythn"@ || w
        == "pytohn"@ || w == "pythno3"@ || w == "pyhton3"@ || w == "gip"@ || w == "igt"@ || w
        == "gi"@ || w == "k8s"@ || w == "dockr"@ || w == "dokcer"@ || w == "dockr-compose"@ || w
        == "dokcer-compose"@
}

/// Whether a command has only ordinary spaces, and its first word is not known
/// to be misspelt.
pub open spec fn well_typed(script: Seq<char>) -> bool {
    &&& !script.contains('\u{a0}')
    &&& text::words_of(script).len() > 0 ==> !misspelt(text::words_of(script)[0])
}

proof fn lemma_mentions_inside(a: Seq<char>, p: Seq<char>, b: Seq<char>)
    ensures
        text::mentions(a + p + b, p),
{
    let s = a + p + b;
    assert(s.subrange(a.len() as int, (a.len() + p.len()) as int) =~= p);
    assert(text::occurs_at(s, p, a.len() as int));
}

proof fn lemma_typos(w: Seq<char>)
    ensures
        correct::meant_by(w) is Some <==> misspelt(w),
{
}

proof fn lemma_not_allowed(lower: Seq<char>)
    ensures
        correct::not_allowed(lower) <==> !silent_on(lower, rights()),
{
    let r = rights();
    if silent_on(lower, r) {
        assert(!text::mentions(lower, r[0]));
        assert(!text::mentions(lower, r[1]));
        assert(!text::mentions(lower, r[2]));
        assert(!text::mentions(lower, r[3]));
        assert(!text::mentions(lower, r[4]));
        assert(!text::mentions(lower, r[5]));
        assert(!text::mentions(lower, r[6]));
        assert(!text::mentions(lower, r[7]));
        assert(!text::mentions(lower, r[8]));
        assert(!text::mentions(lower, r[9]));
        assert(!text::mentions(lower, r[10]));
        assert(!text::mentions(lower, r[11]));
        assert(!text::mentions(lower, r[12]));
    } else {
        let k = choose|k: int| 0 <= k < r.len() && text::mentions(lower, #[trigger] r[k]);
        assert(text::mentions(lower, r[k]));
    }
}

proof fn lemma_run(w: Seq<char>, rest: Seq<char>)
    requires
        forall|k: int| 0 <= k < w.len() ==> !text::white_space(#[trigger] w[k]),
        rest.len() > 0 ==> text::white_space(rest[0]),
    ensures
        text::run(w + rest, false) == w.len(),
    decreases w.len(),
{
    let s = w + rest;
    if w.len() > 0 {
        assert(s[0] == w[0]);
        assert(s.drop_first() =~= w.drop_first() + rest);
        lemma_run(w.drop_first(), rest);
    } else {
        assert(s =~= rest);
    }
}

/// The first word of a text that starts with it.
proof fn lemma_first_word(w: Seq<char>, rest: Seq<char>)
    requires
        w.len() > 0,
        forall|k: int| 0 <= k < w.len() ==> !text::white_space(#[trigger] w[k]),
        rest.len() > 0 ==> text::white_space(rest[0]),
    ensures
        text::words_of(w + rest).len() > 0,
        text::words_of(w + rest)[0] == w,
{
    let s = w + rest;
    assert(s[0] == w[0]);
    assert(text::run(s, true) == 0);
    assert(s.skip(0) =~= s);
    lemma_run(w, rest);
    assert(s.take(w.len() as int) =~= w);
}

proof fn lemma_at_front(p: Seq<char>, rest: Seq<char>)
    ensures
        text::found(p + rest, p) == Some(0int),
        text::begins(p + rest, p),
        (p + rest).skip(p.len() as int) == rest,
{
    let s = p + rest;
    assert(s.subrange(0, p.len() as int) =~= p);
    assert(s.take(p.len() as int) =~= p);
    assert(s.skip(p.len() as int) =~= rest);
}

proof fn lemma_replaced_at_front(p: Seq<char>, to: Seq<char>, rest: Seq<char>)
    ensures
        correct::with_first(p + rest, p, to) == to + rest,
{
    lemma_at_front(p, rest);
    assert((p + rest).take(0) =~= Seq::empty());
    assert(Seq::<char>::empty() + to + rest =~= to + rest);
}

// ---------------------------------------------------------------------------
// Spaces and spelling
// ---------------------------------------------------------------------------

/// A command with a no-break space is corrected before all else: each becomes an
/// ordinary space, and nothing else changes.
pub proof fn law_spaces_come_first(
    script: Seq<char>,
    output: Seq<char>,
    lower: Seq<char>,
    commands: Seq<Seq<char>>,
    named: Seq<Seq<char>>,
)
    requires
        script.contains('\u{a0}'),
    ensures
        correct::corrected(script, output, lower, commands, named) matches Some(r) && r.len()
            == script.len() && forall|k: int|
            0 <= k < script.len() ==> #[trigger] r[k] == (if script[k] == '\u{a0}' {
                ' '
            } else {
                script[k]
            }),
{
    let k = choose|k: int| 0 <= k < script.len() && script[k] == '\u{a0}';
    assert(correct::plain_spaces(script)[k] == ' ');
    assert(correct::plain_spaces(script) != script);
}

proof fn lemma_typo(w: Seq<char>, m: Seq<char>, rest: Seq<char>)
    requires
        w.len() > 0,
        forall|k: int| 0 <= k < w.len() ==> '!' <= #[trigger] w[k] <= '~',
        correct::meant_by(w) == Some(m),
        m != w,
        !rest.contains('\u{a0}'),
        rest.len() > 0 ==> rest[0] == ' ',
    ensures
        forall|output: Seq<char>, lower: Seq<char>, commands: Seq<Seq<char>>, named: Seq<Seq<char>>| #[trigger]
            correct::corrected(w + rest, output, lower, commands, named) == Some(m + rest),
{
    let s = w + rest;
    lemma_first_word(w, rest);
    lemma_replaced_at_front(w, m, rest);
    if s.contains('\u{a0}') {
        let k = choose|k: int| 0 <= k < s.len() && s[k] == '\u{a0}';
        if k < w.len() {
            assert(s[k] == w[k]);
        } else {
            assert(s[k] == rest[k - w.len()]);
            assert(rest.contains('\u{a0}'));
        }
    }
    if m + rest == w + rest {
        assert(m.len() == w.len());
        assert forall|k: int| 0 <= k < m.len() implies m[k] == w[k] by {
            assert((m + rest)[k] == m[k]);
            assert((w + rest)[k] == w[k]);
        }
        assert(m =~= w);
    }
}

/// A first word that is known to be misspelt is put right, whatever follows it
/// and whatever was said of it. The rest of the command stays.
pub proof fn law_spelling_is_put_right(
    rest: Seq<char>,
    output: Seq<char>,
    lower: Seq<char>,
    commands: Seq<Seq<char>>,
    named: Seq<Seq<char>>,
)
    requires
        !rest.contains('\u{a0}'),
        rest.len() > 0 ==> rest[0] == ' ',
    ensures
        ({
            let fix = |w: Seq<char>|
                correct::corrected(w + rest, output, lower, commands, named);
            &&& fix("sl"@) == Some("ls"@ + rest)
            &&& fix("dc"@) == Some("cd"@ + rest)
            &&& fix("pyhton"@) == Some("python"@ + rest)
            &&& fix("pythno"@) == Some("python"@ + rest)
            &&& fix("pythn"@) == Some("python"@ + rest)
            &&& fix("pytohn"@) == Some("python"@ + rest)
            &&& fix("pythno3"@) == Some("python3"@ + rest)
            &&& fix("pyhton3"@) == Some("python3"@ + rest)
            &&& fix("gip"@) == Some("git"@ + rest)
            &&& fix("igt"@) == Some("git"@ + rest)
            &&& fix("gi"@) == Some("git"@ + rest)
            &&& fix("k8s"@) == Some("kubectl"@ + rest)
            &&& fix("dockr"@) == Some("docker"@ + rest)
            &&& fix("dokcer"@) == Some("docker"@ + rest)
            &&& fix("dockr-compose"@) == Some("docker-compose"@ + rest)
            &&& fix("dokcer-compose"@) == Some("docker-compose"@ + rest)
        }),
{
    reveal_strlit("sl");
    reveal_strlit("ls");
    reveal_strlit("dc");
    reveal_strlit("cd");
    reveal_strlit("pyhton");
    reveal_strlit("pythno");
    reveal_strlit("pythn");
    reveal_strlit("pytohn");
    reveal_strlit("python");
    reveal_strlit("pythno3");
    reveal_strlit("pyhton3");
    reveal_strlit("python3");
    reveal_strlit("gip");
    reveal_strlit("igt");
    reveal_strlit("gi");
    reveal_strlit("git");
    reveal_strlit("k8s");
    reveal_strlit("kubectl");
    reveal_strlit("dockr");
    reveal_strlit("dokcer");
    reveal_strlit("docker");
    reveal_strlit("dockr-compose");
    reveal_strlit("dokcer-compose");
    reveal_strlit("docker-compose");
    assert("sl"@[0] == 's' && "ls"@[0] == 'l' && "dc"@[0] == 'd' && "cd"@[0] == 'c');
    assert("pyhton"@[2] == 'h' && "python"@[2] == 't' && "pythno"@[4] == 'n' && "python"@[4]
        == 'o');
    assert("pythno"@[2] == 't' && "pytohn"@[3] == 'o' && "python"@[3] == 'h' && "pythno"@[3]
        == 'h');
    assert("pythno3"@[4] == 'n' && "python3"@[4] == 'o' && "pyhton3"@[2] == 'h' && "python3"@[2]
        == 't' && "pythno3"@[2] == 't');
    assert("gip"@[2] == 'p' && "git"@[2] == 't' && "igt"@[0] == 'i' && "git"@[0] == 'g'
        && "gip"@[0] == 'g' && "k8s"@[0] == 'k');
    assert("dokcer"@[2] == 'k' && "docker"@[2] == 'c' && "dokcer"@[0] == 'd' && "pyhton"@[0] == 'p'
        && "pythno"@[0] == 'p' && "pytohn"@[0] == 'p' && "pythn"@[0] == 'p' && "dockr"@[0] == 'd');
    assert("dokcer-compose"@[2] == 'k' && "docker-compose"@[2] == 'c');
    assert("gi"@.len() == 2 && "git"@.len() == 3 && "k8s"@.len() == 3 && "kubectl"@.len() == 7);
    assert("dockr"@.len() == 5 && "docker"@.len() == 6 && "dockr-compose"@.len() == 13
        && "docker-compose"@.len() == 14 && "pythn"@.len() == 5 && "python"@.len() == 6);
    lemma_typo("sl"@, "ls"@, rest);
    lemma_typo("dc"@, "cd"@, rest);
    lemma_typo("pyhton"@, "python"@, rest);
    lemma_typo("pythno"@, "python"@, rest);
    lemma_typo("pythn"@, "python"@, rest);
    lemma_typo("pytohn"@, "python"@, rest);
    lemma_typo("pythno3"@, "python3"@, rest);
    lemma_typo("pyhton3"@, "python3"@, rest);
    lemma_typo("gip"@, "git"@, rest);
    lemma_typo("igt"@, "git"@, rest);
    lemma_typo("gi"@, "git"@, rest);
    lemma_typo("k8s"@, "kubectl"@, rest);
    lemma_typo("dockr"@, "docker"@, rest);
    lemma_typo("dokcer"@, "docker"@, rest);
    lemma_typo("dockr-compose"@, "docker-compose"@, rest);
    lemma_typo("dokcer-compose"@, "docker-compose"@, rest);
}

// ---------------------------------------------------------------------------
// What the output tells
// ---------------------------------------------------------------------------

proof fn lemma_well_typed(script: Seq<char>)
    requires
        well_typed(script),
    ensures
        correct::space_fix(script) is None,
        correct::typo_fix(script) is None,
{
    if text::words_of(script).len() > 0 {
        lemma_typos(text::words_of(script)[0]);
    }
}

/// Where the output speaks of missing rights, a command is run again by another
/// user, whatever else the output speaks of.
pub proof fn law_rights_come_before_other_faults(
    script: Seq<char>,
    a: Seq<char>,
    k: int,
    b: Seq<char>,
    output: Seq<char>,
    commands: Seq<Seq<char>>,
    named: Seq<Seq<char>>,
)
    requires
        well_typed(script),
        0 <= k < rights().len(),
        script.len() < 5 || script.take(5) != "sudo "@,
    ensures
        correct::corrected(script, output, a + rights()[k] + b, commands, named) == Some(
            "sudo "@ + script,
        ),
{
    let lower = a + rights()[k] + b;
    lemma_well_typed(script);
    lemma_mentions_inside(a, rights()[k], b);
    lemma_not_allowed(lower);
    reveal_strlit("sudo ");
    assert(!silent_on(lower, rights())) by {
        assert(text::mentions(lower, rights()[k]));
    }
    assert(("sudo "@ + script).len() != script.len());
}

/// Whether `t` is the ASCII text `s` with some of its small letters as capitals.
pub open spec fn same_but_for_case(t: Seq<char>, s: Seq<char>) -> bool {
    &&& t.len() == s.len()
    &&& forall|k: int|
        0 <= k < t.len() ==> (#[trigger] t[k] as int) < 0x80 && (t[k] == s[k] && !('A' <= t[k]
            <= 'Z') || 'A' <= t[k] <= 'Z' && t[k] as int + 32 == s[k] as int)
}

/// The output is read without regard to case: a phrase that speaks of missing
/// rights counts however it is written.
pub proof fn law_case_of_output_does_not_matter(
    script: Seq<char>,
    a: Seq<char>,
    phrase: Seq<char>,
    k: int,
    b: Seq<char>,
    commands: Seq<Seq<char>>,
    named: Seq<Seq<char>>,
)
    requires
        well_typed(script),
        0 <= k < rights().len(),
        same_but_for_case(phrase, rights()[k]),
        forall|j: int| 0 <= j < a.len() ==> (#[trigger] a[j] as int) < 0x80,
        forall|j: int| 0 <= j < b.len() ==> (#[trigger] b[j] as int) < 0x80,
        script.len() < 5 || script.take(5) != "sudo "@,
    ensures
        correct::correction_for(script, a + phrase + b, commands, named) == Some(
            "sudo "@ + script,
        ),
{
    let output = a + phrase + b;
    assert forall|j: int| 0 <= j < output.len() implies (#[trigger] output[j] as int) < 0x80 by {
        if j < a.len() {
            assert(output[j] == a[j]);
        } else if j < a.len() + phrase.len() {
            assert(output[j] == phrase[j - a.len()]);
        } else {
            assert(output[j] == b[j - a.len() - phrase.len()]);
        }
    }
    let l = prompt::lower(output);
    let x = l.take(a.len() as int);
    let y = l.skip((a.len() + phrase.len()) as int);
    let p = rights()[k];
    assert(l =~= x + p + y) by {
        assert forall|j: int| 0 <= j < l.len() implies l[j] == (x + p + y)[j] by {
            if a.len() <= j < a.len() + phrase.len() {
                assert(output[j] == phrase[j - a.len()]);
                assert((phrase[j - a.len()] as int) < 0x80);
                assert(prompt::ascii_lower(output[j]) == p[j - a.len()]);
            }
        }
    }
    law_rights_come_before_other_faults(script, x, k, y, output, commands, named);
}

/// A directory that is missing where one wants to go to it is made first.
pub proof fn law_missing_directory_is_made(
    dir: Seq<char>,
    a: Seq<char>,
    said: Seq<char>,
    b: Seq<char>,
    output: Seq<char>,
    commands: Seq<Seq<char>>,
    named: Seq<Seq<char>>,
)
    requires
        !dir.contains('\u{a0}'),
        dir.len() > 0,
        !text::white_space(dir[0]),
        !text::white_space(dir.last()),
        said == "no such file or directory"@ || said == "can't cd to"@ || said
            == "does not exist"@,
        silent_on(a + said + b, rights()),
    ensures
        correct::corrected("cd "@ + dir, output, a + said + b, commands, named) == Some(
            "mkdir -p "@ + dir + " && cd "@ + dir,
        ),
{
    let lower = a + said + b;
    let script = "cd "@ + dir;
    reveal_strlit("cd ");
    reveal_strlit("cd");
    reveal_strlit("mkdir -p ");
    lemma_mentions_inside(a, said, b);
    lemma_not_allowed(lower);
    lemma_at_front("cd "@, dir);
    assert(script.skip(3) =~= dir);
    assert(text::trimmed_start(dir) == dir);
    assert(text::trimmed(dir) == dir);
    assert("cd "@ =~= "cd"@ + seq![' ']);
    let rest = seq![' '] + dir;
    assert(script =~= "cd"@ + rest);
    lemma_first_word("cd"@, rest);
    lemma_plain_first_word();
    assert(!script.contains('\u{a0}')) by {
        if script.contains('\u{a0}') {
            let k = choose|k: int| 0 <= k < script.len() && script[k] == '\u{a0}';
            if k >= 3 {
                assert(script[k] == dir[k - 3]);
                assert(dir.contains('\u{a0}'));
            }
        }
    }
    lemma_well_typed(script);
    assert(("mkdir -p "@ + dir + " && cd "@ + dir)[0] == 'm');
    assert(script[0] == 'c');
}

/// The first words of the commands below are spelt right.
proof fn lemma_plain_first_word()
    ensures
        !misspelt("cd"@),
        !misspelt("cat"@),
        !misspelt("rm"@),
        !misspelt("cp"@),
        !misspelt("git"@),
{
    reveal_strlit("cd");
    reveal_strlit("cat");
    reveal_strlit("rm");
    reveal_strlit("cp");
    reveal_strlit("git");
    reveal_strlit("sl");
    reveal_strlit("dc");
    reveal_strlit("pyhton");
    reveal_strlit("pythno");
    reveal_strlit("pythn");
    reveal_strlit("pytohn");
    reveal_strlit("pythno3");
    reveal_strlit("pyhton3");
    reveal_strlit("gip");
    reveal_strlit("igt");
    reveal_strlit("gi");
    reveal_strlit("k8s");
    reveal_strlit("dockr");
    reveal_strlit("dokcer");
    reveal_strlit("dockr-compose");
    reveal_strlit("dokcer-compose");
    assert("cd"@[0] == 'c' && "cat"@[0] == 'c' && "rm"@[0] == 'r' && "cp"@[0] == 'c' && "git"@[0]
        == 'g' && "git"@[2] == 't');
    assert("sl"@[0] == 's' && "dc"@[0] == 'd' && "pyhton"@[0] == 'p' && "pythno"@[0] == 'p'
        && "pythn"@[0] == 'p' && "pytohn"@[0] == 'p' && "pythno3"@[0] == 'p' && "pyhton3"@[0]
        == 'p' && "gip"@[2] == 'p' && "igt"@[0] == 'i' && "k8s"@[0] == 'k' && "dockr"@[0] == 'd'
        && "dokcer"@[0] == 'd' && "dockr-compose"@[0] == 'd' && "dokcer-compose"@[0] == 'd');
    assert("gi"@.len() == 2 && "git"@.len() == 3 && "cd"@.len() == 2);
}

/// A first word that is no command gives way to the command that is most like
/// it, and the rest of the line stays.
pub proof fn law_unknown_command_is_replaced(
    bad: Seq<char>,
    rest: Seq<char>,
    a: Seq<char>,
    b: Seq<char>,
    lower: Seq<char>,
    commands: Seq<Seq<char>>,
    named: Seq<Seq<char>>,
)
    requires
        bad.len() > 0,
        forall|k: int| 0 <= k < bad.len() ==> !text::white_space(#[trigger] bad[k]),
        rest.len() > 0 ==> rest[0] == ' ',
        well_typed(bad + rest),
        bad != "cd"@,
        silent_on(lower, rights()),
        commands.len() > 0,
        commands[0] != bad,
    ensures
        correct::corrected(
            bad + rest,
            a + "command not found"@ + b,
            lower,
            commands,
            named,
        ) == Some(commands[0] + rest),
{
    let script = bad + rest;
    lemma_well_typed(script);
    lemma_not_allowed(lower);
    lemma_mentions_inside(a, "command not found"@, b);
    lemma_first_word(bad, rest);
    lemma_replaced_at_front(bad, commands[0], rest);
    reveal_strlit("cd ");
    reveal_strlit("cd");
    if text::begins(script, "cd "@) {
        assert(script.take(3)[0] == 'c' && script.take(3)[1] == 'd' && script.take(3)[2] == ' ');
        assert(script[0] == 'c' && script[1] == 'd' && script[2] == ' ');
        if bad.len() >= 3 {
            assert(bad[2] == ' ');
            assert(text::white_space(bad[2]));
        } else if bad.len() == 2 {
            assert(bad =~= "cd"@);
        } else {
            assert(rest[0] == script[1]);
        }
    }
    let to = commands[0];
    if to + rest == script {
        assert(to.len() == bad.len());
        assert forall|k: int| 0 <= k < to.len() implies to[k] == bad[k] by {
            assert((to + rest)[k] == to[k]);
            assert((bad + rest)[k] == bad[k]);
        }
        assert(to =~= bad);
    }
}

/// Reading a directory lists it, removing one takes all that is in it, and
/// copying one copies that too, where the output tells that this was the fault.
pub proof fn law_directories_are_handled(
    rest: Seq<char>,
    output: Seq<char>,
    lower: Seq<char>,
    commands: Seq<Seq<char>>,
    named: Seq<Seq<char>>,
)
    requires
        !rest.contains('\u{a0}'),
        silent_on(lower, rights()),
        !text::mentions(output, "command not found"@),
    ensures
        ({
            let fix = |s: Seq<char>| correct::corrected(s, output, lower, commands, named);
            let directory = text::mentions(lower, "is a directory"@);
            &&& directory && text::mentions(lower, "cat:"@) ==> fix("cat "@ + rest) == Some(
                "ls "@ + rest,
            )
            &&& (directory || text::mentions(lower, "cannot remove"@)) && !text::mentions(
                "rm "@ + rest,
                " -r"@,
            ) ==> fix("rm "@ + rest) == Some("rm -rf "@ + rest)
            &&& (directory || text::mentions(lower, "omitting directory"@)) && !text::mentions(
                "cp "@ + rest,
                " -r"@,
            ) ==> fix("cp "@ + rest) == Some("cp -r "@ + rest)
        }),
{
    lemma_not_allowed(lower);
    lemma_plain_first_word();
    reveal_strlit("cat ");
    reveal_strlit("cat");
    reveal_strlit("ls ");
    reveal_strlit("ls");
    reveal_strlit("rm ");
    reveal_strlit("rm");
    reveal_strlit("rm -rf ");
    reveal_strlit("cp ");
    reveal_strlit("cp");
    reveal_strlit("cp -r ");
    reveal_strlit("cd ");
    lemma_known_first("cat"@, rest);
    lemma_known_first("rm"@, rest);
    lemma_known_first("cp"@, rest);
    let tail = seq![' '] + rest;
    let cat = "cat "@ + rest;
    let rm = "rm "@ + rest;
    let cp = "cp "@ + rest;
    assert(cat =~= "cat"@ + tail);
    assert(rm =~= "rm"@ + tail);
    assert(cp =~= "cp"@ + tail);
    assert("ls "@ + rest =~= "ls"@ + tail);
    lemma_replaced_at_front("cat"@, "ls"@, tail);
    lemma_at_front("cat "@, rest);
    lemma_at_front("rm "@, rest);
    lemma_at_front("cp "@, rest);
    assert(cat[1] == 'a' && rm[0] == 'r' && cp[1] == 'p');
    assert(!text::begins(cat, "cd "@)) by {
        assert(cat.take(3)[1] == 'a');
    }
    assert(!text::begins(rm, "cd "@)) by {
        assert(rm.take(3)[0] == 'r');
    }
    assert(!text::begins(cp, "cd "@)) by {
        assert(cp.take(3)[1] == 'p');
    }
    assert(!text::begins(rm, "cat "@)) by {
        assert(rm.len() >= 4 ==> rm.take(4)[0] == 'r');
    }
    assert(!text::begins(cp, "cat "@)) by {
        assert(cp.len() >= 4 ==> cp.take(4)[1] == 'p');
    }
    assert(!text::begins(cp, "rm "@)) by {
        assert(cp.take(3)[0] == 'c');
    }
    assert(("ls "@ + rest)[0] == 'l' && cat[0] == 'c');
    assert(("rm -rf "@ + rest).len() != rm.len());
    assert(("cp -r "@ + rest).len() != cp.len());
    assert(rm.skip(3) =~= rest);
    assert(cp.skip(3) =~= rest);
}

proof fn lemma_known_first(w: Seq<char>, rest: Seq<char>)
    requires
        w.len() > 0,
        forall|k: int| 0 <= k < w.len() ==> '!' <= #[trigger] w[k] <= '~',
        !misspelt(w),
        !rest.contains('\u{a0}'),
    ensures
        well_typed(w + (seq![' '] + rest)),
        correct::space_fix(w + (seq![' '] + rest)) is None,
        correct::typo_fix(w + (seq![' '] + rest)) is None,
        text::words_of(w + (seq![' '] + rest)).len() > 0,
{
    let tail = seq![' '] + rest;
    let s = w + tail;
    lemma_first_word(w, tail);
    if s.contains('\u{a0}') {
        let k = choose|k: int| 0 <= k < s.len() && s[k] == '\u{a0}';
        if k > w.len() {
            assert(s[k] == rest[k - w.len() - 1]);
            assert(rest.contains('\u{a0}'));
        } else if k < w.len() {
            assert(s[k] == w[k]);
        }
    }
    lemma_well_typed(s);
}

/// Where nothing is wrong that is known, there is no correction.
pub proof fn law_no_fault_no_correction(
    script: Seq<char>,
    output: Seq<char>,
    lower: Seq<char>,
    commands: Seq<Seq<char>>,
    named: Seq<Seq<char>>,
)
    requires
        well_typed(script),
        silent_on(lower, rights()),
        silent_on(
            lower,
            seq![
                "no such file or directory"@,
                "can't cd to"@,
                "does not exist"@,
                "is a directory"@,
                "cannot remove"@,
                "omitting directory"@,
            ],
        ),
        !text::mentions(output, "command not found"@),
        !text::mentions(output, "is not a git command"@),
    ensures
        correct::corrected(script, output, lower, commands, named) is None,
{
    let others = seq![
        "no such file or directory"@,
        "can't cd to"@,
        "does not exist"@,
        "is a directory"@,
        "cannot remove"@,
        "omitting directory"@,
    ];
    assert(!text::mentions(lower, others[0]));
    assert(!text::mentions(lower, others[1]));
    assert(!text::mentions(lower, others[2]));
    assert(!text::mentions(lower, others[3]));
    assert(!text::mentions(lower, others[4]));
    assert(!text::mentions(lower, others[5]));
    lemma_well_typed(script);
    lemma_not_allowed(lower);
}

// ---------------------------------------------------------------------------
// Commands of git
// ---------------------------------------------------------------------------

proof fn lemma_line(w: Seq<char>)
    requires
        !w.contains('\n'),
        w.len() > 0 ==> w.last() != '\r',
    ensures
        text::lines_of(w.push('\n')) == seq![w],
{
    text::lemma_one_line(w);
}

proof fn lemma_named(head: Seq<char>, announcing: Seq<char>, good: Seq<char>)
    requires
        head.len() > 0,
        !head.contains('\n'),
        head.last() != '\r',
        !correct::announces(head),
        announcing.len() > 0,
        !announcing.contains('\n'),
        announcing.last() != '\r',
        correct::announces(announcing),
        good.len() > 0,
        !correct::announces(seq!['\t'] + good),
        forall|k: int| 0 <= k < good.len() ==> !text::white_space(#[trigger] good[k]),
    ensures
        correct::named_by_git(
            text::lines_of(
                head.push('\n') + announcing.push('\n') + (seq!['\t'] + good).push('\n'),
            ),
            0,
            false,
            Seq::empty(),
        ) == seq![good],
{
    let last = seq!['\t'] + good;
    let a = head.push('\n');
    let b = announcing.push('\n');
    let c = last.push('\n');
    let output = a + b + c;
    assert(!last.contains('\n')) by {
        if last.contains('\n') {
            let k = choose|k: int| 0 <= k < last.len() && last[k] == '\n';
            assert(last[k] == good[k - 1]);
            assert(text::white_space(good[k - 1]));
        }
    }
    assert(last.last() == good[good.len() - 1]);
    lemma_line(head);
    lemma_line(announcing);
    lemma_line(last);
    assert(output =~= a + (b + c));
    text::lemma_lines_append(a, b + c);
    text::lemma_lines_append(b, c);
    let ls = seq![head, announcing, last];
    assert(text::lines_of(output) =~= ls);
    assert(last.drop_first() =~= good);
    assert(text::trimmed_start(good) == good);
    assert(text::trimmed_start(last) == good);
    assert(!text::white_space(good[good.len() - 1]));
    assert(text::trimmed(last) == good);
    let none = Seq::<Seq<char>>::empty();
    let named = none.push(good);
    assert(correct::named_by_git(ls, 3, false, named) == named);
    assert(correct::named_by_git(ls, 2, true, none) == named);
    assert(correct::named_by_git(ls, 1, false, none) == named);
    assert(correct::named_by_git(ls, 0, false, none) == named);
    assert(named =~= seq![good]);
}

proof fn lemma_unknown(bad: Seq<char>, rest: Seq<char>)
    requires
        !bad.contains('\''),
    ensures
        correct::unknown_git("git: '"@ + (bad + seq!['\''] + rest)) == Some(bad),
{
    reveal_strlit("git: '");
    let after = bad + seq!['\''] + rest;
    lemma_at_front("git: '"@, after);
    assert(after[bad.len() as int] == '\'');
    assert(after.contains('\''));
    text::lemma_until(after, '\'');
    let u = text::until(after, '\'') as int;
    if u < bad.len() {
        assert(after[u] == bad[u]);
        assert(bad.contains('\''));
    }
    assert(after.take(u) =~= bad);
}

/// Where git does not know a command, and says which one it takes to be meant, it
/// is that one that is found in its output: the line behind the one that announces
/// it.
pub proof fn law_git_names_what_is_meant(
    bad: Seq<char>,
    tail: Seq<char>,
    announcing: Seq<char>,
    good: Seq<char>,
)
    requires
        !bad.contains('\''),
        !bad.contains('\n'),
        !tail.contains('\n'),
        tail.len() > 0,
        tail.last() != '\r',
        text::mentions(tail, "is not a git command"@),
        !correct::announces("git: '"@ + bad + seq!['\''] + tail),
        announcing.len() > 0,
        !announcing.contains('\n'),
        announcing.last() != '\r',
        text::mentions(announcing, "The most similar command"@) || text::mentions(
            announcing,
            "Did you mean"@,
        ),
        good.len() > 0,
        !correct::announces(seq!['\t'] + good),
        forall|k: int| 0 <= k < good.len() ==> !text::white_space(#[trigger] good[k]),
    ensures
        correct::git_mistake_in(
            ("git: '"@ + bad + seq!['\''] + tail).push('\n') + announcing.push('\n') + (seq!['\t']
                + good).push('\n'),
        ) == Some((bad, seq![good])),
{
    let head = "git: '"@ + bad + seq!['\''] + tail;
    let a = head.push('\n');
    let b = announcing.push('\n');
    let c = (seq!['\t'] + good).push('\n');
    let output = a + b + c;
    assert(!head.contains('\n')) by {
        reveal_strlit("git: '");
        if head.contains('\n') {
            let k = choose|k: int| 0 <= k < head.len() && head[k] == '\n';
            if 6 <= k < 6 + bad.len() {
                assert(head[k] == bad[k - 6]);
                assert(bad.contains('\n'));
            } else if k > 6 + bad.len() {
                assert(head[k] == tail[k - 7 - bad.len()]);
                assert(tail.contains('\n'));
            }
        }
    }
    assert(head.last() == tail.last());
    lemma_named(head, announcing, good);
    let rest = tail + seq!['\n'] + b + c;
    lemma_unknown(bad, rest);
    assert(output =~= "git: '"@ + (bad + seq!['\''] + rest));
    let x = "git: '"@ + bad + seq!['\''];
    let y = seq!['\n'] + b + c;
    lemma_mentions_within(x, tail, y, "is not a git command"@);
    assert(x + tail + y =~= output);
    let z = seq!['\n'] + c;
    if text::mentions(announcing, "The most similar command"@) {
        lemma_mentions_within(a, announcing, z, "The most similar command"@);
    } else {
        lemma_mentions_within(a, announcing, z, "Did you mean"@);
    }
    assert(a + announcing + z =~= output);
}

proof fn lemma_mentions_within(a: Seq<char>, s: Seq<char>, b: Seq<char>, p: Seq<char>)
    requires
        text::mentions(s, p),
    ensures
        text::mentions(a + s + b, p),
{
    let i = choose|i: int| text::occurs_at(s, p, i);
    let all = a + s + b;
    assert(all.subrange(a.len() + i, a.len() + i + p.len()) =~= s.subrange(i, i + p.len()));
    assert(text::occurs_at(all, p, a.len() + i));
}

/// A command that git does not know gives way to the one that is meant, in its
/// first place, and the rest of the line stays.
pub proof fn law_git_command_is_replaced(
    before: Seq<char>,
    bad: Seq<char>,
    after: Seq<char>,
    output: Seq<char>,
    lower: Seq<char>,
    commands: Seq<Seq<char>>,
    good: Seq<char>,
)
    requires
        well_typed(before + bad + after),
        silent_on(lower, rights()),
        silent_on(lower, seq!["is a directory"@, "cannot remove"@, "omitting directory"@]),
        silent_on(lower, seq!["no such file or directory"@, "can't cd to"@, "does not exist"@]),
        !text::mentions(output, "command not found"@),
        correct::git_mistake_in(output) matches Some((b, _)) && b == bad,
        forall|k: int| 0 <= k < before.len() ==> !#[trigger] text::occurs_at(
            before + bad + after,
            bad,
            k,
        ),
        good.len() > 0,
        forall|k: int| 0 <= k < good.len() ==> !text::white_space(#[trigger] good[k]),
        good != bad,
    ensures
        correct::corrected(before + bad + after, output, lower, commands, seq![good]) == Some(
            before + good + after,
        ),
{
    let script = before + bad + after;
    let x = seq!["is a directory"@, "cannot remove"@, "omitting directory"@];
    let y = seq!["no such file or directory"@, "can't cd to"@, "does not exist"@];
    assert(!text::mentions(lower, x[0]));
    assert(!text::mentions(lower, x[1]));
    assert(!text::mentions(lower, x[2]));
    assert(!text::mentions(lower, y[0]));
    assert(!text::mentions(lower, y[1]));
    assert(!text::mentions(lower, y[2]));
    lemma_well_typed(script);
    lemma_not_allowed(lower);
    assert(text::trimmed_start(good) == good);
    assert(!text::white_space(good[good.len() - 1]));
    assert(text::trimmed(good) == good);
    text::lemma_found_from(script, bad, 0);
    assert(script.subrange(before.len() as int, (before.len() + bad.len()) as int) =~= bad);
    assert(text::occurs_at(script, bad, before.len() as int));
    let k = text::found(script, bad)->0;
    assert(k == before.len());
    assert(script.take(k) =~= before);
    assert(script.skip(k + bad.len()) =~= after);
    let r = before + good + after;
    if r == script {
        assert(good.len() == bad.len());
        assert forall|j: int| 0 <= j < good.len() implies good[j] == bad[j] by {
            assert(r[before.len() + j] == good[j]);
            assert(script[before.len() + j] == bad[j]);
        }
        assert(good =~= bad);
    }
}

// ---------------------------------------------------------------------------
// Asking
// ---------------------------------------------------------------------------

/// A question is answered by the keys for yes and no, in either case, and a line
/// that is ended, or the end of the input, means yes. Other keys answer nothing.
pub proof fn law_answers_are_understood(b: u8)
    ensures
        correct::wish_of(None) == correct::Answer::Yes,
        b == 'y' as u8 || b == 'Y' as u8 || b == 13 || b == 10 ==> correct::wish_of(Some(b))
            == correct::Answer::Yes,
        b == 'n' as u8 || b == 'N' as u8 ==> correct::wish_of(Some(b)) == correct::Answer::No,
        b != 'y' as u8 && b != 'Y' as u8 && b != 13 && b != 10 && b != 'n' as u8 && b != 'N' as u8
            ==> correct::wish_of(Some(b)) == correct::Answer::Unclear,
{
}

/// What is asked shows the command and its correction; where a directory is
/// missing, what is shown of the correction is that the directory is made.
pub proof fn law_question_shows_both(script: Seq<char>, lower: Seq<char>, fix: Seq<char>, dir: Seq<char>)
    ensures
        script.len() < 3 || script.take(3) != "cd "@ ==> correct::question(script, lower, fix)
            == "btsh: shit: "@ + script + " -> "@ + fix + " ? [y/n] "@,
        dir.len() > 0 && !text::white_space(dir[0]) && !text::white_space(dir.last())
            && text::mentions(lower, "no such file or directory"@) ==> correct::question(
            "cd "@ + dir,
            lower,
            "mkdir -p "@ + dir + " && cd "@ + dir,
        ) == "btsh: shit: "@ + ("cd "@ + dir) + " -> "@ + ("mkdir -p "@ + dir) + " ? [y/n] "@,
{
    reveal_strlit("cd ");
    let s = "cd "@ + dir;
    lemma_at_front("cd "@, dir);
    assert(s.skip(3) =~= dir);
    if dir.len() > 0 && !text::white_space(dir[0]) && !text::white_space(dir.last()) {
        assert(text::trimmed_start(dir) == dir);
        assert(text::trimmed(dir) == dir);
    }
}

/// Of the possibilities that are good enough the best are given, three at most, and of
/// those that are equally good the first come first.
pub proof fn law_three_are_given(
    ps: Seq<Seq<char>>,
    scores: Seq<u64>,
    cutoff: u64,
    i: int,
    j: int,
)
    requires
        ps.len() == scores.len(),
        0 <= i < scores.len(),
        0 <= j < scores.len(),
    ensures
        ({
            let r = correct::best_three(ps, scores, cutoff);
            &&& r.len() <= 3
            &&& (forall|k: int| 0 <= k < scores.len() ==> #[trigger] scores[k] < cutoff) ==> r.len()
                == 0
            &&& scores[i] >= cutoff && (forall|k: int|
                0 <= k < scores.len() && k != i ==> #[trigger] scores[k] < scores[i]) ==> r.len() > 0
                && r[0] == ps[i]
            &&& i < j && scores[i] == scores[j] && scores[i] >= cutoff && (forall|k: int|
                0 <= k < scores.len() && k != i && k != j ==> #[trigger] scores[k] < scores[i])
                ==> r.len() >= 2 && r[0] == ps[i] && r[1] == ps[j]
        }),
{
    let n = scores.len() as int;
    let q = correct::ranked(scores, cutoff, n);
    correct::law_ranking(scores, cutoff, n);
    assert forall|x: int| 0 <= x < q.len() implies 0 <= #[trigger] q[x] < n && scores[q[x]]
        >= cutoff by {
        assert(q.contains(q[x]));
    }
    if q.len() > 0 {
        assert(q.contains(q[0]));
    }
    if scores[i] >= cutoff && (forall|k: int|
        0 <= k < n && k != i ==> #[trigger] scores[k] < scores[i]) {
        assert(q.contains(i));
        let x = q.index_of(i);
        if x > 0 {
            assert(correct::ranks_before(q[0], q[x], scores));
            assert(scores[q[0]] < scores[i] || q[0] == i);
        }
    }
    if i < j && scores[i] == scores[j] && scores[i] >= cutoff && (forall|k: int|
        0 <= k < n && k != i && k != j ==> #[trigger] scores[k] < scores[i]) {
        assert(q.contains(i) && q.contains(j));
        let x = q.index_of(i);
        let y = q.index_of(j);
        if x > 0 {
            assert(correct::ranks_before(q[0], q[x], scores));
            assert(scores[q[0]] < scores[i] || q[0] == i || q[0] == j);
        }
        assert(x == 0);
        if y > 1 {
            assert(correct::ranks_before(q[1], q[y], scores));
            assert(correct::ranks_before(q[0], q[1], scores));
            assert(scores[q[1]] < scores[i] || q[1] == i || q[1] == j);
        }
    }
}

} // verus!
