//! What a shell remembers: variables, aliases, switches and jobs.

use vstd::prelude::*;
use vstd::string::*;

use crate::numbers;
use crate::numbers::{u64_to_string, usize_to_string};
use crate::order;
use crate::text;
use crate::text::{copies, same};

verus! {

// ---------------------------------------------------------------------------
// Texts by name
// ---------------------------------------------------------------------------

/// Texts, each under a name of its own.
pub struct StringMap {
    names: Vec<String>,
    values: Vec<String>,
}

impl View for StringMap {
    type V = Map<Seq<char>, Seq<char>>;

    closed spec fn view(&self) -> Map<Seq<char>, Seq<char>> {
        by_name(text::texts(self.names@), text::texts(self.values@))
    }
}

/// The map that gives the `k`th name the `k`th value.
pub open spec fn by_name(names: Seq<Seq<char>>, values: Seq<Seq<char>>) -> Map<
    Seq<char>,
    Seq<char>,
> {
    Map::new(|n: Seq<char>| names.contains(n), |n: Seq<char>| values[names.index_of(n)])
}

proof fn lemma_by_name(names: Seq<Seq<char>>, values: Seq<Seq<char>>, k: int)
    requires
        names.no_duplicates(),
        names.len() == values.len(),
        0 <= k < names.len(),
    ensures
        by_name(names, values).dom().contains(names[k]),
        by_name(names, values)[names[k]] == values[k],
{
    assert(names.contains(names[k]));
    let i = names.index_of(names[k]);
    assert(names[i] == names[k]);
}

impl StringMap {
    /// No name stands twice.
    #[verifier::type_invariant]
    pub closed spec fn wf(&self) -> bool {
        &&& self.names.len() == self.values.len()
        &&& text::texts(self.names@).no_duplicates()
    }

    pub fn new() -> (m: StringMap)
        ensures
            m@ == Map::<Seq<char>, Seq<char>>::empty(),
    {
        let m = StringMap { names: Vec::new(), values: Vec::new() };
        assert(m@ =~= Map::<Seq<char>, Seq<char>>::empty());
        m
    }

    fn index(&self, name: &str) -> (r: Option<usize>)
        ensures
            match r {
                Some(k) => k < self.names.len() && self.names@[k as int]@ == name@,
                None => !self@.dom().contains(name@),
            },
    {
        let mut i: usize = 0;
        while i < self.names.len()
            invariant
                i <= self.names.len(),
                forall|k: int| 0 <= k < i ==> (#[trigger] self.names@[k])@ != name@,
            decreases self.names.len() - i,
        {
            if same(self.names[i].as_str(), name) {
                return Some(i);
            }
            i += 1;
        }
        None
    }

    pub fn contains(&self, name: &str) -> (r: bool)
        ensures
            r == self@.dom().contains(name@),
    {
        match self.index(name) {
            Some(k) => {
                assert(text::texts(self.names@)[k as int] == name@);
                true
            },
            None => false,
        }
    }

    pub fn get(&self, name: &str) -> (r: Option<String>)
        ensures
            match r {
                Some(v) => self@.dom().contains(name@) && self@[name@] == v@,
                None => !self@.dom().contains(name@),
            },
    {
        proof {
            use_type_invariant(self);
        }
        match self.index(name) {
            Some(k) => {
                proof {
                    lemma_by_name(text::texts(self.names@), text::texts(self.values@), k as int);
                }
                Some(self.values[k].clone())
            },
            None => None,
        }
    }

    pub fn insert(&mut self, name: &str, value: &str)
        ensures
            final(self)@ == old(self)@.insert(name@, value@),
    {
        proof {
            use_type_invariant(&*self);
        }
        let ghost before = text::texts(self.names@);
        let ghost held = text::texts(self.values@);
        let mut names = copies(&self.names);
        let mut values = copies(&self.values);
        match self.index(name) {
            Some(k) => {
                proof {
                    lemma_by_name(before, held, k as int);
                }
                assert(before[k as int] == name@);
                values.set(k, text::owned(value));
                assert(text::texts(values@) =~= held.update(k as int, value@));
                assert forall|n: Seq<char>| before.contains(n) implies #[trigger] by_name(
                    before,
                    text::texts(values@),
                )[n] == by_name(before, held).insert(name@, value@)[n] by {
                    let i = before.index_of(n);
                    assert(before[i] == n);
                    lemma_by_name(before, text::texts(values@), i);
                    lemma_by_name(before, held, i);
                }
                assert(by_name(before, text::texts(values@)) =~= by_name(before, held).insert(
                    name@,
                    value@,
                ));
            },
            None => {
                names.push(text::owned(name));
                values.push(text::owned(value));
                let ghost now = text::texts(names@);
                let ghost hold = text::texts(values@);
                assert(now =~= before.push(name@));
                assert(hold =~= held.push(value@));
                assert(now.no_duplicates());
                assert forall|n: Seq<char>|
                    now.contains(n) == (before.contains(n) || n == name@) by {
                    if now.contains(n) {
                        let i = now.index_of(n);
                        if i < before.len() {
                            assert(before[i] == n);
                        }
                    }
                    if before.contains(n) {
                        let i = before.index_of(n);
                        assert(now[i] == n);
                    }
                    assert(now[before.len() as int] == name@);
                }
                assert forall|n: Seq<char>| now.contains(n) implies #[trigger] by_name(now, hold)[n]
                    == by_name(before, held).insert(name@, value@)[n] by {
                    if n == name@ {
                        lemma_by_name(now, hold, before.len() as int);
                    } else {
                        let i = before.index_of(n);
                        assert(before[i] == n);
                        lemma_by_name(now, hold, i);
                        lemma_by_name(before, held, i);
                    }
                }
                assert(by_name(now, hold) =~= by_name(before, held).insert(name@, value@));
            },
        }
        *self = StringMap { names, values };
    }

    /// Takes `name` out, and says whether it was there.
    pub fn remove(&mut self, name: &str) -> (r: bool)
        ensures
            r == old(self)@.dom().contains(name@),
            final(self)@ == old(self)@.remove(name@),
    {
        proof {
            use_type_invariant(&*self);
        }
        let ghost before = text::texts(self.names@);
        let ghost held = text::texts(self.values@);
        match self.index(name) {
            Some(k) => {
                let mut names = copies(&self.names);
                let mut values = copies(&self.values);
                assert(before[k as int] == name@);
                names.remove(k);
                values.remove(k);
                let ghost now = text::texts(names@);
                let ghost hold = text::texts(values@);
                assert(now =~= before.remove(k as int));
                assert(hold =~= held.remove(k as int));
                assert forall|n: Seq<char>|
                    now.contains(n) == (before.contains(n) && n != name@) by {
                    if now.contains(n) {
                        let i = now.index_of(n);
                        if i < k {
                            assert(before[i] == n);
                        } else {
                            assert(before[i + 1] == n);
                        }
                    }
                    if before.contains(n) && n != name@ {
                        let i = before.index_of(n);
                        if i < k {
                            assert(now[i] == n);
                        } else {
                            assert(now[i - 1] == n);
                        }
                    }
                }
                assert forall|n: Seq<char>| now.contains(n) implies #[trigger] by_name(now, hold)[n]
                    == by_name(before, held)[n] by {
                    let i = before.index_of(n);
                    assert(before[i] == n);
                    lemma_by_name(before, held, i);
                    if i < k {
                        lemma_by_name(now, hold, i);
                    } else {
                        lemma_by_name(now, hold, i - 1);
                    }
                }
                assert(by_name(now, hold) =~= by_name(before, held).remove(name@));
                *self = StringMap { names, values };
                true
            },
            None => {
                assert(self@ =~= old(self)@.remove(name@));
                false
            },
        }
    }

    pub fn clear(&mut self)
        ensures
            final(self)@ == Map::<Seq<char>, Seq<char>>::empty(),
    {
        *self = StringMap::new();
    }

    /// The names, each once, in order.
    pub fn sorted_names(&self) -> (r: Vec<String>)
        ensures
            order::sorted(text::texts(r@)),
            text::texts(r@).no_duplicates(),
            text::texts(r@).to_set() == self@.dom(),
    {
        broadcast use vstd::seq_lib::group_to_multiset_ensures;

        proof {
            use_type_invariant(self);
        }
        let ghost before = text::texts(self.names@);
        let r = order::sort(copies(&self.names));
        let ghost now = text::texts(r@);
        proof {
            before.lemma_multiset_has_no_duplicates();
            now.lemma_multiset_has_no_duplicates_conv();
            assert forall|n: Seq<char>| now.contains(n) == before.contains(n) by {
                assert(now.contains(n) <==> now.to_multiset().count(n) > 0);
                assert(before.contains(n) <==> before.to_multiset().count(n) > 0);
            }
            assert(now.to_set() =~= self@.dom());
        }
        r
    }
}

impl Clone for StringMap {
    fn clone(&self) -> (r: StringMap)
        ensures
            r@ == self@,
    {
        proof {
            use_type_invariant(self);
        }
        let names = copies(&self.names);
        let values = copies(&self.values);
        StringMap { names, values }
    }
}

// ---------------------------------------------------------------------------
// The shell
// ---------------------------------------------------------------------------

/// The state of a shell between two commands.
pub struct Shell {
    /// The exit code of the last command.
    pub last_exit: i32,
    /// The process that was put into the background last.
    pub last_bg_pid: Option<u32>,
    /// The background processes that have not ended yet.
    pub running_bg: Vec<u32>,
    pub vars: StringMap,
    pub aliases: StringMap,
    /// The file that settings are kept in, if they are kept.
    pub config_path: Option<String>,
    pub last_cmd: String,
    pub prev_cmd: String,
    /// Whether this is a process of its own that runs a background job.
    pub background_job: bool,
    pub logging: bool,
    pub shit: bool,
    pub history: bool,
    pub autosuggest: bool,
    pub prompt_on_failure: bool,
    /// Whether history and settings are left alone.
    pub fresh: bool,
}

#[verifier::ext_equal]
pub struct ShellV {
    pub last_exit: i32,
    pub last_bg_pid: Option<u32>,
    pub running_bg: Seq<u32>,
    pub vars: Map<Seq<char>, Seq<char>>,
    pub aliases: Map<Seq<char>, Seq<char>>,
    pub config_path: Option<Seq<char>>,
    pub last_cmd: Seq<char>,
    pub prev_cmd: Seq<char>,
    pub background_job: bool,
    pub logging: bool,
    pub shit: bool,
    pub history: bool,
    pub autosuggest: bool,
    pub prompt_on_failure: bool,
    pub fresh: bool,
}

/// The text of an optional text.
pub open spec fn opt(s: Option<String>) -> Option<Seq<char>> {
    match s {
        Some(t) => Some(t@),
        None => None,
    }
}

impl View for Shell {
    type V = ShellV;

    open spec fn view(&self) -> ShellV {
        ShellV {
            last_exit: self.last_exit,
            last_bg_pid: self.last_bg_pid,
            running_bg: self.running_bg@,
            vars: self.vars@,
            aliases: self.aliases@,
            config_path: opt(self.config_path),
            last_cmd: self.last_cmd@,
            prev_cmd: self.prev_cmd@,
            background_job: self.background_job,
            logging: self.logging,
            shit: self.shit,
            history: self.history,
            autosuggest: self.autosuggest,
            prompt_on_failure: self.prompt_on_failure,
            fresh: self.fresh,
        }
    }
}

/// A shell before its first command.
pub open spec fn first_state(config_path: Option<Seq<char>>, fresh: bool) -> ShellV {
    ShellV {
        last_exit: 0,
        last_bg_pid: None,
        running_bg: Seq::empty(),
        vars: Map::empty(),
        aliases: Map::empty(),
        config_path,
        last_cmd: Seq::empty(),
        prev_cmd: Seq::empty(),
        background_job: false,
        logging: false,
        shit: true,
        history: true,
        autosuggest: true,
        prompt_on_failure: true,
        fresh,
    }
}

/// A shell that remembers one more command.
pub open spec fn remembered(s: ShellV, cmd: Seq<char>) -> ShellV {
    ShellV { prev_cmd: s.last_cmd, last_cmd: cmd, ..s }
}

/// A shell with one more background process, and the line that announces it.
pub open spec fn with_job(s: ShellV, pid: u32) -> (ShellV, Seq<char>) {
    (
        ShellV { last_bg_pid: Some(pid), running_bg: s.running_bg.push(pid), ..s },
        "["@ + numbers::digits(s.running_bg.len() + 1) + "] "@ + numbers::digits(pid as nat),
    )
}

impl Shell {
    pub fn new(config_path: Option<String>, fresh: bool) -> (r: Shell)
        ensures
            r@ == first_state(opt(config_path), fresh),
    {
        Shell {
            last_exit: 0,
            last_bg_pid: None,
            running_bg: Vec::new(),
            vars: StringMap::new(),
            aliases: StringMap::new(),
            config_path,
            last_cmd: String::new(),
            prev_cmd: String::new(),
            background_job: false,
            logging: false,
            shit: true,
            history: true,
            autosuggest: true,
            prompt_on_failure: true,
            fresh,
        }
    }

    /// Makes `cmd` the last command, and the last one the one before it.
    pub fn remember(&mut self, cmd: &str)
        ensures
            final(self)@ == (ShellV { prev_cmd: old(self)@.last_cmd, last_cmd: cmd@, ..old(self)@ }),
            final(self)@ == remembered(old(self)@, cmd@),
    {
        self.prev_cmd = self.last_cmd.clone();
        self.last_cmd = text::owned(cmd);
    }

    /// Takes note of a process that was put into the background, and returns
    /// the line that announces it and the exit code.
    pub fn started_background(&mut self, pid: u32) -> (r: (String, i32))
        requires
            old(self)@.running_bg.len() < usize::MAX,
        ensures
            r.0@ == "["@ + numbers::digits(old(self)@.running_bg.len() + 1) + "] "@
                + numbers::digits(pid as nat),
            r.1 == 0,
            final(self)@ == (ShellV {
                last_bg_pid: Some(pid),
                running_bg: old(self)@.running_bg.push(pid),
                ..old(self)@
            }),
            (final(self)@, r.0@) == with_job(old(self)@, pid),
    {
        let mut line = text::owned("[");
        line.append(usize_to_string(self.running_bg.len() + 1).as_str());
        line.append("] ");
        line.append(u64_to_string(pid as u64).as_str());
        self.last_bg_pid = Some(pid);
        self.running_bg.push(pid);
        (line, 0)
    }
}

/// A shell in the same state.
pub fn clone_shell(shell: &Shell) -> (r: Shell)
    ensures
        r@ == shell@,
{
    let mut running_bg: Vec<u32> = Vec::new();
    let mut i: usize = 0;
    while i < shell.running_bg.len()
        invariant
            i <= shell.running_bg.len(),
            running_bg@ =~= shell.running_bg@.take(i as int),
        decreases shell.running_bg.len() - i,
    {
        running_bg.push(shell.running_bg[i]);
        i += 1;
    }
    let config_path = match &shell.config_path {
        Some(p) => Some(p.clone()),
        None => None,
    };
    let r = Shell {
        last_exit: shell.last_exit,
        last_bg_pid: shell.last_bg_pid,
        running_bg,
        vars: shell.vars.clone(),
        aliases: shell.aliases.clone(),
        config_path,
        last_cmd: shell.last_cmd.clone(),
        prev_cmd: shell.prev_cmd.clone(),
        background_job: shell.background_job,
        logging: shell.logging,
        shit: shell.shit,
        history: shell.history,
        autosuggest: shell.autosuggest,
        prompt_on_failure: shell.prompt_on_failure,
        fresh: shell.fresh,
    };
    assert(r@ =~= shell@);
    r
}

// ---------------------------------------------------------------------------
// Processes that ended
// ---------------------------------------------------------------------------

/// The exit code that stands for how a process ended: its own, or, where a
/// signal ended it, 128 and the signal's number.
pub open spec fn exit_code(code: Option<i32>, signal: Option<i32>) -> int {
    match code {
        Some(c) => c as int,
        None => match signal {
            Some(s) => 128 + s,
            None => 1,
        },
    }
}

pub fn exit_status_code(code: Option<i32>, signal: Option<i32>) -> (r: i32)
    requires
        code is None ==> exit_code(code, signal) <= i32::MAX,
    ensures
        r == exit_code(code, signal),
{
    match code {
        Some(c) => c,
        None => match signal {
            Some(s) => 128 + s,
            None => 1,
        },
    }
}

/// Calls `libc::WIFEXITED`. A process ended by itself where the lowest seven
/// bits of its wait status are zero.
#[verifier::external_body]
fn exited(status: i32) -> (r: bool)
    ensures
        r == (status & 0x7f == 0),
{
    libc::WIFEXITED(status)
}

/// Calls `libc::WIFSIGNALED`. A signal ended a process where the lowest seven
/// bits of its wait status are neither all zero nor all one.
#[verifier::external_body]
fn signaled(status: i32) -> (r: bool)
    ensures
        r == (status & 0x7f != 0 && status & 0x7f != 0x7f),
{
    libc::WIFSIGNALED(status)
}

/// What waiting for a process without blocking gave: the number of the process
/// whose status changed, and that status.
#[derive(Clone, Copy)]
pub struct WaitReply {
    pub pid: i32,
    pub status: i32,
}

/// The number of a process as the system writes it.
pub open spec fn system_pid(pid: u32) -> int {
    if pid <= i32::MAX {
        pid as int
    } else {
        pid - 0x1_0000_0000
    }
}

/// Whether the reply says that the process has ended: the lowest seven bits of
/// the status are all one for a process that was stopped or went on.
pub open spec fn ended(pid: u32, reply: WaitReply) -> bool {
    reply.pid == system_pid(pid) && reply.status & 0x7f != 0x7f
}

/// The processes of `pids` that have not ended, going by the reply at the same
/// place. A process without a reply has not ended.
pub open spec fn still_running(pids: Seq<u32>, replies: Seq<WaitReply>) -> Seq<u32>
    decreases pids.len(),
{
    if pids.len() == 0 {
        Seq::empty()
    } else {
        let k = pids.len() - 1;
        let rest = still_running(pids.drop_last(), replies);
        if k < replies.len() && ended(pids[k], replies[k]) {
            rest
        } else {
            rest.push(pids[k])
        }
    }
}

fn to_system_pid(pid: u32) -> (r: i32)
    ensures
        r == system_pid(pid),
{
    if pid <= 0x7fff_ffff {
        pid as i32
    } else {
        (pid as i64 - 0x1_0000_0000) as i32
    }
}

/// Drops the background processes that have ended.
pub fn reap_background(shell: &mut Shell, replies: &Vec<WaitReply>)
    ensures
        final(shell)@ == (ShellV {
            running_bg: still_running(old(shell)@.running_bg, replies@),
            ..old(shell)@
        }),
{
    let mut left: Vec<u32> = Vec::new();
    let mut i: usize = 0;
    let ghost all = shell.running_bg@;
    while i < shell.running_bg.len()
        invariant
            i <= shell.running_bg.len(),
            all == shell.running_bg@,
            left@ == still_running(all.take(i as int), replies@),
        decreases shell.running_bg.len() - i,
    {
        let pid = shell.running_bg[i];
        assert(all.take(i + 1).drop_last() =~= all.take(i as int));
        let mut gone = false;
        if i < replies.len() && replies[i].pid == to_system_pid(pid) {
            let status = replies[i].status;
            gone = exited(status) || signaled(status);
        }
        if !gone {
            left.push(pid);
        }
        i += 1;
    }
    assert(all.take(all.len() as int) =~= all);
    shell.running_bg = left;
}

/// A process stays in the list exactly where no reply says that it has ended.
pub proof fn law_reaping_keeps_what_runs(pids: Seq<u32>, replies: Seq<WaitReply>, p: u32)
    ensures
        still_running(pids, replies).contains(p) <==> exists|k: int|
            0 <= k < pids.len() && #[trigger] pids[k] == p && !(k < replies.len() && ended(
                p,
                replies[k],
            )),
    decreases pids.len(),
{
    if pids.len() > 0 {
        let k = pids.len() - 1;
        let front = pids.drop_last();
        let rest = still_running(front, replies);
        let now = still_running(pids, replies);
        law_reaping_keeps_what_runs(front, replies, p);
        if rest.contains(p) {
            let j = choose|j: int|
                0 <= j < front.len() && #[trigger] front[j] == p && !(j < replies.len() && ended(
                    p,
                    replies[j],
                ));
            assert(pids[j] == p);
            let i = rest.index_of(p);
            assert(now[i] == p);
        }
        if now.contains(p) && !rest.contains(p) {
            let i = now.index_of(p);
            if i < rest.len() {
                assert(rest[i] == p);
            }
            assert(pids[k] == p);
        }
        if exists|j: int|
            0 <= j < pids.len() && #[trigger] pids[j] == p && !(j < replies.len() && ended(
                p,
                replies[j],
            )) {
            let j = choose|j: int|
                0 <= j < pids.len() && #[trigger] pids[j] == p && !(j < replies.len() && ended(
                    p,
                    replies[j],
                ));
            if j < k {
                assert(front[j] == p);
                let i = rest.index_of(p);
                assert(now[i] == p);
            } else {
                assert(now[rest.len() as int] == p);
            }
        }
    }
}

} // verus!
