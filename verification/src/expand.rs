//! What a word stands for: quotes taken away, variables, command substitutions
//! and the home directory put in, and file names put in for patterns.

use vstd::prelude::*;
use vstd::string::*;

use crate::brace;
use crate::brace::brace_expand;
use crate::numbers;
use crate::numbers::{i128_to_string, u64_to_string};
use crate::order;
use crate::parser;
use crate::parser::{copy_redirects, Simple};
use crate::shell::{Shell, ShellV, StringMap};
use crate::text;
use crate::text::{from_range, is_ascii_space, owned, to_chars, trim, trim_end_of};
use crate::token;

verus! {

// ---------------------------------------------------------------------------
// What a word refers to
// ---------------------------------------------------------------------------

/// What a `$` refers to.
pub enum Reference {
    /// The output of a command.
    Command(String),
    /// The exit code of the last command.
    LastExit,
    /// The number of the shell's process.
    Pid,
    /// The number of the process that was put into the background last.
    LastBackground,
    /// The variable of this name.
    Named(String),
    /// Nothing: the `$` stands for itself.
    Dollar,
}

#[verifier::ext_equal]
pub enum ReferenceV {
    Command(Seq<char>),
    LastExit,
    Pid,
    LastBackground,
    Named(Seq<char>),
    Dollar,
}

impl View for Reference {
    type V = ReferenceV;

    open spec fn view(&self) -> ReferenceV {
        match *self {
            Reference::Command(c) => ReferenceV::Command(c@),
            Reference::LastExit => ReferenceV::LastExit,
            Reference::Pid => ReferenceV::Pid,
            Reference::LastBackground => ReferenceV::LastBackground,
            Reference::Named(n) => ReferenceV::Named(n@),
            Reference::Dollar => ReferenceV::Dollar,
        }
    }
}

/// Whether a character is a letter or a digit of some script.
pub uninterp spec fn alphanumeric(c: char) -> bool;

/// `char::is_alphanumeric` depends on the character alone. Among the ASCII
/// characters it picks the digits and the letters.
pub assume_specification[ char::is_alphanumeric ](c: char) -> (r: bool)
    ensures
        r == alphanumeric(c),
        (c as int) < 0x80 ==> r == (text::ascii_digit(c) || text::ascii_letter(c)),
;

/// Whether a character can stand in a name: a letter or a digit of some script,
/// or an underscore.
pub open spec fn name_char(c: char) -> bool {
    if (c as int) < 0x80 {
        text::ascii_digit(c) || text::ascii_letter(c) || c == '_'
    } else {
        alphanumeric(c)
    }
}

fn is_name_char(c: char) -> (r: bool)
    ensures
        r == name_char(c),
{
    c.is_alphanumeric() || c == '_'
}

/// Where the run of name characters that goes on at `i` ends.
pub open spec fn name_end(s: Seq<char>, i: int) -> int
    decreases s.len() - i,
{
    if 0 <= i < s.len() && name_char(s[i]) {
        name_end(s, i + 1)
    } else {
        i
    }
}

proof fn lemma_name_end(s: Seq<char>, i: int)
    requires
        0 <= i <= s.len(),
    ensures
        i <= name_end(s, i) <= s.len(),
    decreases s.len() - i,
{
    if i < s.len() && name_char(s[i]) {
        lemma_name_end(s, i + 1);
    }
}

/// The text of the command substitution that starts at `i`, and where it ends.
pub open spec fn substitution(s: Seq<char>, i: int) -> (Seq<char>, int) {
    match token::paren_end(s, i, 1) {
        Some(j) => (s.subrange(i, j - 1), j),
        None => (s.skip(i), s.len() as int),
    }
}

/// What the `$` before place `i` refers to, and where the reference ends.
pub open spec fn reference_at(s: Seq<char>, i: int) -> (ReferenceV, int) {
    match token::char_at(s, i) {
        Some('(') => {
            let (cmd, j) = substitution(s, i + 1);
            (ReferenceV::Command(cmd), j)
        },
        Some('?') => (ReferenceV::LastExit, i + 1),
        Some('$') => (ReferenceV::Pid, i + 1),
        Some('!') => (ReferenceV::LastBackground, i + 1),
        Some('{') => {
            let n = text::until(s.skip(i + 1), '}') as int;
            if i + 1 + n < s.len() {
                (ReferenceV::Named(s.subrange(i + 1, i + 1 + n)), i + n + 2)
            } else {
                (ReferenceV::Named(s.skip(i + 1)), s.len() as int)
            }
        },
        Some(c) => if name_char(c) {
            (ReferenceV::Named(s.subrange(i, name_end(s, i))), name_end(s, i))
        } else {
            (ReferenceV::Dollar, i)
        },
        None => (ReferenceV::Dollar, i),
    }
}

pub proof fn lemma_reference_at(s: Seq<char>, i: int)
    requires
        0 <= i <= s.len(),
    ensures
        i <= reference_at(s, i).1 <= s.len(),
{
    if i < s.len() {
        lemma_name_end(s, i);
        token::lemma_paren_end(s, i + 1, 1);
        text::lemma_until(s.skip(i + 1), '}');
    }
}

/// Reads the command substitution that starts at `from`.
fn read_command(v: &Vec<char>, from: usize) -> (r: (String, usize))
    requires
        0 < from <= v.len(),
    ensures
        r.0@ == substitution(v@, from as int).0,
        r.1 == substitution(v@, from as int).1,
        from <= r.1 <= v.len(),
{
    let mut i: usize = from;
    let mut depth: usize = 1;
    while i < v.len()
        invariant
            0 < from <= i <= v.len(),
            1 <= depth <= 1 + i - from,
            token::paren_end(v@, i as int, depth as nat) == token::paren_end(v@, from as int, 1),
        decreases v.len() - i,
    {
        if v[i] == '(' {
            depth += 1;
        } else if v[i] == ')' {
            if depth == 1 {
                return (from_range(v, from, i), i + 1);
            }
            depth -= 1;
        }
        i += 1;
    }
    assert(v@.subrange(from as int, v.len() as int) =~= v@.skip(from as int));
    (from_range(v, from, v.len()), v.len())
}

/// Reads what the `$` before place `from` refers to.
pub fn read_var(v: &Vec<char>, from: usize) -> (r: (Reference, usize))
    requires
        from <= v.len(),
    ensures
        r.0@ == reference_at(v@, from as int).0,
        r.1 == reference_at(v@, from as int).1,
        from <= r.1 <= v.len(),
{
    proof {
        lemma_reference_at(v@, from as int);
    }
    if from == v.len() {
        return (Reference::Dollar, from);
    }
    let c = v[from];
    if c == '(' {
        let (cmd, j) = read_command(v, from + 1);
        (Reference::Command(cmd), j)
    } else if c == '?' {
        (Reference::LastExit, from + 1)
    } else if c == '$' {
        (Reference::Pid, from + 1)
    } else if c == '!' {
        (Reference::LastBackground, from + 1)
    } else if c == '{' {
        let mut i: usize = from + 1;
        let ghost rest = v@.skip(from + 1);
        assert(v@.skip(i as int) =~= rest);
        while i < v.len() && v[i] != '}'
            invariant
                from + 1 <= i <= v.len(),
                rest == v@.skip(from + 1),
                text::until(rest, '}') == (i - from - 1) + text::until(v@.skip(i as int), '}'),
            decreases v.len() - i,
        {
            assert(v@.skip(i as int).drop_first() =~= v@.skip(i + 1));
            i += 1;
        }
        if i < v.len() {
            (Reference::Named(from_range(v, from + 1, i)), i + 1)
        } else {
            assert(v@.subrange(from + 1, v.len() as int) =~= v@.skip(from + 1));
            (Reference::Named(from_range(v, from + 1, i)), i)
        }
    } else if is_name_char(c) {
        let mut i: usize = from;
        while i < v.len() && is_name_char(v[i])
            invariant
                from <= i <= v.len(),
                name_end(v@, from as int) == name_end(v@, i as int),
            decreases v.len() - i,
        {
            i += 1;
        }
        (Reference::Named(from_range(v, from, i)), i)
    } else {
        (Reference::Dollar, from)
    }
}

// ---------------------------------------------------------------------------
// The parts of a word
// ---------------------------------------------------------------------------

/// A part of a word.
pub enum Part {
    /// A character that stands for itself.
    Literal(char),
    /// A `~`, and whether what follows lets it stand for the home directory.
    Tilde(bool),
    /// The value of a reference, and whether it is quoted, so that white space
    /// in it does not end the word.
    Value(Reference, bool),
}

#[verifier::ext_equal]
pub enum PartV {
    Literal(Seq<char>),
    Tilde(bool),
    Value(ReferenceV, bool),
}

impl View for Part {
    type V = PartV;

    open spec fn view(&self) -> PartV {
        match *self {
            Part::Literal(c) => PartV::Literal(seq![c]),
            Part::Tilde(f) => PartV::Tilde(f),
            Part::Value(r, q) => PartV::Value(r@, q),
        }
    }
}

pub open spec fn part_views(v: Seq<Part>) -> Seq<PartV> {
    v.map_values(|p: Part| p@)
}

pub broadcast proof fn part_views_push(v: Seq<Part>, p: Part)
    ensures
        #[trigger] part_views(v.push(p)) == part_views(v).push(p@),
{
    assert(part_views(v.push(p)) =~= part_views(v).push(p@));
}

/// Where in a word reading is: outside quotes, or inside single or double ones.
#[derive(PartialEq, Eq, Structural, Clone, Copy)]
pub enum Quote {
    Plain,
    Single,
    Double,
}

/// Whether a `~` with this behind it can stand for the home directory.
pub open spec fn ends_tilde(next: Option<char>) -> bool {
    match next {
        Some(c) => c == '/' || text::ascii_space(c) || c == ':',
        None => true,
    }
}

/// The parts of a word from place `i` on, behind `acc`.
pub open spec fn parts_from(s: Seq<char>, i: int, q: Quote, acc: Seq<PartV>) -> Seq<PartV>
    decreases s.len() - i,
{
    if i < 0 || i >= s.len() {
        acc
    } else {
        let c = s[i];
        let next = token::char_at(s, i + 1);
        match q {
            Quote::Plain => if c == '\\' {
                match next {
                    Some(n) => parts_from(s, i + 2, q, acc.push(PartV::Literal(seq![n]))),
                    None => parts_from(s, i + 1, q, acc.push(PartV::Literal(seq!['\\']))),
                }
            } else if c == '\'' {
                parts_from(s, i + 1, Quote::Single, acc)
            } else if c == '"' {
                parts_from(s, i + 1, Quote::Double, acc)
            } else if c == '$' {
                proof {
                    lemma_reference_at(s, i + 1);
                }
                let (r, j) = reference_at(s, i + 1);
                parts_from(s, j, q, acc.push(PartV::Value(r, false)))
            } else if c == '~' {
                parts_from(s, i + 1, q, acc.push(PartV::Tilde(ends_tilde(next))))
            } else {
                parts_from(s, i + 1, q, acc.push(PartV::Literal(seq![c])))
            },
            Quote::Single => if c == '\'' {
                parts_from(s, i + 1, Quote::Plain, acc)
            } else {
                parts_from(s, i + 1, q, acc.push(PartV::Literal(seq![c])))
            },
            Quote::Double => if c == '"' {
                parts_from(s, i + 1, Quote::Plain, acc)
            } else if c == '\\' {
                match next {
                    None => parts_from(s, i + 1, q, acc.push(PartV::Literal(seq!['\\']))),
                    Some('\n') => parts_from(s, i + 2, q, acc),
                    Some(n) => if n == '$' || n == '`' || n == '"' || n == '\\' {
                        parts_from(s, i + 2, q, acc.push(PartV::Literal(seq![n])))
                    } else {
                        parts_from(
                            s,
                            i + 2,
                            q,
                            acc.push(PartV::Literal(seq!['\\'])).push(PartV::Literal(seq![n])),
                        )
                    },
                }
            } else if c == '$' {
                proof {
                    lemma_reference_at(s, i + 1);
                }
                let (r, j) = reference_at(s, i + 1);
                parts_from(s, j, q, acc.push(PartV::Value(r, true)))
            } else {
                parts_from(s, i + 1, q, acc.push(PartV::Literal(seq![c])))
            },
        }
    }
}

/// The parts of a word.
pub open spec fn parts_of(s: Seq<char>) -> Seq<PartV> {
    parts_from(s, 0, Quote::Plain, Seq::empty())
}

fn literal(c: char) -> (p: Part)
    ensures
        p@ == PartV::Literal(seq![c]),
{
    Part::Literal(c)
}

/// The parts of a word.
pub fn word_parts(word: &str) -> (r: Vec<Part>)
    ensures
        part_views(r@) == parts_of(word@),
{
    let v = to_chars(word);
    let mut r: Vec<Part> = Vec::new();
    let mut q = Quote::Plain;
    let mut i: usize = 0;
    assert(part_views(r@) =~= Seq::empty());
    while i < v.len()
        invariant
            i <= v.len(),
            v@ == word@,
            parts_from(v@, i as int, q, part_views(r@)) == parts_of(word@),
        decreases v.len() - i,
    {
        broadcast use part_views_push;

        let c = v[i];
        let next = if i + 1 < v.len() {
            Some(v[i + 1])
        } else {
            None
        };
        assert(next == token::char_at(v@, i + 1));
        if q == Quote::Single {
            if c == '\'' {
                q = Quote::Plain;
            } else {
                r.push(literal(c));
            }
            i += 1;
        } else if c == '\\' {
            match next {
                None => {
                    r.push(literal('\\'));
                    i += 1;
                },
                Some(n) => {
                    if q == Quote::Double && n == '\n' {
                    } else {
                        if q == Quote::Double && n != '$' && n != '`' && n != '"' && n != '\\' {
                            r.push(literal('\\'));
                        }
                        r.push(literal(n));
                    }
                    i += 2;
                },
            }
        } else if c == '"' {
            q = if q == Quote::Plain {
                Quote::Double
            } else {
                Quote::Plain
            };
            i += 1;
        } else if c == '$' {
            let (reference, j) = read_var(&v, i + 1);
            r.push(Part::Value(reference, q == Quote::Double));
            i = j;
        } else if q == Quote::Plain && c == '\'' {
            q = Quote::Single;
            i += 1;
        } else if q == Quote::Plain && c == '~' {
            let free = match next {
                Some(n) => n == '/' || is_ascii_space(n) || n == ':',
                None => true,
            };
            r.push(Part::Tilde(free));
            i += 1;
        } else {
            r.push(literal(c));
            i += 1;
        }
    }
    r
}

// ---------------------------------------------------------------------------
// Command substitution
// ---------------------------------------------------------------------------

/// The commands whose output the parts ask for, in order.
pub open spec fn commands_in(parts: Seq<PartV>) -> Seq<Seq<char>>
    decreases parts.len(),
{
    if parts.len() == 0 {
        Seq::empty()
    } else {
        let front = commands_in(parts.drop_last());
        match parts.last() {
            PartV::Value(ReferenceV::Command(c), _) => front.push(c),
            _ => front,
        }
    }
}

/// The commands whose output the word asks for, in order.
pub fn word_commands(word: &str) -> (r: Vec<String>)
    ensures
        text::texts(r@) == commands_in(parts_of(word@)),
{
    let parts = word_parts(word);
    let mut r: Vec<String> = Vec::new();
    let mut i: usize = 0;
    let ghost all = part_views(parts@);
    assert(text::texts(r@) =~= commands_in(all.take(0)));
    while i < parts.len()
        invariant
            i <= parts.len(),
            all == part_views(parts@),
            text::texts(r@) == commands_in(all.take(i as int)),
        decreases parts.len() - i,
    {
        broadcast use text::texts_push;

        assert(all.take(i + 1).drop_last() =~= all.take(i as int));
        assert(all.take(i + 1).last() == parts@[i as int]@);
        if let Part::Value(Reference::Command(c), _) = &parts[i] {
            r.push(c.clone());
        }
        i += 1;
    }
    assert(all.take(all.len() as int) =~= all);
    r
}

/// What to hand to the system's shell for a command substitution, if there is
/// anything to run.
pub fn subshell_script(cmd: &str) -> (r: Option<String>)
    ensures
        match r {
            Some(s) => s@ == text::trimmed(cmd@) && s@.len() > 0,
            None => text::trimmed(cmd@).len() == 0,
        },
{
    let s = trim(cmd);
    if s.as_str().unicode_len() == 0 {
        None
    } else {
        Some(s)
    }
}

/// What a command substitution stands for: the output of the command without
/// the line feeds at its end. Output that is no text, or none at all, stands
/// for nothing.
pub open spec fn output_of(output: Option<Seq<char>>) -> Seq<char> {
    match output {
        Some(s) => text::trimmed_end_of(s, '\n'),
        None => Seq::empty(),
    }
}

pub fn subshell_output(output: Option<String>) -> (r: String)
    ensures
        r@ == output_of(crate::shell::opt(output)),
{
    match output {
        Some(s) => trim_end_of(s.as_str(), '\n'),
        None => String::new(),
    }
}

/// The first answer, or nothing where there is none left.
pub open spec fn first_answer(answers: Seq<Seq<char>>) -> Seq<char> {
    if answers.len() > 0 {
        answers[0]
    } else {
        Seq::empty()
    }
}

/// The answers without the first `n`.
pub open spec fn later(answers: Seq<Seq<char>>, n: nat) -> Seq<Seq<char>> {
    if n < answers.len() {
        answers.skip(n as int)
    } else {
        Seq::empty()
    }
}

/// A text with the output of its command substitutions put in, from place `i`
/// on, behind `acc`.
pub open spec fn substituted_from(
    s: Seq<char>,
    i: int,
    acc: Seq<char>,
    answers: Seq<Seq<char>>,
) -> Seq<char>
    decreases s.len() - i,
{
    if i < 0 || i >= s.len() {
        acc
    } else if s[i] == '$' && token::char_at(s, i + 1) == Some('(') {
        proof {
            token::lemma_paren_end(s, i + 2, 1);
        }
        substituted_from(
            s,
            substitution(s, i + 2).1,
            acc + first_answer(answers),
            later(answers, 1),
        )
    } else {
        substituted_from(s, i + 1, acc.push(s[i]), answers)
    }
}

/// The commands that a text asks for from place `i` on, behind `acc`.
pub open spec fn substitutions_from(s: Seq<char>, i: int, acc: Seq<Seq<char>>) -> Seq<Seq<char>>
    decreases s.len() - i,
{
    if i < 0 || i >= s.len() {
        acc
    } else if s[i] == '$' && token::char_at(s, i + 1) == Some('(') {
        proof {
            token::lemma_paren_end(s, i + 2, 1);
        }
        substitutions_from(s, substitution(s, i + 2).1, acc.push(substitution(s, i + 2).0))
    } else {
        substitutions_from(s, i + 1, acc)
    }
}

/// The commands whose output `expand_subshells` puts in, in order.
pub fn text_commands(input: &str) -> (r: Vec<String>)
    ensures
        text::texts(r@) == substitutions_from(input@, 0, Seq::empty()),
{
    let v = to_chars(input);
    let mut r: Vec<String> = Vec::new();
    let mut i: usize = 0;
    assert(text::texts(r@) =~= Seq::empty());
    while i < v.len()
        invariant
            i <= v.len(),
            v@ == input@,
            substitutions_from(v@, i as int, text::texts(r@)) == substitutions_from(
                input@,
                0,
                Seq::empty(),
            ),
        decreases v.len() - i,
    {
        broadcast use text::texts_push;

        if v[i] == '$' && i + 1 < v.len() && v[i + 1] == '(' {
            let (cmd, j) = read_command(&v, i + 2);
            r.push(cmd);
            i = j;
        } else {
            i += 1;
        }
    }
    r
}

/// How many commands a text asks for from place `i` on.
pub open spec fn asked_from(s: Seq<char>, i: int) -> nat
    decreases s.len() - i,
{
    if i < 0 || i >= s.len() {
        0
    } else if s[i] == '$' && token::char_at(s, i + 1) == Some('(') {
        proof {
            token::lemma_paren_end(s, i + 2, 1);
        }
        1 + asked_from(s, substitution(s, i + 2).1)
    } else {
        asked_from(s, i + 1)
    }
}

/// The text with its command substitutions replaced by the answers from `from`
/// on, and the number of answers that have been used.
pub fn substitute(input: &str, answers: &Vec<String>, from: usize) -> (r: (String, usize))
    requires
        from <= answers.len(),
    ensures
        r.0@ == substituted_from(
            input@,
            0,
            Seq::empty(),
            later(text::texts(answers@), from as nat),
        ),
        r.1 <= answers.len(),
        later(text::texts(answers@), r.1 as nat) == later(
            later(text::texts(answers@), from as nat),
            asked_from(input@, 0),
        ),
{
    let v = to_chars(input);
    let mut r = String::new();
    let mut i: usize = 0;
    let mut used: usize = from;
    let ghost all = text::texts(answers@);
    let ghost first = later(all, from as nat);
    let ghost want = substituted_from(input@, 0, Seq::empty(), first);
    assert(r@ =~= Seq::empty());
    while i < v.len()
        invariant
            i <= v.len(),
            v@ == input@,
            all == text::texts(answers@),
            used <= answers.len(),
            substituted_from(v@, i as int, r@, later(all, used as nat)) == want,
            later(later(all, used as nat), asked_from(v@, i as int)) == later(
                first,
                asked_from(v@, 0),
            ),
        decreases v.len() - i,
    {
        if v[i] == '$' && i + 1 < v.len() && v[i + 1] == '(' {
            let (cmd, j) = read_command(&v, i + 2);
            let ghost left = later(all, used as nat);
            let ghost n = asked_from(v@, j as int);
            if used < answers.len() {
                r.append(answers[used].as_str());
                assert(left[0] == answers@[used as int]@);
                assert(later(left, 1) =~= later(all, (used + 1) as nat));
                used += 1;
            } else {
                assert(later(left, 1) =~= left);
                assert(r@ + first_answer(left) =~= r@);
            }
            assert(later(left, n + 1) =~= later(later(left, 1), n));
            i = j;
        } else {
            r.push(v[i]);
            i += 1;
        }
    }
    assert(later(later(all, used as nat), 0) =~= later(all, used as nat));
    (r, used)
}

/// The text with its command substitutions replaced by `answers`, in order.
pub fn expand_subshells(input: &str, answers: &Vec<String>) -> (r: String)
    ensures
        r@ == substituted_from(input@, 0, Seq::empty(), text::texts(answers@)),
{
    assert(later(text::texts(answers@), 0) =~= text::texts(answers@));
    substitute(input, answers, 0).0
}

// ---------------------------------------------------------------------------
// Values
// ---------------------------------------------------------------------------

/// What the process knows of its surroundings.
pub struct Environment {
    /// The environment variables.
    pub vars: StringMap,
    /// The number of the process.
    pub pid: u32,
}

pub struct EnvironmentV {
    pub vars: Map<Seq<char>, Seq<char>>,
    pub pid: u32,
}

impl View for Environment {
    type V = EnvironmentV;

    open spec fn view(&self) -> EnvironmentV {
        EnvironmentV { vars: self.vars@, pid: self.pid }
    }
}

/// The value of a variable: of the environment if it has one of this name, else
/// of the shell, else nothing.
pub open spec fn resolved(name: Seq<char>, shell: ShellV, env: EnvironmentV) -> Seq<char> {
    if env.vars.dom().contains(name) {
        env.vars[name]
    } else if shell.vars.dom().contains(name) {
        shell.vars[name]
    } else {
        Seq::empty()
    }
}

pub fn resolve_var(name: &str, shell: &Shell, env: &Environment) -> (r: String)
    ensures
        r@ == resolved(name@, shell@, env@),
{
    match env.vars.get(name) {
        Some(v) => v,
        None => match shell.vars.get(name) {
            Some(v) => v,
            None => String::new(),
        },
    }
}

/// The home directory, or the current one where none is known.
pub open spec fn home_of(env: EnvironmentV) -> Seq<char> {
    if env.vars.dom().contains("HOME"@) {
        env.vars["HOME"@]
    } else {
        "."@
    }
}

fn home(env: &Environment) -> (r: String)
    ensures
        r@ == home_of(env@),
{
    match env.vars.get("HOME") {
        Some(v) => v,
        None => owned("."),
    }
}

/// The value of a reference. `answer` is the output of the command that it may
/// ask for.
pub open spec fn value_of(
    r: ReferenceV,
    answer: Seq<char>,
    shell: ShellV,
    env: EnvironmentV,
) -> Seq<char> {
    match r {
        ReferenceV::Command(_) => answer,
        ReferenceV::LastExit => numbers::decimal(shell.last_exit as int),
        ReferenceV::Pid => numbers::digits(env.pid as nat),
        ReferenceV::LastBackground => match shell.last_bg_pid {
            Some(p) => numbers::digits(p as nat),
            None => Seq::empty(),
        },
        ReferenceV::Named(n) => resolved(n, shell, env),
        ReferenceV::Dollar => seq!['$'],
    }
}

fn value(r: &Reference, answer: &str, shell: &Shell, env: &Environment) -> (v: String)
    ensures
        v@ == value_of(r@, answer@, shell@, env@),
{
    match r {
        Reference::Command(_) => owned(answer),
        Reference::LastExit => i128_to_string(shell.last_exit as i128),
        Reference::Pid => u64_to_string(env.pid as u64),
        Reference::LastBackground => match shell.last_bg_pid {
            Some(p) => u64_to_string(p as u64),
            None => String::new(),
        },
        Reference::Named(n) => resolve_var(n.as_str(), shell, env),
        Reference::Dollar => {
            proof {
                reveal_strlit("$");
            }
            owned("$")
        },
    }
}

// ---------------------------------------------------------------------------
// Evaluation
// ---------------------------------------------------------------------------

/// The words that are complete, and the one that is being built.
#[verifier::ext_equal]
pub struct Fields {
    pub done: Seq<Seq<char>>,
    pub current: Seq<char>,
}

/// A value without quotes, from place `k` on: white space ends the word that is
/// being built. `gap` says that white space came just before; another one then
/// ends an empty word.
pub open spec fn split_from(val: Seq<char>, k: int, f: Fields, gap: bool) -> Fields
    decreases val.len() - k,
{
    if k < 0 || k >= val.len() {
        f
    } else if text::ascii_space(val[k]) {
        if f.current.len() > 0 || gap {
            split_from(
                val,
                k + 1,
                Fields { done: f.done.push(f.current), current: Seq::empty() },
                true,
            )
        } else {
            split_from(val, k + 1, f, true)
        }
    } else {
        split_from(val, k + 1, Fields { current: f.current.push(val[k]), ..f }, false)
    }
}

/// The fields after one more part.
pub open spec fn with_part(
    p: PartV,
    f: Fields,
    answer: Seq<char>,
    shell: ShellV,
    env: EnvironmentV,
) -> Fields {
    match p {
        PartV::Literal(t) => Fields { current: f.current + t, ..f },
        PartV::Tilde(free) => if free && f.current.len() == 0 && f.done.len() == 0 {
            Fields { current: home_of(env), ..f }
        } else {
            Fields { current: f.current.push('~'), ..f }
        },
        PartV::Value(r, true) => Fields {
            current: f.current + value_of(r, answer, shell, env),
            ..f
        },
        PartV::Value(r, false) => split_from(value_of(r, answer, shell, env), 0, f, false),
    }
}

pub open spec fn asks(p: PartV) -> bool {
    p matches PartV::Value(ReferenceV::Command(_), _)
}

/// The fields after the parts from place `k` on. Each command takes the next
/// answer.
pub open spec fn evaluated(
    parts: Seq<PartV>,
    k: int,
    f: Fields,
    answers: Seq<Seq<char>>,
    shell: ShellV,
    env: EnvironmentV,
) -> Fields
    decreases parts.len() - k,
{
    if k < 0 || k >= parts.len() {
        f
    } else {
        evaluated(
            parts,
            k + 1,
            with_part(parts[k], f, first_answer(answers), shell, env),
            if asks(parts[k]) {
                later(answers, 1)
            } else {
                answers
            },
            shell,
            env,
        )
    }
}

/// The words that the fields give: at least one, and none that is empty at the
/// end of several.
pub open spec fn finished(f: Fields) -> Seq<Seq<char>> {
    if f.current.len() > 0 {
        f.done.push(f.current)
    } else if f.done.len() == 0 {
        seq![Seq::empty()]
    } else {
        f.done
    }
}

/// Nothing yet.
pub open spec fn no_fields() -> Fields {
    Fields { done: Seq::empty(), current: Seq::empty() }
}

/// The words that a word without brace groups stands for.
pub open spec fn fields_of(
    word: Seq<char>,
    answers: Seq<Seq<char>>,
    shell: ShellV,
    env: EnvironmentV,
) -> Seq<Seq<char>> {
    finished(evaluated(parts_of(word), 0, no_fields(), answers, shell, env))
}

/// The words that several words stand for, one after the other.
pub open spec fn all_fields(
    words: Seq<Seq<char>>,
    answers: Seq<Seq<char>>,
    shell: ShellV,
    env: EnvironmentV,
) -> Seq<Seq<char>>
    decreases words.len(),
{
    if words.len() == 0 {
        Seq::empty()
    } else {
        fields_of(words[0], answers, shell, env) + all_fields(
            words.drop_first(),
            later(answers, commands_in(parts_of(words[0])).len()),
            shell,
            env,
        )
    }
}

/// Puts a value without quotes behind what there is.
fn split_value(val: &str, done: &mut Vec<String>, current: &mut String)
    ensures
        (Fields { done: text::texts(final(done)@), current: final(current)@ }) == split_from(
            val@,
            0,
            Fields { done: text::texts(old(done)@), current: old(current)@ },
            false,
        ),
{
    let v = to_chars(val);
    let mut gap = false;
    let mut i: usize = 0;
    let ghost start = Fields { done: text::texts(done@), current: current@ };
    while i < v.len()
        invariant
            i <= v.len(),
            v@ == val@,
            split_from(
                v@,
                i as int,
                Fields { done: text::texts(done@), current: current@ },
                gap,
            ) == split_from(val@, 0, start, false),
        decreases v.len() - i,
    {
        broadcast use text::texts_push;

        let c = v[i];
        if is_ascii_space(c) {
            if current.as_str().unicode_len() > 0 || gap {
                done.push(current.clone());
                *current = String::new();
                assert(current@ =~= Seq::empty());
            }
            gap = true;
        } else {
            current.push(c);
            gap = false;
        }
        i += 1;
    }
}

/// The words that the parts stand for, with the answers from `from` on, and the
/// number of answers that have been used.
fn evaluate(parts: &Vec<Part>, shell: &Shell, env: &Environment, answers: &Vec<String>, from: usize) -> (r:
    (Vec<String>, usize))
    requires
        from <= answers.len(),
    ensures
        text::texts(r.0@) == finished(
            evaluated(
                part_views(parts@),
                0,
                no_fields(),
                later(text::texts(answers@), from as nat),
                shell@,
                env@,
            ),
        ),
        r.1 <= answers.len(),
        later(text::texts(answers@), r.1 as nat) == later(
            later(text::texts(answers@), from as nat),
            commands_in(part_views(parts@)).len(),
        ),
{
    broadcast use text::texts_push;

    let mut done: Vec<String> = Vec::new();
    let mut current = String::new();
    let mut used: usize = from;
    let mut i: usize = 0;
    let ghost all = part_views(parts@);
    let ghost given = text::texts(answers@);
    let ghost want = evaluated(all, 0, no_fields(), later(given, from as nat), shell@, env@);
    assert(text::texts(done@) =~= Seq::empty());
    assert(current@ =~= Seq::empty());
    assert(later(later(given, from as nat), 0) =~= later(given, from as nat));
    assert(all.take(0) =~= Seq::empty());
    while i < parts.len()
        invariant
            i <= parts.len(),
            used <= answers.len(),
            all == part_views(parts@),
            given == text::texts(answers@),
            evaluated(
                all,
                i as int,
                Fields { done: text::texts(done@), current: current@ },
                later(given, used as nat),
                shell@,
                env@,
            ) == want,
            later(given, used as nat) == later(
                later(given, from as nat),
                commands_in(all.take(i as int)).len(),
            ),
        decreases parts.len() - i,
    {
        let ghost before = Fields { done: text::texts(done@), current: current@ };
        let ghost left = later(given, used as nat);
        let ghost part = all[i as int];
        let ghost n = commands_in(all.take(i as int)).len();
        assert(part == parts@[i as int]@);
        assert(all.take(i + 1).drop_last() =~= all.take(i as int));
        assert(all.take(i + 1).last() == part);
        let answer = if used < answers.len() {
            assert(left[0] == answers@[used as int]@);
            answers[used].clone()
        } else {
            String::new()
        };
        assert(answer@ =~= first_answer(left));
        match &parts[i] {
            Part::Literal(c) => {
                push_char(&mut current, *c);
            },
            Part::Tilde(free) => {
                if *free && current.as_str().unicode_len() == 0 && done.len() == 0 {
                    current = home(env);
                } else {
                    current.push('~');
                }
            },
            Part::Value(r, quoted) => {
                let val = value(r, answer.as_str(), shell, env);
                if *quoted {
                    current.append(val.as_str());
                } else {
                    split_value(val.as_str(), &mut done, &mut current);
                }
                if let Reference::Command(_) = r {
                    assert(asks(part));
                    if used < answers.len() {
                        used += 1;
                        assert(later(left, 1) =~= later(given, used as nat));
                    } else {
                        assert(later(left, 1) =~= left);
                    }
                    assert(later(left, 1) =~= later(later(given, from as nat), n + 1));
                }
            },
        }
        assert((Fields { done: text::texts(done@), current: current@ }) =~= with_part(
            part,
            before,
            first_answer(left),
            shell@,
            env@,
        ));
        i += 1;
    }
    assert(all.take(all.len() as int) =~= all);
    if current.as_str().unicode_len() > 0 {
        done.push(current);
    }
    if done.len() == 0 {
        done.push(String::new());
        assert(text::texts(done@) =~= seq![Seq::<char>::empty()]);
    }
    (done, used)
}

fn push_char(s: &mut String, c: char)
    ensures
        final(s)@ == old(s)@.push(c),
{
    s.push(c);
}

/// The words that a word without brace groups stands for. `answers` are the
/// outputs of its commands (`word_commands`), in order.
pub fn expand_word_no_brace(word: &str, shell: &Shell, env: &Environment, answers: &Vec<String>) -> (r:
    Vec<String>)
    ensures
        text::texts(r@) == fields_of(word@, text::texts(answers@), shell@, env@),
{
    let parts = word_parts(word);
    assert(later(text::texts(answers@), 0) =~= text::texts(answers@));
    evaluate(&parts, shell, env, answers, 0).0
}

/// The commands of several words, in order.
pub open spec fn all_commands(words: Seq<Seq<char>>) -> Seq<Seq<char>>
    decreases words.len(),
{
    if words.len() == 0 {
        Seq::empty()
    } else {
        commands_in(parts_of(words[0])) + all_commands(words.drop_first())
    }
}

/// What brace expansion makes of several words.
pub open spec fn all_expansions(words: Seq<Seq<char>>) -> Seq<Seq<char>>
    decreases words.len(),
{
    if words.len() == 0 {
        Seq::empty()
    } else {
        brace::expansions(words[0]) + all_expansions(words.drop_first())
    }
}

fn brace_expand_all(words: &Vec<String>) -> (r: Vec<String>)
    ensures
        text::texts(r@) == all_expansions(text::texts(words@)),
{
    let mut r: Vec<String> = Vec::new();
    let mut i: usize = 0;
    let ghost all = text::texts(words@);
    assert(all.skip(0) =~= all);
    assert(text::texts(r@) + all_expansions(all) =~= all_expansions(all));
    while i < words.len()
        invariant
            i <= words.len(),
            all == text::texts(words@),
            text::texts(r@) + all_expansions(all.skip(i as int)) == all_expansions(all),
        decreases words.len() - i,
    {
        broadcast use text::texts_add;

        let ghost before = text::texts(r@);
        let mut these = brace_expand(words[i].as_str());
        assert(all.skip(i as int)[0] == words@[i as int]@);
        assert(all.skip(i as int).drop_first() =~= all.skip(i + 1));
        r.append(&mut these);
        i += 1;
        assert(text::texts(r@) + all_expansions(all.skip(i as int)) =~= before + all_expansions(
            all.skip(i - 1),
        ));
    }
    assert(text::texts(r@) =~= all_expansions(all));
    r
}

/// The commands whose output the words ask for, in order, once brace groups are
/// expanded.
pub fn expansion_commands(words: &Vec<String>) -> (r: Vec<String>)
    ensures
        text::texts(r@) == all_commands(all_expansions(text::texts(words@))),
{
    let braced = brace_expand_all(words);
    let mut r: Vec<String> = Vec::new();
    let mut i: usize = 0;
    let ghost all = text::texts(braced@);
    assert(all.skip(0) =~= all);
    assert(text::texts(r@) + all_commands(all) =~= all_commands(all));
    while i < braced.len()
        invariant
            i <= braced.len(),
            all == text::texts(braced@),
            text::texts(r@) + all_commands(all.skip(i as int)) == all_commands(all),
        decreases braced.len() - i,
    {
        broadcast use text::texts_add;

        let ghost before = text::texts(r@);
        let mut these = word_commands(braced[i].as_str());
        assert(all.skip(i as int)[0] == braced@[i as int]@);
        assert(all.skip(i as int).drop_first() =~= all.skip(i + 1));
        r.append(&mut these);
        i += 1;
        assert(text::texts(r@) + all_commands(all.skip(i as int)) =~= before + all_commands(
            all.skip(i - 1),
        ));
    }
    assert(text::texts(r@) =~= all_commands(all));
    r
}

/// The words that the words stand for, before file names are put in for
/// patterns. `answers` are the outputs of their commands
/// (`expansion_commands`), in order.
pub fn expand_words(words: &Vec<String>, shell: &Shell, env: &Environment, answers: &Vec<String>) -> (r:
    Vec<String>)
    ensures
        text::texts(r@) == all_fields(
            all_expansions(text::texts(words@)),
            text::texts(answers@),
            shell@,
            env@,
        ),
{
    let braced = brace_expand_all(words);
    let mut r: Vec<String> = Vec::new();
    let mut i: usize = 0;
    let mut used: usize = 0;
    let ghost all = text::texts(braced@);
    let ghost given = text::texts(answers@);
    let ghost want = all_fields(all, given, shell@, env@);
    assert(all.skip(0) =~= all);
    assert(later(given, 0) =~= given);
    assert(text::texts(r@) + want =~= want);
    while i < braced.len()
        invariant
            i <= braced.len(),
            used <= answers.len(),
            all == text::texts(braced@),
            given == text::texts(answers@),
            text::texts(r@) + all_fields(
                all.skip(i as int),
                later(given, used as nat),
                shell@,
                env@,
            ) == want,
        decreases braced.len() - i,
    {
        broadcast use text::texts_add;

        let ghost before = text::texts(r@);
        let ghost left = later(given, used as nat);
        let parts = word_parts(braced[i].as_str());
        let (mut these, now) = evaluate(&parts, shell, env, answers, used);
        assert(all.skip(i as int)[0] == braced@[i as int]@);
        assert(all.skip(i as int).drop_first() =~= all.skip(i + 1));
        r.append(&mut these);
        used = now;
        i += 1;
        assert(text::texts(r@) + all_fields(
            all.skip(i as int),
            later(given, used as nat),
            shell@,
            env@,
        ) =~= before + all_fields(all.skip(i - 1), left, shell@, env@));
    }
    assert(text::texts(r@) =~= want);
    r
}

// ---------------------------------------------------------------------------
// File names for patterns
// ---------------------------------------------------------------------------

/// Whether a word is a pattern for file names.
pub open spec fn wild(word: Seq<char>) -> bool {
    word.contains('*') || word.contains('?') || word.contains('[')
}

fn is_wild(word: &str) -> (r: bool)
    ensures
        r == wild(word@),
{
    text::contains_char(word, '*') || text::contains_char(word, '?') || text::contains_char(
        word,
        '[',
    )
}

/// Whether `glob::glob` takes the text as a pattern.
pub uninterp spec fn glob_takes(pattern: Seq<char>) -> bool;

/// Calls `glob::glob`, and lists what it finds: for each entry its path, or
/// nothing where the entry could not be read. The pattern alone decides whether
/// there is a list. What is in it depends on the files there are, and is not
/// stated.
#[verifier::external_body]
fn matching_paths(pattern: &str) -> (r: Option<Vec<Option<String>>>)
    ensures
        r is Some == glob_takes(pattern@),
{
    match glob::glob(pattern) {
        Ok(paths) => Some(
            paths.map(|entry| entry.ok().map(|path| path.to_string_lossy().to_string())).collect(),
        ),
        Err(_) => None,
    }
}

/// The paths of the entries that could be read.
pub open spec fn readable(entries: Seq<Option<String>>) -> Seq<Seq<char>>
    decreases entries.len(),
{
    if entries.len() == 0 {
        Seq::empty()
    } else {
        match entries.last() {
            Some(p) => readable(entries.drop_last()).push(p@),
            None => readable(entries.drop_last()),
        }
    }
}

/// The paths of the entries that could be read, if there is a list of entries.
pub open spec fn listed(entries: Option<Vec<Option<String>>>) -> Seq<Seq<char>> {
    match entries {
        Some(v) => readable(v@),
        None => Seq::empty(),
    }
}

/// Whether a search for the pattern can have given these paths: they are those
/// that could be read in what `matching_paths` gives for it.
pub closed spec fn search_gives(pattern: Seq<char>, paths: Seq<Seq<char>>) -> bool {
    exists|p: &str, entries: Option<Vec<Option<String>>>|
        p@ == pattern && #[trigger] call_ensures(matching_paths, (p,), entries) && paths == listed(
            entries,
        )
}

/// A search for a text that `glob::glob` does not take as a pattern gives
/// nothing.
pub proof fn law_only_patterns_are_searched_for(pattern: Seq<char>, paths: Seq<Seq<char>>)
    requires
        search_gives(pattern, paths),
        !glob_takes(pattern),
    ensures
        paths.len() == 0,
{
}

/// The paths of the entries that could be read, if there is a list of entries.
pub fn readable_paths(entries: Option<Vec<Option<String>>>) -> (r: Vec<String>)
    ensures
        text::texts(r@) == listed(entries),
{
    let mut r: Vec<String> = Vec::new();
    assert(text::texts(r@) =~= Seq::empty());
    if let Some(v) = entries {
        let mut i: usize = 0;
        assert(v@.take(0) =~= Seq::empty());
        while i < v.len()
            invariant
                i <= v.len(),
                text::texts(r@) == readable(v@.take(i as int)),
            decreases v.len() - i,
        {
            broadcast use text::texts_push;

            assert(v@.take(i + 1).drop_last() =~= v@.take(i as int));
            if let Some(p) = &v[i] {
                r.push(p.clone());
            }
            i += 1;
        }
        assert(v@.take(v.len() as int) =~= v@);
    }
    r
}

/// The words with the paths found for each put in for those that are patterns,
/// in order. A pattern for which none is found stays.
pub open spec fn globbed(words: Seq<Seq<char>>, found: Seq<Seq<Seq<char>>>) -> Seq<Seq<char>>
    decreases words.len(),
{
    if words.len() == 0 {
        Seq::empty()
    } else {
        let k = words.len() - 1;
        globbed(words.drop_last(), found) + (if wild(words[k]) && found[k].len() > 0 {
            order::arranged(found[k])
        } else {
            seq![words[k]]
        })
    }
}

pub open spec fn paths_of(v: Seq<Vec<String>>) -> Seq<Seq<Seq<char>>> {
    v.map_values(|p: Vec<String>| text::texts(p@))
}

/// The words with the paths in `found` put in for those that are patterns.
pub fn with_matches(words: &Vec<String>, found: &Vec<Vec<String>>) -> (r: Vec<String>)
    requires
        found.len() == words.len(),
    ensures
        text::texts(r@) == globbed(text::texts(words@), paths_of(found@)),
{
    let mut r: Vec<String> = Vec::new();
    let mut i: usize = 0;
    let ghost all = text::texts(words@);
    let ghost paths = paths_of(found@);
    assert(all.take(0) =~= Seq::empty());
    assert(text::texts(r@) =~= Seq::empty());
    while i < words.len()
        invariant
            i <= words.len(),
            found.len() == words.len(),
            all == text::texts(words@),
            paths == paths_of(found@),
            text::texts(r@) == globbed(all.take(i as int), paths),
        decreases words.len() - i,
    {
        broadcast use text::texts_add, text::texts_push;

        let ghost before = text::texts(r@);
        assert(all.take(i + 1).drop_last() =~= all.take(i as int));
        assert(all.take(i + 1)[i as int] == words@[i as int]@);
        assert(paths[i as int] == text::texts(found@[i as int]@));
        if is_wild(words[i].as_str()) && found[i].len() > 0 {
            let mut these = order::sort(text::copies(&found[i]));
            r.append(&mut these);
        } else {
            r.push(words[i].clone());
            assert(text::texts(r@) =~= before + seq![words@[i as int]@]);
        }
        i += 1;
    }
    assert(all.take(all.len() as int) =~= all);
    r
}

/// Whether `paths` can be what was found for a word: what a search for it gives,
/// or nothing where the word is no pattern.
pub open spec fn found_for(word: Seq<char>, paths: Seq<Seq<char>>) -> bool {
    if wild(word) {
        search_gives(word, paths)
    } else {
        paths.len() == 0
    }
}

/// Whether `found` can be what was found for the words.
pub open spec fn can_be_found(words: Seq<Seq<char>>, found: Seq<Seq<Seq<char>>>) -> bool {
    found.len() == words.len() && forall|k: int|
        0 <= k < words.len() ==> found_for(words[k], #[trigger] found[k])
}

/// Whether `r` are the words with paths put in, whichever paths there are.
pub open spec fn globs_to(words: Seq<Seq<char>>, r: Seq<Seq<char>>) -> bool {
    exists|found: Seq<Seq<Seq<char>>>|
        can_be_found(words, found) && r == #[trigger] globbed(words, found)
}

/// Puts the paths that there are in for the words that are patterns.
pub fn expand_globs(results: &mut Vec<String>)
    ensures
        globs_to(text::texts(old(results)@), text::texts(final(results)@)),
{
    let mut found: Vec<Vec<String>> = Vec::new();
    let mut i: usize = 0;
    let ghost all = text::texts(results@);
    while i < results.len()
        invariant
            i <= results.len(),
            found.len() == i,
            all == text::texts(results@),
            forall|k: int|
                0 <= k < i ==> found_for(all[k], text::texts((#[trigger] found@[k])@)),
        decreases results.len() - i,
    {
        assert(all[i as int] == results@[i as int]@);
        let word = results[i].as_str();
        if is_wild(word) {
            let entries = matching_paths(word);
            assert(call_ensures(matching_paths, (word,), entries));
            let paths = readable_paths(entries);
            assert(search_gives(all[i as int], text::texts(paths@)));
            found.push(paths);
        } else {
            found.push(Vec::new());
        }
        i += 1;
    }
    let ghost paths = paths_of(found@);
    assert forall|k: int| 0 <= k < all.len() implies found_for(all[k], #[trigger] paths[k]) by {
        assert(paths[k] == text::texts(found@[k]@));
    }
    assert(can_be_found(all, paths));
    let r = with_matches(results, &found);
    assert(globs_to(all, text::texts(r@)));
    *results = r;
}

/// The words that `word` stands for.
pub fn expand_word(word: &str, shell: &Shell, env: &Environment, answers: &Vec<String>) -> (r: Vec<
    String,
>)
    ensures
        globs_to(
            all_fields(brace::expansions(word@), text::texts(answers@), shell@, env@),
            text::texts(r@),
        ),
{
    let mut words: Vec<String> = Vec::new();
    words.push(owned(word));
    let ghost all = text::texts(words@);
    assert(all.drop_first() =~= Seq::empty());
    assert(all_expansions(all.drop_first()) =~= Seq::empty());
    assert(all_expansions(all) =~= brace::expansions(word@));
    let mut r = expand_words(&words, shell, env, answers);
    expand_globs(&mut r);
    r
}

/// What the target of a redirect stands for: its words, with spaces between
/// them.
pub fn expand_redirect_target(target: &str, shell: &Shell, env: &Environment, answers: &Vec<String>) -> (r:
    String)
    ensures
        exists|words: Seq<Seq<char>>|
            globs_to(
                all_fields(brace::expansions(target@), text::texts(answers@), shell@, env@),
                words,
            ) && r@ == #[trigger] text::joined(words, " "@),
{
    let words = expand_word(target, shell, env, answers);
    text::join(&words, " ")
}

/// The command with its words expanded; its redirects stay.
pub fn expand_simple(simple: &Simple, shell: &Shell, env: &Environment, answers: &Vec<String>) -> (r:
    Simple)
    ensures
        globs_to(
            all_fields(all_expansions(simple@.args), text::texts(answers@), shell@, env@),
            r@.args,
        ),
        r@.redirects == simple@.redirects,
{
    let mut args = expand_words(&simple.args, shell, env, answers);
    expand_globs(&mut args);
    Simple { args, redirects: copy_redirects(&simple.redirects) }
}

/// Puts what the word at place `k` of the command stands for behind the words
/// of `done`. Word by word this gives what `expand_simple` gives at once; the
/// commands of a word are then run when the words before it are done.
pub fn expand_next(
    done: &mut Simple,
    simple: &Simple,
    k: usize,
    shell: &Shell,
    env: &Environment,
    answers: &Vec<String>,
)
    requires
        k < simple.args.len(),
    ensures
        exists|words: Seq<Seq<char>>|
            globs_to(
                all_fields(
                    brace::expansions(simple@.args[k as int]),
                    text::texts(answers@),
                    shell@,
                    env@,
                ),
                words,
            ) && final(done)@.args == #[trigger] (old(done)@.args + words),
        final(done)@.redirects == old(done)@.redirects,
{
    broadcast use text::texts_add;

    assert(simple@.args[k as int] == simple.args@[k as int]@);
    let mut words = expand_word(simple.args[k].as_str(), shell, env, answers);
    let ghost these = text::texts(words@);
    let ghost before = done@.args;
    done.args.append(&mut words);
    assert(done@.args == before + these);
}

// ---------------------------------------------------------------------------
// What holds of all words
// ---------------------------------------------------------------------------

/// The parts of a text whose characters all stand for themselves.
pub open spec fn literals(t: Seq<char>) -> Seq<PartV> {
    Seq::new(t.len(), |k: int| PartV::Literal(seq![t[k]]))
}

proof fn lemma_evaluated_literals(
    t: Seq<char>,
    k: int,
    f: Fields,
    answers: Seq<Seq<char>>,
    shell: ShellV,
    env: EnvironmentV,
)
    requires
        0 <= k <= t.len(),
    ensures
        evaluated(literals(t), k, f, answers, shell, env) == (Fields {
            done: f.done,
            current: f.current + t.skip(k),
        }),
    decreases t.len() - k,
{
    if k < t.len() {
        let g = Fields { current: f.current + seq![t[k]], ..f };
        assert(literals(t)[k] == PartV::Literal(seq![t[k]]));
        lemma_evaluated_literals(t, k + 1, g, answers, shell, env);
        assert(f.current + seq![t[k]] + t.skip(k + 1) =~= f.current + t.skip(k));
    } else {
        assert(f.current + t.skip(k) =~= f.current);
    }
}

/// A word whose parts are characters that stand for themselves is the word of
/// these characters, whatever the shell knows.
pub proof fn law_literals_are_one_word(
    word: Seq<char>,
    t: Seq<char>,
    answers: Seq<Seq<char>>,
    shell: ShellV,
    env: EnvironmentV,
)
    requires
        parts_of(word) == literals(t),
    ensures
        fields_of(word, answers, shell, env) == seq![t],
{
    lemma_evaluated_literals(t, 0, no_fields(), answers, shell, env);
    assert(Seq::<char>::empty() + t.skip(0) =~= t);
    assert(Seq::<Seq<char>>::empty().push(t) =~= seq![t]);
    if t.len() == 0 {
        assert(t =~= Seq::empty());
    }
}

/// Whether a character stands for itself outside quotes.
pub open spec fn ordinary(c: char) -> bool {
    c != '\\' && c != '\'' && c != '"' && c != '$' && c != '~'
}

/// What the character at `k` of a word of ordinary characters and `~` stands
/// for.
spec fn plain_part(s: Seq<char>, k: int) -> PartV {
    if s[k] == '~' {
        PartV::Tilde(ends_tilde(token::char_at(s, k + 1)))
    } else {
        PartV::Literal(seq![s[k]])
    }
}

spec fn plain_parts(s: Seq<char>) -> Seq<PartV> {
    Seq::new(s.len(), |k: int| plain_part(s, k))
}

proof fn lemma_plain_parts(s: Seq<char>, i: int, acc: Seq<PartV>)
    requires
        0 <= i <= s.len(),
        forall|k: int| i <= k < s.len() ==> ordinary(#[trigger] s[k]) || s[k] == '~',
    ensures
        parts_from(s, i, Quote::Plain, acc) == acc + plain_parts(s).skip(i),
    decreases s.len() - i,
{
    let all = plain_parts(s);
    if i < s.len() {
        assert(ordinary(s[i]) || s[i] == '~');
        lemma_plain_parts(s, i + 1, acc.push(plain_part(s, i)));
        assert(all[i] == plain_part(s, i));
        assert(acc.push(plain_part(s, i)) + all.skip(i + 1) =~= acc + all.skip(i));
    } else {
        assert(acc + all.skip(i) =~= acc);
    }
}

proof fn lemma_evaluated_plain(
    s: Seq<char>,
    k: int,
    f: Fields,
    answers: Seq<Seq<char>>,
    shell: ShellV,
    env: EnvironmentV,
)
    requires
        0 <= k <= s.len(),
        f.current.len() > 0 || (k < s.len() ==> s[k] != '~'),
    ensures
        evaluated(plain_parts(s), k, f, answers, shell, env) == (Fields {
            done: f.done,
            current: f.current + s.skip(k),
        }),
    decreases s.len() - k,
{
    if k < s.len() {
        let g = Fields { current: f.current + seq![s[k]], ..f };
        assert(plain_parts(s)[k] == plain_part(s, k));
        assert(f.current.push('~') =~= f.current + seq!['~']);
        assert(with_part(plain_part(s, k), f, first_answer(answers), shell, env) == g);
        lemma_evaluated_plain(s, k + 1, g, answers, shell, env);
        assert(f.current + seq![s[k]] + s.skip(k + 1) =~= f.current + s.skip(k));
    } else {
        assert(f.current + s.skip(k) =~= f.current);
    }
}

/// A word of ordinary characters stands for itself, also where a `~` follows the
/// first of them.
pub proof fn law_ordinary_word_stays(
    word: Seq<char>,
    answers: Seq<Seq<char>>,
    shell: ShellV,
    env: EnvironmentV,
)
    requires
        forall|k: int|
            0 <= k < word.len() ==> ordinary(#[trigger] word[k]) || (k > 0 && word[k] == '~'),
    ensures
        fields_of(word, answers, shell, env) == seq![word],
{
    if word.len() > 0 {
        assert(ordinary(word[0]));
    }
    lemma_plain_parts(word, 0, Seq::empty());
    assert(Seq::empty() + plain_parts(word).skip(0) =~= plain_parts(word));
    lemma_evaluated_plain(word, 0, no_fields(), answers, shell, env);
    assert(Seq::<char>::empty() + word.skip(0) =~= word);
    assert(Seq::<Seq<char>>::empty().push(word) =~= seq![word]);
    if word.len() == 0 {
        assert(word =~= Seq::empty());
    }
}

proof fn lemma_single_quoted_parts(s: Seq<char>, i: int, n: int, acc: Seq<PartV>)
    requires
        0 <= i <= n < s.len(),
        n == s.len() - 1,
        s[n] == '\'',
        forall|k: int| i <= k < n ==> #[trigger] s[k] != '\'',
    ensures
        parts_from(s, i, Quote::Single, acc) == acc + literals(s.subrange(i, n)),
    decreases n - i,
{
    if i < n {
        lemma_single_quoted_parts(s, i + 1, n, acc.push(PartV::Literal(seq![s[i]])));
        assert(acc.push(PartV::Literal(seq![s[i]])) + literals(s.subrange(i + 1, n)) =~= acc + literals(
            s.subrange(i, n),
        ));
    } else {
        assert(parts_from(s, i + 1, Quote::Plain, acc) == acc);
        assert(acc + literals(s.subrange(i, n)) =~= acc);
    }
}

/// What stands between single quotes is one word, as it is written.
pub proof fn law_single_quotes_keep(
    t: Seq<char>,
    answers: Seq<Seq<char>>,
    shell: ShellV,
    env: EnvironmentV,
)
    requires
        !t.contains('\''),
    ensures
        fields_of(seq!['\''] + t + seq!['\''], answers, shell, env) == seq![t],
{
    let s = seq!['\''] + t + seq!['\''];
    assert forall|k: int| 1 <= k < s.len() - 1 implies #[trigger] s[k] != '\'' by {
        assert(s[k] == t[k - 1]);
    }
    lemma_single_quoted_parts(s, 1, s.len() - 1, Seq::empty());
    assert(s.subrange(1, s.len() - 1) =~= t);
    assert(Seq::empty() + literals(t) =~= literals(t));
    law_literals_are_one_word(s, t, answers, shell, env);
}

/// A word stands for at least one word.
pub proof fn law_words_do_not_vanish(
    word: Seq<char>,
    answers: Seq<Seq<char>>,
    shell: ShellV,
    env: EnvironmentV,
)
    ensures
        fields_of(word, answers, shell, env).len() >= 1,
        all_fields(brace::expansions(word), answers, shell, env).len() >= 1,
{
    brace::law_expansion_is_not_empty(word);
    let words = brace::expansions(word);
    assert(fields_of(words[0], answers, shell, env).len() >= 1);
}

proof fn lemma_not_wild(words: Seq<Seq<char>>, found: Seq<Seq<Seq<char>>>)
    requires
        forall|k: int| 0 <= k < words.len() ==> !wild(#[trigger] words[k]) || found[k].len() == 0,
    ensures
        globbed(words, found) == words,
    decreases words.len(),
{
    if words.len() > 0 {
        let k = words.len() - 1;
        assert(!wild(words[k]) || found[k].len() == 0);
        assert forall|j: int| 0 <= j < words.drop_last().len() implies !wild(
            #[trigger] words.drop_last()[j],
        ) || found[j].len() == 0 by {
            assert(words[j] == words.drop_last()[j]);
        }
        lemma_not_wild(words.drop_last(), found);
        assert(words.drop_last() + seq![words[k]] =~= words);
    } else {
        assert(words =~= Seq::empty());
    }
}

/// Words that are no patterns, or none that can be searched for, stay, whatever
/// files there are.
pub proof fn law_only_patterns_are_replaced(words: Seq<Seq<char>>, r: Seq<Seq<char>>)
    requires
        globs_to(words, r),
        forall|k: int| 0 <= k < words.len() ==> !(wild(#[trigger] words[k]) && glob_takes(words[k])),
    ensures
        r == words,
{
    let found = choose|found: Seq<Seq<Seq<char>>>|
        can_be_found(words, found) && r == #[trigger] globbed(words, found);
    assert forall|k: int| 0 <= k < words.len() implies !wild(#[trigger] words[k]) || found[k].len()
        == 0 by {
        assert(!(wild(words[k]) && glob_takes(words[k])));
        assert(found_for(words[k], found[k]));
        if wild(words[k]) {
            law_only_patterns_are_searched_for(words[k], found[k]);
        }
    }
    lemma_not_wild(words, found);
}

proof fn lemma_globbed_take(words: Seq<Seq<char>>, a: Seq<Seq<Seq<char>>>, b: Seq<Seq<Seq<char>>>)
    requires
        forall|k: int| 0 <= k < words.len() ==> #[trigger] a[k] == b[k],
    ensures
        globbed(words, a) == globbed(words, b),
    decreases words.len(),
{
    if words.len() > 0 {
        assert(a[words.len() - 1] == b[words.len() - 1]);
        lemma_globbed_take(words.drop_last(), a, b);
    }
}

proof fn lemma_globbed_append(
    a: Seq<Seq<char>>,
    b: Seq<Seq<char>>,
    found_a: Seq<Seq<Seq<char>>>,
    found_b: Seq<Seq<Seq<char>>>,
)
    requires
        found_a.len() == a.len(),
        found_b.len() == b.len(),
    ensures
        globbed(a + b, found_a + found_b) == globbed(a, found_a) + globbed(b, found_b),
    decreases b.len(),
{
    let found = found_a + found_b;
    if b.len() == 0 {
        assert(a + b =~= a);
        assert(found =~= found_a);
        assert(globbed(a, found_a) + globbed(b, found_b) =~= globbed(a, found_a));
    } else {
        let front = b.drop_last();
        let less = found_b.drop_last();
        assert((a + b).drop_last() =~= a + front);
        lemma_globbed_append(a, front, found_a, less);
        lemma_globbed_take(a + front, found, found_a + less);
        lemma_globbed_take(front, found_b, less);
        assert((a + b)[a.len() + b.len() - 1] == b[b.len() - 1]);
        assert(found[a.len() + b.len() - 1] == found_b[b.len() - 1]);
        assert(globbed(a + b, found) =~= globbed(a, found_a) + globbed(b, found_b));
    }
}

/// Putting paths in for the patterns of some words and then of others gives what
/// putting them in for all at once can give.
pub proof fn law_patterns_are_replaced_word_by_word(
    a: Seq<Seq<char>>,
    b: Seq<Seq<char>>,
    x: Seq<Seq<char>>,
    y: Seq<Seq<char>>,
)
    requires
        globs_to(a, x),
        globs_to(b, y),
    ensures
        globs_to(a + b, x + y),
{
    let fa = choose|found: Seq<Seq<Seq<char>>>|
        can_be_found(a, found) && x == #[trigger] globbed(a, found);
    let fb = choose|found: Seq<Seq<Seq<char>>>|
        can_be_found(b, found) && y == #[trigger] globbed(b, found);
    let found = fa + fb;
    assert forall|k: int| 0 <= k < (a + b).len() implies found_for(
        (a + b)[k],
        #[trigger] found[k],
    ) by {
        if k < a.len() {
            assert(found_for(a[k], fa[k]));
        } else {
            assert(found_for(b[k - a.len()], fb[k - a.len()]));
        }
    }
    assert(can_be_found(a + b, found));
    lemma_globbed_append(a, b, fa, fb);
}

/// How many commands the parts from place `k` on ask for.
spec fn asks_from(parts: Seq<PartV>, k: int) -> nat
    decreases parts.len() - k,
{
    if k < 0 || k >= parts.len() {
        0
    } else {
        asks_from(parts, k + 1) + (if asks(parts[k]) {
            1nat
        } else {
            0nat
        })
    }
}

proof fn lemma_asks_from(parts: Seq<PartV>, k: int)
    requires
        0 <= k <= parts.len(),
    ensures
        commands_in(parts.take(k)).len() + asks_from(parts, k) == commands_in(parts).len(),
    decreases parts.len() - k,
{
    if k < parts.len() {
        lemma_asks_from(parts, k + 1);
        assert(parts.take(k + 1).drop_last() =~= parts.take(k));
        assert(parts.take(k + 1).last() == parts[k]);
    } else {
        assert(parts.take(k) =~= parts);
    }
}

proof fn lemma_enough_answers(
    parts: Seq<PartV>,
    k: int,
    f: Fields,
    answers: Seq<Seq<char>>,
    more: Seq<Seq<char>>,
    shell: ShellV,
    env: EnvironmentV,
)
    requires
        0 <= k <= parts.len(),
        answers.len() >= asks_from(parts, k),
    ensures
        evaluated(parts, k, f, answers + more, shell, env) == evaluated(
            parts,
            k,
            f,
            answers,
            shell,
            env,
        ),
    decreases parts.len() - k,
{
    if k < parts.len() {
        let p = parts[k];
        let g = with_part(p, f, first_answer(answers), shell, env);
        assert(with_part(p, f, first_answer(answers + more), shell, env) == g);
        if asks(p) {
            assert(later(answers + more, 1) =~= later(answers, 1) + more);
            lemma_enough_answers(parts, k + 1, g, later(answers, 1), more, shell, env);
        } else {
            lemma_enough_answers(parts, k + 1, g, answers, more, shell, env);
        }
    }
}

/// Expanding some words with the outputs of their commands, and then others with
/// theirs, gives what expanding all at once with all outputs gives.
pub proof fn law_words_are_expanded_in_turn(
    a: Seq<Seq<char>>,
    b: Seq<Seq<char>>,
    x: Seq<Seq<char>>,
    y: Seq<Seq<char>>,
    shell: ShellV,
    env: EnvironmentV,
)
    requires
        x.len() == all_commands(a).len(),
    ensures
        all_fields(a + b, x + y, shell, env) == all_fields(a, x, shell, env) + all_fields(
            b,
            y,
            shell,
            env,
        ),
    decreases a.len(),
{
    if a.len() == 0 {
        assert(a + b =~= b);
        assert(x + y =~= y);
        assert(all_fields(a, x, shell, env) + all_fields(b, y, shell, env) =~= all_fields(
            b,
            y,
            shell,
            env,
        ));
    } else {
        let parts = parts_of(a[0]);
        let n = commands_in(parts).len();
        assert((a + b)[0] == a[0]);
        assert((a + b).drop_first() =~= a.drop_first() + b);
        lemma_asks_from(parts, 0);
        assert(parts.take(0) =~= Seq::empty());
        lemma_enough_answers(parts, 0, no_fields(), x, y, shell, env);
        assert(later(x + y, n) =~= later(x, n) + y);
        law_words_are_expanded_in_turn(a.drop_first(), b, later(x, n), y, shell, env);
        assert(all_fields(a + b, x + y, shell, env) =~= all_fields(a, x, shell, env) + all_fields(
            b,
            y,
            shell,
            env,
        ));
    }
}

/// A word outside quotes that names a variable without white space in its value
/// stands for that value.
pub proof fn law_variable_is_its_value(
    name: Seq<char>,
    answers: Seq<Seq<char>>,
    shell: ShellV,
    env: EnvironmentV,
)
    requires
        !name.contains('}'),
        forall|k: int|
            0 <= k < resolved(name, shell, env).len() ==> !text::ascii_space(
                #[trigger] resolved(name, shell, env)[k],
            ),
    ensures
        fields_of(seq!['$', '{'] + name + seq!['}'], answers, shell, env) == seq![
            resolved(name, shell, env),
        ],
{
    let s = seq!['$', '{'] + name + seq!['}'];
    let val = resolved(name, shell, env);
    let rest = s.skip(2);
    assert(rest =~= name + seq!['}']);
    lemma_until_close(name, '}');
    assert(reference_at(s, 1) == (ReferenceV::Named(s.subrange(2, 2 + name.len() as int)), s.len() as int));
    assert(s.subrange(2, 2 + name.len() as int) =~= name);
    let p = PartV::Value(ReferenceV::Named(name), false);
    assert(parts_from(s, s.len() as int, Quote::Plain, Seq::empty().push(p)) == Seq::empty().push(
        p,
    ));
    assert(parts_of(s) == Seq::empty().push(p));
    lemma_unsplit(val, 0, no_fields());
    assert(Seq::<char>::empty() + val.skip(0) =~= val);
    let parts = Seq::empty().push(p);
    let f = with_part(p, no_fields(), first_answer(answers), shell, env);
    assert(evaluated(parts, 1, f, answers, shell, env) == f);
    assert(evaluated(parts, 0, no_fields(), answers, shell, env) == f);
    assert(Seq::<Seq<char>>::empty().push(val) =~= seq![val]);
    if val.len() == 0 {
        assert(val =~= Seq::empty());
    }
}

proof fn lemma_until_close(name: Seq<char>, c: char)
    requires
        !name.contains(c),
    ensures
        text::until(name + seq![c], c) == name.len(),
    decreases name.len(),
{
    let s = name + seq![c];
    if name.len() > 0 {
        assert(name[0] != c) by {
            assert(name.contains(name[0]));
        }
        assert(s.drop_first() =~= name.drop_first() + seq![c]);
        assert(!name.drop_first().contains(c)) by {
            if name.drop_first().contains(c) {
                let k = name.drop_first().index_of(c);
                assert(name[k + 1] == c);
            }
        }
        lemma_until_close(name.drop_first(), c);
    } else {
        assert(s[0] == c);
    }
}

pub proof fn lemma_unsplit(val: Seq<char>, k: int, f: Fields)
    requires
        0 <= k <= val.len(),
        forall|j: int| k <= j < val.len() ==> !text::ascii_space(#[trigger] val[j]),
    ensures
        split_from(val, k, f, false) == (Fields { done: f.done, current: f.current + val.skip(k) }),
    decreases val.len() - k,
{
    if k < val.len() {
        assert(!text::ascii_space(val[k]));
        lemma_unsplit(val, k + 1, Fields { current: f.current.push(val[k]), ..f });
        assert(f.current.push(val[k]) + val.skip(k + 1) =~= f.current + val.skip(k));
    } else {
        assert(f.current + val.skip(k) =~= f.current);
    }
}

proof fn lemma_substitutions(s: Seq<char>, i: int, acc: Seq<Seq<char>>)
    requires
        0 <= i <= s.len(),
    ensures
        substitutions_from(s, i, acc).len() == acc.len() + asked_from(s, i),
    decreases s.len() - i,
{
    if i < s.len() {
        if s[i] == '$' && token::char_at(s, i + 1) == Some('(') {
            token::lemma_paren_end(s, i + 2, 1);
            let (cmd, j) = substitution(s, i + 2);
            lemma_substitutions(s, j, acc.push(cmd));
        } else {
            lemma_substitutions(s, i + 1, acc);
        }
    }
}

/// A text asks for as many commands as it then takes answers.
pub proof fn law_one_answer_for_each_command(s: Seq<char>)
    ensures
        substitutions_from(s, 0, Seq::empty()).len() == asked_from(s, 0),
{
    lemma_substitutions(s, 0, Seq::empty());
}

} // verus!
