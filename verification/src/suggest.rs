//! What could come next on a line that is being written.

use vstd::prelude::*;
use vstd::string::*;

use crate::expand;
use crate::expand::EnvironmentV;
use crate::history;
use crate::history::History;
use crate::order;
use crate::shell;
use crate::shell::ShellV;
use crate::text;
use crate::text::{
    contains_char, from_range, owned, starts_with, starts_with_char, to_chars,
};
use crate::token;
use crate::token::Tok;

verus! {

// ---------------------------------------------------------------------------
// Words with backslashes
// ---------------------------------------------------------------------------

pub open spec fn blank(c: char) -> bool {
    c == ' ' || c == '\t'
}

/// Where the last word of the first `i` characters starts: behind the last
/// blank that has no backslash before it.
pub open spec fn last_word_start(s: Seq<char>, i: int) -> int
    decreases i,
{
    if i <= 0 {
        0
    } else if blank(s[i - 1]) && !(i >= 2 && s[i - 2] == '\\') {
        i
    } else {
        last_word_start(s, i - 1)
    }
}

proof fn lemma_last_word_start(s: Seq<char>, i: int)
    requires
        0 <= i <= s.len(),
    ensures
        0 <= last_word_start(s, i) <= i,
    decreases i,
{
    if i > 0 {
        lemma_last_word_start(s, i - 1);
    }
}

/// The last word of a line.
pub open spec fn last_word(s: Seq<char>) -> Seq<char> {
    s.skip(last_word_start(s, s.len() as int))
}

pub fn find_last_word(line: &str) -> (r: String)
    ensures
        r@ == last_word(line@),
{
    let v = to_chars(line);
    let mut i: usize = v.len();
    while i > 0
        invariant
            i <= v.len(),
            v@ == line@,
            last_word_start(v@, i as int) == last_word_start(v@, v.len() as int),
        decreases i,
    {
        let c = v[i - 1];
        if (c == ' ' || c == '\t') && !(i >= 2 && v[i - 2] == '\\') {
            assert(v@.subrange(i as int, v.len() as int) =~= v@.skip(i as int));
            return from_range(&v, i, v.len());
        }
        i -= 1;
    }
    assert(line@.skip(0) =~= line@);
    owned(line)
}

/// A text without its backslashes; one before another character keeps that.
pub open spec fn unescaped(s: Seq<char>) -> Seq<char>
    decreases s.len(),
{
    if s.len() == 0 {
        Seq::empty()
    } else if s[0] != '\\' {
        seq![s[0]] + unescaped(s.drop_first())
    } else if s.len() == 1 {
        Seq::empty()
    } else {
        seq![s[1]] + unescaped(s.skip(2))
    }
}

pub fn unescape_shell(s: &str) -> (r: String)
    ensures
        r@ == unescaped(s@),
{
    let v = to_chars(s);
    let mut r = String::new();
    let mut i: usize = 0;
    assert(v@.skip(0) =~= v@);
    assert(r@ + unescaped(v@) =~= unescaped(v@));
    while i < v.len()
        invariant
            i <= v.len(),
            v@ == s@,
            r@ + unescaped(v@.skip(i as int)) == unescaped(v@),
        decreases v.len() - i,
    {
        let ghost rest = v@.skip(i as int);
        let ghost before = r@;
        assert(rest.drop_first() =~= v@.skip(i + 1));
        if v[i] != '\\' {
            r.push(v[i]);
            i += 1;
        } else if i + 1 < v.len() {
            assert(rest.skip(2) =~= v@.skip(i + 2));
            r.push(v[i + 1]);
            i += 2;
        } else {
            i += 1;
        }
        assert(r@ + unescaped(v@.skip(i as int)) =~= before + unescaped(rest));
    }
    assert(r@ =~= unescaped(v@));
    r
}

/// Whether a character has a meaning of its own in a command line.
pub open spec fn special(c: char) -> bool {
    c == ' ' || c == '\\' || c == '|' || c == ';' || c == '&' || c == '<' || c == '>' || c == '#'
        || c == '$' || c == '"' || c == '\'' || c == '`' || c == '(' || c == ')' || c == '{' || c
        == '}' || c == '*' || c == '?' || c == '[' || c == '!' || c == '~'
}

/// A text with a backslash before each special character.
pub open spec fn escaped(s: Seq<char>) -> Seq<char>
    decreases s.len(),
{
    if s.len() == 0 {
        Seq::empty()
    } else {
        escaped(s.drop_last()) + (if special(s.last()) {
            seq!['\\', s.last()]
        } else {
            seq![s.last()]
        })
    }
}

fn is_special(c: char) -> (r: bool)
    ensures
        r == special(c),
{
    c == ' ' || c == '\\' || c == '|' || c == ';' || c == '&' || c == '<' || c == '>' || c == '#'
        || c == '$' || c == '"' || c == '\'' || c == '`' || c == '(' || c == ')' || c == '{' || c
        == '}' || c == '*' || c == '?' || c == '[' || c == '!' || c == '~'
}

pub fn escape_for_shell(s: &str) -> (r: String)
    ensures
        r@ == escaped(s@),
{
    let v = to_chars(s);
    let mut r = String::new();
    let mut i: usize = 0;
    assert(r@ =~= escaped(v@.take(0)));
    while i < v.len()
        invariant
            i <= v.len(),
            v@ == s@,
            r@ == escaped(v@.take(i as int)),
        decreases v.len() - i,
    {
        let ghost before = r@;
        let c = v[i];
        assert(v@.take(i + 1).drop_last() =~= v@.take(i as int));
        if is_special(c) {
            r.push('\\');
            r.push(c);
            assert(r@ =~= before + seq!['\\', c]);
        } else {
            r.push(c);
            assert(r@ =~= before + seq![c]);
        }
        i += 1;
    }
    assert(v@.take(v.len() as int) =~= v@);
    r
}

/// Whether every backslash of the text has a character to go with.
pub open spec fn complete(s: Seq<char>) -> bool
    decreases s.len(),
{
    if s.len() == 0 {
        true
    } else if s[0] != '\\' {
        complete(s.drop_first())
    } else {
        s.len() >= 2 && complete(s.skip(2))
    }
}

proof fn lemma_unescaped_append(a: Seq<char>, b: Seq<char>)
    requires
        complete(a),
    ensures
        unescaped(a + b) == unescaped(a) + unescaped(b),
        complete(b) ==> complete(a + b),
    decreases a.len(),
{
    let s = a + b;
    if a.len() == 0 {
        assert(s =~= b);
        assert(unescaped(a) + unescaped(b) =~= unescaped(b));
    } else if a[0] != '\\' {
        assert(s.drop_first() =~= a.drop_first() + b);
        lemma_unescaped_append(a.drop_first(), b);
        assert(unescaped(s) =~= unescaped(a) + unescaped(b));
    } else {
        assert(s.skip(2) =~= a.skip(2) + b);
        assert(s[1] == a[1]);
        lemma_unescaped_append(a.skip(2), b);
        assert(unescaped(s) =~= unescaped(a) + unescaped(b));
    }
}

proof fn lemma_escaped(s: Seq<char>)
    ensures
        complete(escaped(s)),
        unescaped(escaped(s)) == s,
    decreases s.len(),
{
    if s.len() == 0 {
        assert(s =~= Seq::empty());
    } else {
        let c = s.last();
        let front = escaped(s.drop_last());
        lemma_escaped(s.drop_last());
        let tail = if special(c) {
            seq!['\\', c]
        } else {
            seq![c]
        };
        if special(c) {
            assert(tail.skip(2) =~= Seq::empty());
            assert(unescaped(tail.skip(2)) =~= Seq::<char>::empty());
            assert(complete(tail.skip(2)));
        } else {
            assert(tail.drop_first() =~= Seq::empty());
            assert(unescaped(tail.drop_first()) =~= Seq::<char>::empty());
            assert(complete(tail.drop_first()));
        }
        assert(complete(tail));
        assert(unescaped(tail) =~= seq![c]);
        lemma_unescaped_append(front, tail);
        assert(s.drop_last() + seq![c] =~= s);
    }
}

/// Taking backslashes away undoes putting them in.
pub proof fn law_unescape_undoes_escape(s: Seq<char>)
    ensures
        unescaped(escaped(s)) == s,
{
    lemma_escaped(s);
}

/// A suggestion that is put behind a word adds to what the word means exactly
/// what it was made of.
pub proof fn law_suggestion_adds_its_text(word: Seq<char>, rest: Seq<char>)
    requires
        complete(word),
    ensures
        unescaped(word + escaped(rest)) == unescaped(word) + rest,
{
    lemma_escaped(rest);
    lemma_unescaped_append(word, escaped(rest));
}

/// Whether every character of the text stands for itself or has a backslash
/// before it.
pub open spec fn guarded(s: Seq<char>) -> bool
    decreases s.len(),
{
    if s.len() == 0 {
        true
    } else if s[0] != '\\' {
        expand::ordinary(s[0]) && guarded(s.drop_first())
    } else {
        s.len() >= 2 && guarded(s.skip(2))
    }
}

proof fn lemma_guarded_append(a: Seq<char>, b: Seq<char>)
    requires
        guarded(a),
        guarded(b),
    ensures
        guarded(a + b),
    decreases a.len(),
{
    let s = a + b;
    if a.len() == 0 {
        assert(s =~= b);
    } else if a[0] != '\\' {
        assert(s.drop_first() =~= a.drop_first() + b);
        lemma_guarded_append(a.drop_first(), b);
    } else {
        assert(s.skip(2) =~= a.skip(2) + b);
        lemma_guarded_append(a.skip(2), b);
    }
}

proof fn lemma_escaped_guarded(s: Seq<char>)
    ensures
        guarded(escaped(s)),
    decreases s.len(),
{
    if s.len() > 0 {
        let c = s.last();
        lemma_escaped_guarded(s.drop_last());
        let tail = if special(c) {
            seq!['\\', c]
        } else {
            seq![c]
        };
        if special(c) {
            assert(guarded(tail.skip(2)));
        } else {
            assert(guarded(tail.drop_first()));
        }
        assert(guarded(tail));
        lemma_guarded_append(escaped(s.drop_last()), tail);
    }
}

proof fn lemma_guarded_parts(t: Seq<char>, i: int, acc: Seq<expand::PartV>)
    requires
        0 <= i <= t.len(),
        guarded(t.skip(i)),
    ensures
        expand::parts_from(t, i, expand::Quote::Plain, acc) == acc + expand::literals(
            unescaped(t.skip(i)),
        ),
    decreases t.len() - i,
{
    let u = t.skip(i);
    if i == t.len() {
        assert(acc + expand::literals(unescaped(u)) =~= acc);
    } else if t[i] != '\\' {
        assert(u.drop_first() =~= t.skip(i + 1));
        assert(expand::ordinary(u[0]));
        let p = expand::PartV::Literal(seq![t[i]]);
        lemma_guarded_parts(t, i + 1, acc.push(p));
        assert(acc.push(p) + expand::literals(unescaped(t.skip(i + 1))) =~= acc + expand::literals(
            unescaped(u),
        ));
    } else {
        assert(u.skip(2) =~= t.skip(i + 2));
        let p = expand::PartV::Literal(seq![t[i + 1]]);
        lemma_guarded_parts(t, i + 2, acc.push(p));
        assert(acc.push(p) + expand::literals(unescaped(t.skip(i + 2))) =~= acc + expand::literals(
            unescaped(u),
        ));
    }
}

/// A text with backslashes put in is one word of a command line, and stands for
/// the text.
pub proof fn law_escaped_text_is_one_word(
    s: Seq<char>,
    answers: Seq<Seq<char>>,
    state: ShellV,
    env: EnvironmentV,
)
    ensures
        expand::fields_of(escaped(s), answers, state, env) == seq![s],
{
    let t = escaped(s);
    lemma_escaped(s);
    lemma_escaped_guarded(s);
    assert(t.skip(0) =~= t);
    lemma_guarded_parts(t, 0, Seq::empty());
    assert(Seq::empty() + expand::literals(s) =~= expand::literals(s));
    expand::law_literals_are_one_word(t, s, answers, state, env);
}

/// Whether no character of the text ends a word, since each has no meaning of
/// its own or has a backslash before it.
pub open spec fn solid(s: Seq<char>) -> bool
    decreases s.len(),
{
    if s.len() == 0 {
        true
    } else if s[0] != '\\' {
        !special(s[0]) && !text::ascii_space(s[0]) && solid(s.drop_first())
    } else {
        s.len() >= 2 && solid(s.skip(2))
    }
}

proof fn lemma_solid_append(a: Seq<char>, b: Seq<char>)
    requires
        solid(a),
        solid(b),
    ensures
        solid(a + b),
    decreases a.len(),
{
    let s = a + b;
    if a.len() == 0 {
        assert(s =~= b);
    } else if a[0] != '\\' {
        assert(s.drop_first() =~= a.drop_first() + b);
        lemma_solid_append(a.drop_first(), b);
    } else {
        assert(s.skip(2) =~= a.skip(2) + b);
        lemma_solid_append(a.skip(2), b);
    }
}

/// Whether the only white space in a text is spaces.
pub open spec fn only_spaces(s: Seq<char>) -> bool {
    forall|k: int| 0 <= k < s.len() ==> !text::ascii_space(#[trigger] s[k]) || s[k] == ' '
}

proof fn lemma_escaped_solid(s: Seq<char>)
    requires
        only_spaces(s),
    ensures
        solid(escaped(s)),
        s.len() > 0 ==> escaped(s).len() > 0,
    decreases s.len(),
{
    if s.len() > 0 {
        let c = s.last();
        assert(!text::ascii_space(s[s.len() - 1]) || s[s.len() - 1] == ' ');
        assert forall|k: int| 0 <= k < s.drop_last().len() implies !text::ascii_space(
            #[trigger] s.drop_last()[k],
        ) || s.drop_last()[k] == ' ' by {
            assert(s[k] == s.drop_last()[k]);
        }
        lemma_escaped_solid(s.drop_last());
        let tail = if special(c) {
            seq!['\\', c]
        } else {
            seq![c]
        };
        if special(c) {
            assert(solid(tail.skip(2)));
        } else {
            assert(solid(tail.drop_first()));
        }
        assert(solid(tail));
        lemma_solid_append(escaped(s.drop_last()), tail);
    }
}

proof fn lemma_solid_word(t: Seq<char>, i: int, acc: Seq<char>)
    requires
        0 <= i <= t.len(),
        solid(t.skip(i)),
        acc.len() > 0 || i < t.len(),
    ensures
        token::word_from(t, i, acc) == (Ok::<Seq<char>, Seq<char>>(acc + t.skip(i)), t.len() as int),
    decreases t.len() - i,
{
    let u = t.skip(i);
    if i == t.len() {
        assert(acc + u =~= acc);
    } else if t[i] != '\\' {
        assert(u.drop_first() =~= t.skip(i + 1));
        assert(!special(u[0]) && !text::ascii_space(u[0]));
        lemma_solid_word(t, i + 1, acc.push(t[i]));
        assert(acc.push(t[i]) + t.skip(i + 1) =~= acc + u);
    } else {
        assert(u.skip(2) =~= t.skip(i + 2));
        lemma_solid_word(t, i + 2, acc.push('\\').push(t[i + 1]));
        assert(acc.push('\\').push(t[i + 1]) + t.skip(i + 2) =~= acc + u);
    }
}

/// A text with backslashes put in is one token of a command line, if the only
/// white space in it is spaces.
pub proof fn law_escaped_text_is_one_token(s: Seq<char>)
    requires
        s.len() > 0,
        only_spaces(s),
    ensures
        token::tokens_of(escaped(s)) == Ok::<Seq<Tok>, Seq<char>>(seq![Tok::Word(escaped(s))]),
{
    let t = escaped(s);
    lemma_escaped_solid(s);
    assert(t.skip(0) =~= t);
    lemma_solid_word(t, 0, Seq::empty());
    assert(Seq::<char>::empty() + t =~= t);
    assert(t[0] == '\\' || (!special(t[0]) && !text::ascii_space(t[0])));
    assert(token::spaces_end(t, 0) == 0);
    assert(token::operator_at(t, 0) is None);
    let acc = Seq::empty().push(Tok::Word(t));
    assert(token::spaces_end(t, t.len() as int) == t.len());
    assert(token::tokens_from(t, t.len() as int, acc).0 == Ok::<Seq<Tok>, Seq<char>>(acc));
    assert(acc =~= seq![Tok::Word(t)]);
}

// ---------------------------------------------------------------------------
// Paths
// ---------------------------------------------------------------------------

/// How many characters of `s` come before and with its last `/`.
pub open spec fn dir_len(s: Seq<char>) -> nat
    decreases s.len(),
{
    if s.len() == 0 {
        0
    } else if s.last() == '/' {
        s.len()
    } else {
        dir_len(s.drop_last())
    }
}

proof fn lemma_dir_len(s: Seq<char>)
    ensures
        dir_len(s) <= s.len(),
        dir_len(s) > 0 ==> s[dir_len(s) - 1] == '/',
    decreases s.len(),
{
    if s.len() > 0 && s.last() != '/' {
        lemma_dir_len(s.drop_last());
    }
}

/// The directory to look in for names that carry a word on, and what these
/// names start with. There is none for the name of a user, nor for the home
/// directory where that is not known.
pub open spec fn query(word: Seq<char>, home: Option<Seq<char>>) -> Option<(Seq<char>, Seq<char>)> {
    let u = unescaped(word);
    let n = dir_len(u) as int;
    let dir = u.take(n);
    if n == 0 {
        if u.len() > 0 && u[0] == '~' {
            None
        } else {
            Some(("."@, u))
        }
    } else if text::begins(dir, "~/"@) {
        match home {
            Some(h) => Some((h + "/"@ + dir.skip(2), u.skip(n))),
            None => None,
        }
    } else {
        Some((dir, u.skip(n)))
    }
}

pub open spec fn pair(p: Option<(String, String)>) -> Option<(Seq<char>, Seq<char>)> {
    match p {
        Some((a, b)) => Some((a@, b@)),
        None => None,
    }
}

/// How many characters come before and with the last `/`.
pub fn dir_length(v: &Vec<char>) -> (n: usize)
    ensures
        n == dir_len(v@),
        n <= v.len(),
{
    let mut n: usize = v.len();
    assert(v@.take(n as int) =~= v@);
    while n > 0 && v[n - 1] != '/'
        invariant
            n <= v.len(),
            dir_len(v@.take(n as int)) == dir_len(v@),
        decreases n,
    {
        assert(v@.take(n as int).drop_last() =~= v@.take(n - 1));
        n -= 1;
    }
    n
}

/// The directory in the home directory that a `~/` starts.
fn at_home(home: &str, dir: &str) -> (r: String)
    requires
        text::begins(dir@, "~/"@),
    ensures
        r@ == home@ + "/"@ + dir@.skip(2),
{
    proof {
        reveal_strlit("~/");
    }
    let mut d = owned(home);
    d.append("/");
    d.append(text::skip(dir, 2).as_str());
    d
}

pub fn path_query(word: &str, home: &Option<String>) -> (r: Option<(String, String)>)
    ensures
        pair(r) == query(word@, shell::opt(*home)),
{
    let u = unescape_shell(word);
    let v = to_chars(u.as_str());
    let n = dir_length(&v);
    if n == 0 {
        if v.len() > 0 && v[0] == '~' {
            return None;
        }
        return Some((owned("."), u));
    }
    let dir = from_range(&v, 0, n);
    let prefix = from_range(&v, n, v.len());
    assert(dir@ =~= u@.take(n as int));
    assert(prefix@ =~= u@.skip(n as int));
    if starts_with(dir.as_str(), "~/") {
        match home {
            Some(h) => Some((at_home(h.as_str(), dir.as_str()), prefix)),
            None => None,
        }
    } else {
        Some((dir, prefix))
    }
}

/// A name in a directory, and whether it is the name of a directory or a link.
pub struct DirEntry {
    pub name: String,
    pub is_dir: bool,
}

/// The name, with a `/` behind it for a directory.
pub open spec fn entry_name(e: DirEntry) -> Seq<char> {
    if e.is_dir {
        e.name@ + seq!['/']
    } else {
        e.name@
    }
}

/// The names that start with `prefix`.
pub open spec fn names_with(entries: Seq<DirEntry>, prefix: Seq<char>) -> Seq<Seq<char>>
    decreases entries.len(),
{
    if entries.len() == 0 {
        Seq::empty()
    } else {
        let front = names_with(entries.drop_last(), prefix);
        if text::begins(entries.last().name@, prefix) {
            front.push(entry_name(entries.last()))
        } else {
            front
        }
    }
}

/// What the first name, in order, that starts with `prefix` has behind it.
pub open spec fn path_rest(entries: Seq<DirEntry>, prefix: Seq<char>) -> Option<Seq<char>> {
    let names = names_with(entries, prefix);
    if names.len() > 0 {
        Some(escaped(order::arranged(names)[0].skip(prefix.len() as int)))
    } else {
        None
    }
}

proof fn lemma_names_begin(entries: Seq<DirEntry>, prefix: Seq<char>)
    ensures
        forall|k: int|
            0 <= k < names_with(entries, prefix).len() ==> text::begins(
                #[trigger] names_with(entries, prefix)[k],
                prefix,
            ),
    decreases entries.len(),
{
    if entries.len() > 0 {
        lemma_names_begin(entries.drop_last(), prefix);
        let e = entries.last();
        let front = names_with(entries.drop_last(), prefix);
        let all = names_with(entries, prefix);
        if text::begins(e.name@, prefix) {
            assert(entry_name(e).take(prefix.len() as int) =~= e.name@.take(prefix.len() as int));
        }
        assert forall|k: int| 0 <= k < all.len() implies text::begins(#[trigger] all[k], prefix) by {
            if k < front.len() {
                assert(all[k] == front[k]);
            }
        }
    }
}

/// What carries on a name that starts with `prefix`, among those in a
/// directory.
pub fn suggest_path(prefix: &str, entries: &Vec<DirEntry>) -> (r: Option<String>)
    ensures
        shell::opt(r) == path_rest(entries@, prefix@),
{
    let mut names: Vec<String> = Vec::new();
    let mut i: usize = 0;
    assert(entries@.take(0) =~= Seq::empty());
    assert(text::texts(names@) =~= Seq::empty());
    while i < entries.len()
        invariant
            i <= entries.len(),
            text::texts(names@) == names_with(entries@.take(i as int), prefix@),
        decreases entries.len() - i,
    {
        broadcast use text::texts_push;

        assert(entries@.take(i + 1).drop_last() =~= entries@.take(i as int));
        if starts_with(entries[i].name.as_str(), prefix) {
            let mut name = entries[i].name.clone();
            if entries[i].is_dir {
                name.push('/');
                assert(name@ =~= entries@[i as int].name@ + seq!['/']);
            }
            names.push(name);
        }
        i += 1;
    }
    assert(entries@.take(entries.len() as int) =~= entries@);
    let ghost found = text::texts(names@);
    assert(found.len() == names.len());
    if names.len() == 0 {
        return None;
    }
    let sorted = order::sort(names);
    let ghost all = text::texts(sorted@);
    proof {
        broadcast use vstd::seq_lib::group_to_multiset_ensures;

        assert(all.len() == all.to_multiset().len());
        assert(found.len() == found.to_multiset().len());
        assert(all[0] == sorted@[0]@);
        assert(all.contains(all[0]));
        assert(all.to_multiset().count(all[0]) > 0);
        assert(found.contains(all[0]));
        lemma_names_begin(entries@, prefix@);
        let k = found.index_of(all[0]);
        assert(text::begins(found[k], prefix@));
    }
    let rest = text::skip(sorted[0].as_str(), prefix.unicode_len());
    Some(escape_for_shell(rest.as_str()))
}

/// The path that comes of a suggestion is the directory and a name in it that
/// starts as the word did.
pub proof fn law_suggested_path_is_a_name(entries: Seq<DirEntry>, prefix: Seq<char>)
    ensures
        path_rest(entries, prefix) matches Some(rest) ==> names_with(entries, prefix).contains(
            prefix + unescaped(rest),
        ),
{
    broadcast use vstd::seq_lib::group_to_multiset_ensures;

    let names = names_with(entries, prefix);
    if names.len() > 0 {
        let all = order::arranged(names);
        order::law_arranging_is_possible(names);
        assert(all.len() == all.to_multiset().len());
        assert(names.len() == names.to_multiset().len());
        assert(all.contains(all[0]));
        assert(all.to_multiset().count(all[0]) > 0);
        assert(names.contains(all[0]));
        lemma_names_begin(entries, prefix);
        let k = names.index_of(all[0]);
        assert(text::begins(names[k], prefix));
        let rest = all[0].skip(prefix.len() as int);
        lemma_escaped(rest);
        assert(prefix + rest =~= all[0]);
    }
}

// ---------------------------------------------------------------------------
// Commands
// ---------------------------------------------------------------------------

/// The names that do not start with a dot.
pub open spec fn not_hidden(names: Seq<Seq<char>>) -> Seq<Seq<char>>
    decreases names.len(),
{
    if names.len() == 0 {
        Seq::empty()
    } else if names.last().len() > 0 && names.last()[0] == '.' {
        not_hidden(names.drop_last())
    } else {
        not_hidden(names.drop_last()).push(names.last())
    }
}

/// The names of commands, given those of the files where commands are looked
/// for: each once, in order.
pub fn collect_commands(names: &Vec<String>) -> (r: Vec<String>)
    ensures
        text::texts(r@) == order::deduped(order::arranged(not_hidden(text::texts(names@)))),
{
    let mut kept: Vec<String> = Vec::new();
    let mut i: usize = 0;
    let ghost all = text::texts(names@);
    assert(all.take(0) =~= Seq::empty());
    assert(text::texts(kept@) =~= Seq::empty());
    while i < names.len()
        invariant
            i <= names.len(),
            all == text::texts(names@),
            text::texts(kept@) == not_hidden(all.take(i as int)),
        decreases names.len() - i,
    {
        broadcast use text::texts_push;

        assert(all.take(i + 1).drop_last() =~= all.take(i as int));
        assert(all.take(i + 1).last() == names@[i as int]@);
        if !starts_with_char(names[i].as_str(), '.') {
            kept.push(names[i].clone());
        }
        i += 1;
    }
    assert(all.take(all.len() as int) =~= all);
    order::dedup(order::sort(kept))
}

/// What the first of the commands that goes on behind `prefix` has there.
pub open spec fn command_rest(commands: Seq<Seq<char>>, prefix: Seq<char>) -> Option<Seq<char>>
    decreases commands.len(),
{
    if commands.len() == 0 {
        None
    } else if history::goes_on(commands[0], prefix) {
        Some(history::rest_of(commands[0], prefix))
    } else {
        command_rest(commands.drop_first(), prefix)
    }
}

fn rest_of_command(commands: &Vec<String>, prefix: &str) -> (r: Option<String>)
    ensures
        shell::opt(r) == command_rest(text::texts(commands@), prefix@),
{
    let n = prefix.unicode_len();
    let mut i: usize = 0;
    let ghost all = text::texts(commands@);
    assert(all.skip(0) =~= all);
    while i < commands.len()
        invariant
            i <= commands.len(),
            n == prefix@.len(),
            all == text::texts(commands@),
            command_rest(all.skip(i as int), prefix@) == command_rest(all, prefix@),
        decreases commands.len() - i,
    {
        assert(all.skip(i as int)[0] == commands@[i as int]@);
        assert(all.skip(i as int).drop_first() =~= all.skip(i + 1));
        let cmd = commands[i].as_str();
        if starts_with(cmd, prefix) && cmd.unicode_len() > n {
            return Some(text::skip(cmd, n));
        }
        i += 1;
    }
    None
}

/// Whether paths are suggested: the last word looks like one, or there is a
/// word before it.
pub open spec fn wants_path(prefix: Seq<char>) -> bool {
    let last = last_word(prefix);
    last.len() > 0 && (last.contains('/') || last[0] == '~' || last[0] == '.' || prefix.contains(' '))
}

fn is_path_wanted(prefix: &str, last: &str) -> (r: bool)
    requires
        last@ == last_word(prefix@),
    ensures
        r == wants_path(prefix@),
{
    last.unicode_len() > 0 && (contains_char(last, '/') || starts_with_char(last, '~')
        || starts_with_char(last, '.') || contains_char(prefix, ' '))
}

/// The directory to look in for what may come behind `prefix`, and what the
/// names there start with.
pub open spec fn directory_for(prefix: Seq<char>, home: Option<Seq<char>>) -> Option<
    (Seq<char>, Seq<char>),
> {
    if wants_path(prefix) {
        query(last_word(prefix), home)
    } else {
        None
    }
}

pub fn suggestion_directory(prefix: &str, home: &Option<String>) -> (r: Option<(String, String)>)
    ensures
        pair(r) == directory_for(prefix@, shell::opt(*home)),
{
    let last = find_last_word(prefix);
    if is_path_wanted(prefix, last.as_str()) {
        path_query(last.as_str(), home)
    } else {
        None
    }
}

/// What the world outside knows that a suggestion depends on.
pub struct Surroundings {
    /// The names of files that exist, of those that the history asks for.
    pub existing: Vec<String>,
    pub home: Option<String>,
    /// What is in the directory that `suggestion_directory` gives, if it can be
    /// read.
    pub entries: Option<Vec<DirEntry>>,
    /// The names of the commands there are, in order.
    pub commands: Vec<String>,
}

/// What could come behind `prefix`: what the history has there, or else the
/// rest of a path, or else that of a command.
pub open spec fn suggestion_for(
    prefix: Seq<char>,
    entries: Seq<Seq<char>>,
    around: Surroundings,
) -> Option<Seq<char>> {
    if prefix.len() == 0 {
        None
    } else {
        match history::suggested(entries, prefix, text::texts(around.existing@)) {
            Some(s) => Some(s),
            None => {
                let path = match (directory_for(prefix, shell::opt(around.home)), around.entries) {
                    (Some((_, start)), Some(es)) => path_rest(es@, start),
                    _ => None,
                };
                match path {
                    Some(s) => Some(s),
                    None => command_rest(text::texts(around.commands@), prefix),
                }
            },
        }
    }
}

pub fn suggest_command(prefix: &str, history: &History, around: &Surroundings) -> (r: Option<String>)
    ensures
        shell::opt(r) == suggestion_for(prefix@, history@.entries, *around),
{
    if prefix.unicode_len() == 0 {
        return None;
    }
    if let Some(s) = history.suggestion(prefix, &around.existing) {
        return Some(s);
    }
    if let Some((_, start)) = suggestion_directory(prefix, &around.home) {
        if let Some(entries) = &around.entries {
            if let Some(s) = suggest_path(start.as_str(), entries) {
                return Some(s);
            }
        }
    }
    rest_of_command(&around.commands, prefix)
}

/// The suggestion, if suggestions are wanted.
pub fn suggest_command_opt(prefix: &str, history: &History, suggest: bool, around: &Surroundings) -> (r:
    Option<String>)
    ensures
        shell::opt(r) == (if suggest {
            suggestion_for(prefix@, history@.entries, *around)
        } else {
            None
        }),
{
    if suggest {
        suggest_command(prefix, history, around)
    } else {
        None
    }
}

} // verus!
