//! What holds of suggestions: where paths are looked for, and which of the
//! possible texts is offered.

use vstd::prelude::*;
use vstd::string::*;

use crate::history;
use crate::order;
use crate::shell;
use crate::suggest;
use crate::suggest::{DirEntry, Surroundings};
use crate::text;

verus! {

// ---------------------------------------------------------------------------
// Words
// ---------------------------------------------------------------------------

/// Whether what follows `a` on a line starts a word.
pub open spec fn word_may_start(a: Seq<char>) -> bool {
    a.len() > 0 ==> (a.last() == ' ' || a.last() == '\t') && !(a.len() >= 2 && a[a.len() - 2]
        == '\\')
}

/// Whether no blank ends the word: each has a backslash before it.
pub open spec fn no_free_blank(w: Seq<char>) -> bool {
    forall|k: int|
        0 <= k < w.len() && (#[trigger] w[k] == ' ' || w[k] == '\t') ==> k > 0 && w[k - 1] == '\\'
}

proof fn lemma_word_start(a: Seq<char>, w: Seq<char>, i: int)
    requires
        word_may_start(a),
        no_free_blank(w),
        0 <= i <= w.len(),
    ensures
        suggest::last_word_start(a + w, a.len() + i) == a.len(),
    decreases i,
{
    let s = a + w;
    if i > 0 {
        assert(s[a.len() + i - 1] == w[i - 1]);
        if i >= 2 {
            assert(s[a.len() + i - 2] == w[i - 2]);
        }
        lemma_word_start(a, w, i - 1);
    } else if a.len() > 0 {
        assert(s[a.len() - 1] == a.last());
        if a.len() >= 2 {
            assert(s[a.len() - 2] == a[a.len() - 2]);
        }
    }
}

/// The last word of a line is what stands behind the last blank that has no
/// backslash before it.
pub proof fn law_last_word(a: Seq<char>, w: Seq<char>)
    requires
        word_may_start(a),
        no_free_blank(w),
    ensures
        suggest::last_word(a + w) == w,
{
    lemma_word_start(a, w, w.len() as int);
    assert((a + w).skip(a.len() as int) =~= w);
}

proof fn lemma_unescaped_plain(w: Seq<char>)
    requires
        !w.contains('\\'),
    ensures
        suggest::unescaped(w) == w,
    decreases w.len(),
{
    if w.len() > 0 {
        assert(w.contains(w[0]));
        assert(!w.drop_first().contains('\\')) by {
            if w.drop_first().contains('\\') {
                let k = w.drop_first().index_of('\\');
                assert(w[k + 1] == '\\');
            }
        }
        lemma_unescaped_plain(w.drop_first());
        assert(seq![w[0]] + w.drop_first() =~= w);
    } else {
        assert(w =~= Seq::empty());
    }
}

/// A backslash makes the character behind it stand for itself.
pub proof fn law_backslash_keeps_character(a: Seq<char>, c: char, b: Seq<char>)
    requires
        !a.contains('\\'),
    ensures
        suggest::unescaped(a) == a,
        suggest::unescaped(a + seq!['\\', c] + b) == a + seq![c] + suggest::unescaped(b),
    decreases a.len(),
{
    lemma_unescaped_plain(a);
    let s = a + seq!['\\', c] + b;
    if a.len() > 0 {
        assert(a.contains(a[0]));
        let rest = a.drop_first();
        assert(!rest.contains('\\')) by {
            if rest.contains('\\') {
                let k = rest.index_of('\\');
                assert(a[k + 1] == '\\');
            }
        }
        law_backslash_keeps_character(rest, c, b);
        assert(s[0] == a[0]);
        assert(s.drop_first() =~= rest + seq!['\\', c] + b);
        assert(suggest::unescaped(s) =~= a + seq![c] + suggest::unescaped(b));
    } else {
        assert(s[0] == '\\');
        assert(s[1] == c);
        assert(s.skip(2) =~= b);
        assert(suggest::unescaped(s) =~= a + seq![c] + suggest::unescaped(b));
    }
}

/// The characters that have a meaning of their own in a command line get a
/// backslash, and no others.
pub proof fn law_special_characters_are_escaped(a: Seq<char>, c: char)
    ensures
        ({
            let marked = " \\|;&<>#$\"'`(){}*?[!~"@.contains(c);
            suggest::escaped(a.push(c)) == suggest::escaped(a) + (if marked {
                seq!['\\', c]
            } else {
                seq![c]
            })
        }),
        suggest::escaped(Seq::empty()) == Seq::<char>::empty(),
{
    reveal_strlit(" \\|;&<>#$\"'`(){}*?[!~");
    let m = " \\|;&<>#$\"'`(){}*?[!~"@;
    assert(a.push(c).drop_last() =~= a);
    if suggest::special(c) {
        assert(m[0] == ' ' && m[1] == '\\' && m[2] == '|' && m[3] == ';' && m[4] == '&' && m[5]
            == '<' && m[6] == '>' && m[7] == '#' && m[8] == '$' && m[9] == '"' && m[10] == '\''
            && m[11] == '`' && m[12] == '(' && m[13] == ')' && m[14] == '{' && m[15] == '}'
            && m[16] == '*' && m[17] == '?' && m[18] == '[' && m[19] == '!' && m[20] == '~');
    }
}

// ---------------------------------------------------------------------------
// Where paths are looked for
// ---------------------------------------------------------------------------

proof fn lemma_dir_len(dir: Seq<char>, name: Seq<char>)
    requires
        dir.len() > 0 ==> dir.last() == '/',
        !name.contains('/'),
    ensures
        suggest::dir_len(dir + name) == dir.len(),
    decreases name.len(),
{
    let s = dir + name;
    if name.len() == 0 {
        assert(s =~= dir);
    } else {
        assert(s.last() == name.last());
        assert(name.contains(name.last()));
        assert(s.drop_last() =~= dir + name.drop_last());
        assert(!name.drop_last().contains('/')) by {
            if name.drop_last().contains('/') {
                let k = name.drop_last().index_of('/');
                assert(name[k] == '/');
            }
        }
        lemma_dir_len(dir, name.drop_last());
    }
}

/// A last word with a `/` in it is looked for in the directory up to its last
/// `/`, whether it is the first word of the line or not. A `~/` in front stands for
/// the home directory. A word without a `/` is looked for in the current directory
/// where it starts with a dot or is not the first; one that starts with a `~` is
/// not looked for.
pub proof fn law_paths_are_looked_for(
    a: Seq<char>,
    w: Seq<char>,
    dir: Seq<char>,
    name: Seq<char>,
    home: Option<Seq<char>>,
)
    requires
        word_may_start(a),
        no_free_blank(w),
        w.len() > 0,
        suggest::unescaped(w) == dir + name,
        dir.len() > 0 ==> dir.last() == '/',
        !name.contains('/'),
    ensures
        ({
            let found = suggest::directory_for(a + w, home);
            let below_home = dir.len() >= 2 && dir[0] == '~' && dir[1] == '/';
            let known = w.contains('/') || w[0] == '~' || w[0] == '.' || (a + w).contains(' ');
            &&& known && dir.len() > 0 && !below_home ==> found == Some((dir, name))
            &&& known && below_home ==> found == (match home {
                Some(h) => Some((h + seq!['/'] + dir.skip(2), name)),
                None => None,
            })
            &&& known && dir.len() == 0 && (name.len() == 0 || name[0] != '~') ==> found == Some(
                ("."@, name),
            )
            &&& dir.len() == 0 && name.len() > 0 && name[0] == '~' ==> found is None
            &&& !known ==> found is None
        }),
{
    law_last_word(a, w);
    lemma_dir_len(dir, name);
    let u = dir + name;
    assert(u.take(dir.len() as int) =~= dir);
    assert(u.skip(dir.len() as int) =~= name);
    reveal_strlit("~/");
    reveal_strlit("/");
    assert("~/"@ =~= seq!['~', '/']);
    assert("/"@ =~= seq!['/']);
    if dir.len() >= 2 {
        assert(dir.take(2)[0] == dir[0] && dir.take(2)[1] == dir[1]);
        if dir[0] == '~' && dir[1] == '/' {
            assert(dir.take(2) =~= "~/"@);
        }
    }
    if dir.len() == 0 {
        assert(u =~= name);
    }
}

/// The same for a word that is typed without backslashes.
pub proof fn law_typed_paths_are_looked_for(
    a: Seq<char>,
    dir: Seq<char>,
    name: Seq<char>,
    home: Option<Seq<char>>,
)
    requires
        word_may_start(a),
        dir.len() > 0,
        dir.last() == '/',
        !name.contains('/'),
        forall|k: int|
            0 <= k < (dir + name).len() ==> #[trigger] (dir + name)[k] != ' ' && (dir + name)[k]
                != '\t' && (dir + name)[k] != '\\',
        dir.len() >= 2 ==> dir[0] != '~' || dir[1] != '/',
    ensures
        suggest::directory_for(a + (dir + name), home) == Some((dir, name)),
{
    let w = dir + name;
    if w.contains('\\') {
        let k = w.index_of('\\');
        assert(w[k] == '\\');
    }
    lemma_unescaped_plain(w);
    assert(w[dir.len() - 1] == '/');
    assert(w.contains('/'));
    law_paths_are_looked_for(a, w, dir, name, home);
}

// ---------------------------------------------------------------------------
// What is offered
// ---------------------------------------------------------------------------

/// How an entry of a directory is offered: a directory with a `/` behind it.
pub open spec fn offered(e: DirEntry) -> Seq<char> {
    if e.is_dir {
        e.name@ + seq!['/']
    } else {
        e.name@
    }
}

/// Whether a text starts with another.
pub open spec fn starts(s: Seq<char>, p: Seq<char>) -> bool {
    exists|rest: Seq<char>| s == #[trigger] (p + rest)
}

proof fn lemma_starts(s: Seq<char>, p: Seq<char>)
    ensures
        starts(s, p) <==> text::begins(s, p),
{
    if text::begins(s, p) {
        assert(s =~= p + s.skip(p.len() as int));
    }
    if starts(s, p) {
        let rest = choose|rest: Seq<char>| s == #[trigger] (p + rest);
        assert(s.take(p.len() as int) =~= p);
    }
}

proof fn lemma_names(es: Seq<DirEntry>, start: Seq<char>)
    ensures
        forall|n: Seq<char>| #[trigger]
            suggest::names_with(es, start).contains(n) <==> exists|k: int|
                0 <= k < es.len() && starts((#[trigger] es[k]).name@, start) && offered(es[k]) == n,
    decreases es.len(),
{
    let names = suggest::names_with(es, start);
    if es.len() > 0 {
        let front = es.drop_last();
        let last = es.last();
        lemma_names(front, start);
        lemma_starts(last.name@, start);
        assert forall|n: Seq<char>| #[trigger] names.contains(n) <==> exists|k: int|
            0 <= k < es.len() && starts((#[trigger] es[k]).name@, start) && offered(es[k]) == n by {
            let before = suggest::names_with(front, start);
            if names.contains(n) {
                let i = names.index_of(n);
                if i < before.len() {
                    assert(before[i] == n);
                    assert(before.contains(n));
                    let k = choose|k: int|
                        0 <= k < front.len() && starts((#[trigger] front[k]).name@, start)
                            && offered(front[k]) == n;
                    assert(es[k] == front[k]);
                } else {
                    assert(es[es.len() - 1] == last);
                }
            }
            if exists|k: int|
                0 <= k < es.len() && starts((#[trigger] es[k]).name@, start) && offered(es[k])
                    == n {
                let k = choose|k: int|
                    0 <= k < es.len() && starts((#[trigger] es[k]).name@, start) && offered(es[k])
                        == n;
                if k < front.len() {
                    assert(front[k] == es[k]);
                    assert(before.contains(n));
                    let i = before.index_of(n);
                    assert(names[i] == n);
                } else {
                    assert(names[names.len() - 1] == n);
                }
            }
        }
    }
}

/// Of the entries of a directory that start as the word does, the first in order
/// is offered, without what is typed already, and with backslashes where they are
/// needed. There is an offer exactly where there is such an entry.
pub proof fn law_first_entry_is_offered(es: Seq<DirEntry>, start: Seq<char>)
    ensures
        suggest::path_rest(es, start) is Some <==> exists|k: int|
            0 <= k < es.len() && starts((#[trigger] es[k]).name@, start),
        suggest::path_rest(es, start) matches Some(rest) ==> exists|k: int|
            0 <= k < es.len() && starts((#[trigger] es[k]).name@, start) && rest
                == suggest::escaped(offered(es[k]).skip(start.len() as int)) && (forall|j: int|
                0 <= j < es.len() && starts((#[trigger] es[j]).name@, start) ==> order::at_most(
                    offered(es[k]),
                    offered(es[j]),
                )),
{
    broadcast use vstd::seq_lib::group_to_multiset_ensures;

    let names = suggest::names_with(es, start);
    lemma_names(es, start);
    if exists|k: int| 0 <= k < es.len() && starts((#[trigger] es[k]).name@, start) {
        let k = choose|k: int| 0 <= k < es.len() && starts((#[trigger] es[k]).name@, start);
        assert(names.contains(offered(es[k])));
    }
    if names.len() > 0 {
        assert(names.contains(names[0]));
        let all = order::arranged(names);
        order::law_arranging_is_possible(names);
        assert(all.len() == all.to_multiset().len());
        assert(names.len() == names.to_multiset().len());
        assert(all.contains(all[0]));
        assert(all.to_multiset().count(all[0]) > 0);
        assert(names.contains(all[0]));
        let k = choose|k: int|
            0 <= k < es.len() && starts((#[trigger] es[k]).name@, start) && offered(es[k])
                == all[0];
        assert forall|j: int| 0 <= j < es.len() && starts(
            (#[trigger] es[j]).name@,
            start,
        ) implies order::at_most(offered(es[k]), offered(es[j])) by {
            let n = offered(es[j]);
            assert(names.contains(n));
            assert(names.to_multiset().count(n) > 0);
            assert(all.contains(n));
            let i = all.index_of(n);
            if i > 0 {
                assert(order::at_most(all[0], all[i]));
            } else {
                order::law_order_is_total(n, n);
            }
        }
    }
}

/// Where the history has nothing to offer, a path is completed from the directory
/// that it names, also where it is the first word of the line.
pub proof fn law_typed_path_is_completed(
    a: Seq<char>,
    dir: Seq<char>,
    name: Seq<char>,
    entries: Seq<Seq<char>>,
    around: Surroundings,
    k: int,
)
    requires
        word_may_start(a),
        dir.len() > 0,
        dir.last() == '/',
        !name.contains('/'),
        forall|k: int|
            0 <= k < (dir + name).len() ==> #[trigger] (dir + name)[k] != ' ' && (dir + name)[k]
                != '\t' && (dir + name)[k] != '\\',
        dir.len() >= 2 ==> dir[0] != '~' || dir[1] != '/',
        history::suggested(entries, a + (dir + name), text::texts(around.existing@)) is None,
        around.entries matches Some(es) && 0 <= k < es@.len() && starts(es@[k].name@, name),
    ensures
        ({
            let es = around.entries->0@;
            suggest::suggestion_for(a + (dir + name), entries, around) matches Some(rest)
                && exists|j: int|
                0 <= j < es.len() && starts((#[trigger] es[j]).name@, name) && rest
                    == suggest::escaped(offered(es[j]).skip(name.len() as int))
        }),
{
    let prefix = a + (dir + name);
    law_typed_paths_are_looked_for(a, dir, name, shell::opt(around.home));
    assert(prefix.len() > 0);
    law_first_entry_is_offered(around.entries->0@, name);
}

/// What the history offers comes before all else.
pub proof fn law_history_comes_first(
    prefix: Seq<char>,
    entries: Seq<Seq<char>>,
    around: Surroundings,
    s: Seq<char>,
)
    requires
        prefix.len() > 0,
        history::suggested(entries, prefix, text::texts(around.existing@)) == Some(s),
    ensures
        suggest::suggestion_for(prefix, entries, around) == Some(s),
        suggest::suggestion_for(Seq::empty(), entries, around) is None,
{
}

proof fn lemma_command_rest(cs: Seq<Seq<char>>, prefix: Seq<char>)
    ensures
        match suggest::command_rest(cs, prefix) {
            Some(rest) => rest.len() > 0 && exists|k: int|
                0 <= k < cs.len() && #[trigger] cs[k] == prefix + rest && (forall|j: int|
                    0 <= j < k ==> !(starts(#[trigger] cs[j], prefix) && cs[j] != prefix)),
            None => forall|j: int|
                0 <= j < cs.len() ==> !(starts(#[trigger] cs[j], prefix) && cs[j] != prefix),
        },
    decreases cs.len(),
{
    if cs.len() > 0 {
        let rest = cs.drop_first();
        let c = cs[0];
        lemma_starts(c, prefix);
        lemma_command_rest(rest, prefix);
        if history::goes_on(c, prefix) {
            assert(c =~= prefix + c.skip(prefix.len() as int));
        } else {
            if text::begins(c, prefix) {
                assert(c.take(prefix.len() as int) =~= c);
            }
            assert(!(starts(cs[0], prefix) && cs[0] != prefix));
            match suggest::command_rest(rest, prefix) {
                Some(r) => {
                    let k = choose|k: int|
                        0 <= k < rest.len() && #[trigger] rest[k] == prefix + r && (forall|j: int|
                            0 <= j < k ==> !(starts(#[trigger] rest[j], prefix) && rest[j]
                                != prefix));
                    assert(cs[k + 1] == prefix + r);
                    assert forall|j: int| 0 <= j < k + 1 implies !(starts(
                        #[trigger] cs[j],
                        prefix,
                    ) && cs[j] != prefix) by {
                        if j > 0 {
                            assert(cs[j] == rest[j - 1]);
                        }
                    }
                },
                None => {
                    assert forall|j: int| 0 <= j < cs.len() implies !(starts(
                        #[trigger] cs[j],
                        prefix,
                    ) && cs[j] != prefix) by {
                        if j > 0 {
                            assert(cs[j] == rest[j - 1]);
                        }
                    }
                },
            }
        }
    }
}

/// Where there is neither an entry of the history nor a path to offer, the first
/// of the commands that starts with what is typed, and goes on, is completed.
pub proof fn law_command_is_completed(
    prefix: Seq<char>,
    entries: Seq<Seq<char>>,
    around: Surroundings,
)
    requires
        prefix.len() > 0,
        history::suggested(entries, prefix, text::texts(around.existing@)) is None,
        suggest::directory_for(prefix, shell::opt(around.home)) is None || around.entries is None,
    ensures
        ({
            let cs = text::texts(around.commands@);
            match suggest::suggestion_for(prefix, entries, around) {
                Some(rest) => rest.len() > 0 && exists|k: int|
                    0 <= k < cs.len() && #[trigger] cs[k] == prefix + rest && (forall|j: int|
                        0 <= j < k ==> !(starts(#[trigger] cs[j], prefix) && cs[j] != prefix)),
                None => forall|j: int|
                    0 <= j < cs.len() ==> !(starts(#[trigger] cs[j], prefix) && cs[j] != prefix),
            }
        }),
{
    lemma_command_rest(text::texts(around.commands@), prefix);
}

proof fn lemma_not_hidden(names: Seq<Seq<char>>)
    ensures
        forall|n: Seq<char>| #[trigger]
            suggest::not_hidden(names).contains(n) <==> names.contains(n) && !(n.len() > 0 && n[0]
                == '.'),
    decreases names.len(),
{
    if names.len() > 0 {
        let front = names.drop_last();
        let last = names.last();
        lemma_not_hidden(front);
        let kept = suggest::not_hidden(front);
        let all = suggest::not_hidden(names);
        assert(names =~= front.push(last));
        assert forall|n: Seq<char>| #[trigger] all.contains(n) <==> names.contains(n) && !(n.len()
            > 0 && n[0] == '.') by {
            assert(kept.contains(n) <==> front.contains(n) && !(n.len() > 0 && n[0] == '.'));
            if names.contains(n) {
                let i = names.index_of(n);
                if i < front.len() {
                    assert(front[i] == n);
                }
            }
            if front.contains(n) {
                let i = front.index_of(n);
                assert(names[i] == n);
            }
            if all.contains(n) {
                let i = all.index_of(n);
                if i < kept.len() {
                    assert(kept[i] == n);
                } else {
                    assert(names[names.len() - 1] == n);
                }
            }
            if kept.contains(n) {
                let i = kept.index_of(n);
                assert(all[i] == n);
            }
            if n == last && !(n.len() > 0 && n[0] == '.') {
                assert(all[all.len() - 1] == n);
            }
        }
    }
}

/// The commands that are known are the names of the files that are no hidden
/// ones, each once, in order.
pub proof fn law_commands_are_listed(names: Seq<Seq<char>>)
    ensures
        ({
            let cs = order::deduped(order::arranged(suggest::not_hidden(names)));
            &&& order::sorted(cs)
            &&& cs.no_duplicates()
            &&& forall|n: Seq<char>| #[trigger]
                cs.contains(n) <==> names.contains(n) && !(n.len() > 0 && n[0] == '.')
        }),
{
    broadcast use vstd::seq_lib::group_to_multiset_ensures;

    let shown = suggest::not_hidden(names);
    let all = order::arranged(shown);
    lemma_not_hidden(names);
    order::law_arranging_is_possible(shown);
    order::law_sorted_texts_dedup(all);
    let cs = order::deduped(all);
    assert forall|n: Seq<char>| #[trigger] cs.contains(n) <==> names.contains(n) && !(n.len() > 0
        && n[0] == '.') by {
        assert(all.contains(n) <==> all.to_multiset().count(n) > 0);
        assert(shown.contains(n) <==> shown.to_multiset().count(n) > 0);
        assert(shown.contains(n) <==> names.contains(n) && !(n.len() > 0 && n[0] == '.'));
        assert(cs.to_set().contains(n) <==> all.to_set().contains(n));
    }
}

// ---------------------------------------------------------------------------
// The history
// ---------------------------------------------------------------------------

/// Whether what an entry would add can be offered: where words of it look like
/// files, that is hold a `/` or a `.` and are no options, one of them is there.
pub open spec fn can_be_offered(rest: Seq<char>, existing: Seq<Seq<char>>) -> bool {
    let ws = text::words_of(rest);
    let like_file = |w: Seq<char>|
        (w.contains('/') || w.contains('.')) && !(w.len() > 0 && w[0] == '-');
    (exists|k: int| 0 <= k < ws.len() && like_file(#[trigger] ws[k])) ==> exists|k: int|
        0 <= k < ws.len() && like_file(#[trigger] ws[k]) && existing.contains(ws[k])
}

proof fn lemma_file_words(ws: Seq<Seq<char>>)
    ensures
        forall|w: Seq<char>| #[trigger]
            history::file_words(ws).contains(w) <==> ws.contains(w) && (w.contains('/')
                || w.contains('.')) && !(w.len() > 0 && w[0] == '-'),
    decreases ws.len(),
{
    if ws.len() > 0 {
        let front = ws.drop_last();
        let last = ws.last();
        lemma_file_words(front);
        let kept = history::file_words(front);
        let all = history::file_words(ws);
        assert forall|w: Seq<char>| #[trigger] all.contains(w) <==> ws.contains(w) && (w.contains(
            '/',
        ) || w.contains('.')) && !(w.len() > 0 && w[0] == '-') by {
            assert(kept.contains(w) <==> front.contains(w) && (w.contains('/') || w.contains('.'))
                && !(w.len() > 0 && w[0] == '-'));
            if ws.contains(w) {
                let i = ws.index_of(w);
                if i < front.len() {
                    assert(front[i] == w);
                }
            }
            if front.contains(w) {
                let i = front.index_of(w);
                assert(ws[i] == w);
            }
            if all.contains(w) {
                let i = all.index_of(w);
                if i < kept.len() {
                    assert(kept[i] == w);
                } else {
                    assert(ws[ws.len() - 1] == w);
                }
            }
            if kept.contains(w) {
                let i = kept.index_of(w);
                assert(all[i] == w);
            }
            if w == last && history::file_like(w) {
                assert(all[all.len() - 1] == w);
            }
        }
    }
}

proof fn lemma_usable(rest: Seq<char>, existing: Seq<Seq<char>>)
    ensures
        history::usable(rest, existing) <==> can_be_offered(rest, existing),
{
    let ws = text::words_of(rest);
    let fs = history::file_words(ws);
    lemma_file_words(ws);
    let like_file = |w: Seq<char>|
        (w.contains('/') || w.contains('.')) && !(w.len() > 0 && w[0] == '-');
    if exists|k: int| 0 <= k < ws.len() && like_file(#[trigger] ws[k]) {
        let k = choose|k: int| 0 <= k < ws.len() && like_file(#[trigger] ws[k]);
        assert(ws.contains(ws[k]));
        assert(fs.contains(ws[k]));
        if history::any_exists(fs, existing) {
            let j = choose|j: int| 0 <= j < fs.len() && existing.contains(#[trigger] fs[j]);
            assert(fs.contains(fs[j]));
            let i = ws.index_of(fs[j]);
            assert(like_file(ws[i]) && existing.contains(ws[i]));
        }
        if can_be_offered(rest, existing) {
            let i = choose|i: int|
                0 <= i < ws.len() && like_file(#[trigger] ws[i]) && existing.contains(ws[i]);
            assert(ws.contains(ws[i]));
            assert(fs.contains(ws[i]));
            let j = fs.index_of(ws[i]);
            assert(existing.contains(fs[j]));
        }
    } else {
        if fs.len() > 0 {
            assert(fs.contains(fs[0]));
            let i = ws.index_of(fs[0]);
            assert(like_file(ws[i]));
        }
    }
}

/// Whether an entry goes on from what is typed, and what it adds can be offered.
pub open spec fn carries_on(e: Seq<char>, prefix: Seq<char>, existing: Seq<Seq<char>>) -> bool {
    starts(e, prefix) && e != prefix && can_be_offered(e.skip(prefix.len() as int), existing)
}

/// The history offers the newest entry that goes on from what is typed and whose
/// files are there, and something wherever there is such an entry.
pub proof fn law_newest_entry_is_offered(
    entries: Seq<Seq<char>>,
    prefix: Seq<char>,
    existing: Seq<Seq<char>>,
)
    ensures
        match history::suggested(entries, prefix, existing) {
            Some(rest) => exists|k: int|
                0 <= k < entries.len() && #[trigger] entries[k] == prefix + rest && carries_on(
                    entries[k],
                    prefix,
                    existing,
                ) && (forall|j: int|
                    k < j < entries.len() ==> !carries_on(#[trigger] entries[j], prefix, existing)),
            None => forall|j: int|
                0 <= j < entries.len() ==> !carries_on(#[trigger] entries[j], prefix, existing),
        },
    decreases entries.len(),
{
    if entries.len() > 0 {
        let e = entries.last();
        let front = entries.drop_last();
        lemma_starts(e, prefix);
        lemma_usable(e.skip(prefix.len() as int), existing);
        if text::begins(e, prefix) {
            assert(e =~= prefix + e.skip(prefix.len() as int));
            if e.len() == prefix.len() {
                assert(e.take(prefix.len() as int) =~= e);
            }
        }
        assert(entries[entries.len() - 1] == e);
        if !carries_on(e, prefix, existing) {
            law_newest_entry_is_offered(front, prefix, existing);
            match history::suggested(front, prefix, existing) {
                Some(rest) => {
                    let k = choose|k: int|
                        0 <= k < front.len() && #[trigger] front[k] == prefix + rest && carries_on(
                            front[k],
                            prefix,
                            existing,
                        ) && (forall|j: int|
                            k < j < front.len() ==> !carries_on(
                                #[trigger] front[j],
                                prefix,
                                existing,
                            ));
                    assert(entries[k] == front[k]);
                    assert forall|j: int| k < j < entries.len() implies !carries_on(
                        #[trigger] entries[j],
                        prefix,
                        existing,
                    ) by {
                        if j < front.len() {
                            assert(entries[j] == front[j]);
                        }
                    }
                },
                None => {
                    assert forall|j: int| 0 <= j < entries.len() implies !carries_on(
                        #[trigger] entries[j],
                        prefix,
                        existing,
                    ) by {
                        if j < front.len() {
                            assert(entries[j] == front[j]);
                        }
                    }
                },
            }
        }
    }
}

proof fn lemma_without_absent(entries: Seq<Seq<char>>, e: Seq<char>)
    requires
        !entries.contains(e),
    ensures
        history::without(entries, e) == entries,
    decreases entries.len(),
{
    if entries.len() > 0 {
        assert(entries[entries.len() - 1] == entries.last());
        let front = entries.drop_last();
        assert(!front.contains(e)) by {
            if front.contains(e) {
                let k = front.index_of(e);
                assert(entries[k] == e);
            }
        }
        lemma_without_absent(front, e);
        assert(front.push(entries.last()) =~= entries);
    } else {
        assert(entries =~= Seq::empty());
    }
}

proof fn lemma_without_add(a: Seq<Seq<char>>, b: Seq<Seq<char>>, e: Seq<char>)
    ensures
        history::without(a + b, e) == history::without(a, e) + history::without(b, e),
    decreases b.len(),
{
    if b.len() == 0 {
        assert(a + b =~= a);
        assert(history::without(a, e) + history::without(b, e) =~= history::without(a, e));
    } else {
        assert((a + b).drop_last() =~= a + b.drop_last());
        assert((a + b).last() == b.last());
        lemma_without_add(a, b.drop_last(), e);
        assert(history::without(a + b, e) =~= history::without(a, e) + history::without(b, e));
    }
}

/// A new line goes behind all entries. One that is there already moves to the end,
/// and the others keep their order. An empty line changes nothing.
pub proof fn law_lines_enter_the_history(
    h: history::HistoryV,
    a: Seq<Seq<char>>,
    e: Seq<char>,
    b: Seq<Seq<char>>,
)
    requires
        !a.contains(e),
        !b.contains(e),
        e.len() > 0,
        !text::white_space(e[0]),
        !text::white_space(e.last()),
    ensures
        h.entries == a ==> history::after_add(h, e).entries == a.push(e),
        h.entries == a.push(e) + b ==> history::after_add(h, e).entries == (a + b).push(e),
        history::after_add(h, Seq::empty()) == h,
{
    assert(text::trimmed_start(e) == e);
    assert(text::trimmed(e) == e);
    let none = Seq::<char>::empty();
    assert(text::trimmed(none) =~= none);
    lemma_without_absent(a, e);
    lemma_without_absent(b, e);
    let one = seq![e];
    assert(one.drop_last() =~= Seq::empty());
    assert(history::without(one.drop_last(), e) =~= Seq::empty());
    assert(history::without(one, e) =~= Seq::empty());
    lemma_without_add(a, one, e);
    lemma_without_add(a + one, b, e);
    assert(a.push(e) =~= a + one);
    assert(history::without(a.push(e) + b, e) =~= a + b);
    if a.len() > 0 {
        assert(a[a.len() - 1] == a.last());
    }
    if b.len() > 0 {
        assert(b[b.len() - 1] == b.last());
        assert((a.push(e) + b).last() == b.last());
    } else {
        assert(a.push(e) + b =~= a.push(e));
        assert((a + b).push(e) =~= a.push(e));
    }
}

/// Going up shows one older entry at a time, down to the oldest, and keeps the line
/// that was being written.
pub proof fn law_up_shows_older_entries(h: history::HistoryV, current: Seq<char>)
    requires
        h.index <= h.entries.len(),
        h.entries.len() > 0,
    ensures
        ({
            let now = history::after_up(h, current);
            &&& now.entries == h.entries
            &&& h.index > 0 ==> now.index == h.index - 1 && history::shown_up(h) == Some(
                h.entries[h.index - 1],
            )
            &&& h.index == 0 ==> now.index == 0 && history::shown_up(h) is None
            &&& h.index == h.entries.len() ==> now.saved == current
            &&& h.index < h.entries.len() ==> now.saved == h.saved
        }),
{
}

/// Going down shows one newer entry at a time, and behind the newest the line that
/// was being written.
pub proof fn law_down_shows_newer_entries(h: history::HistoryV)
    requires
        h.index <= h.entries.len(),
    ensures
        ({
            let now = history::after_down(h);
            &&& now.entries == h.entries
            &&& h.index < h.entries.len() ==> now.index == h.index + 1
            &&& h.index + 1 < h.entries.len() ==> history::shown_down(h) == Some(
                h.entries[h.index as int + 1],
            ) && now.saved == h.saved
            &&& h.index + 1 == h.entries.len() ==> history::shown_down(h) == Some(h.saved)
            &&& h.index == h.entries.len() ==> history::shown_down(h) is None && now == h
        }),
{
}

} // verus!
