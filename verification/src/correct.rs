//! Finding out what a command that failed was meant to be.

use vstd::prelude::*;
use vstd::string::*;

use crate::prompt;
use crate::shell;
use crate::shell::Shell;
use crate::text;
use crate::text::{
    contains, contains_char, find, from_range, lines, owned, same, starts_with, to_chars, trim, words,
};

verus! {

// ---------------------------------------------------------------------------
// How alike two words are
// ---------------------------------------------------------------------------

pub open spec fn least(a: nat, b: nat) -> nat {
    if a <= b {
        a
    } else {
        b
    }
}

pub open spec fn most(a: nat, b: nat) -> nat {
    if a >= b {
        a
    } else {
        b
    }
}

/// The smallest number of characters to put in, take out or change that makes
/// `b` of `a`.
pub open spec fn distance(a: Seq<char>, b: Seq<char>) -> nat
    decreases a.len() + b.len(),
{
    if a.len() == 0 {
        b.len()
    } else if b.len() == 0 {
        a.len()
    } else {
        least(
            least(distance(a, b.drop_last()) + 1, distance(a.drop_last(), b) + 1),
            distance(a.drop_last(), b.drop_last()) + (if a.last() == b.last() {
                0nat
            } else {
                1nat
            }),
        )
    }
}

/// No more changes are needed than there are characters in the longer text, and
/// no fewer than the lengths differ by.
pub proof fn law_distance_is_bounded(a: Seq<char>, b: Seq<char>)
    ensures
        distance(a, b) <= most(a.len(), b.len()),
        a.len() <= b.len() + distance(a, b),
        b.len() <= a.len() + distance(a, b),
    decreases a.len() + b.len(),
{
    if a.len() > 0 && b.len() > 0 {
        law_distance_is_bounded(a, b.drop_last());
        law_distance_is_bounded(a.drop_last(), b);
        law_distance_is_bounded(a.drop_last(), b.drop_last());
    }
}

/// It takes as many changes one way as the other.
pub proof fn law_distance_is_symmetric(a: Seq<char>, b: Seq<char>)
    ensures
        distance(a, b) == distance(b, a),
    decreases a.len() + b.len(),
{
    if a.len() > 0 && b.len() > 0 {
        law_distance_is_symmetric(a, b.drop_last());
        law_distance_is_symmetric(a.drop_last(), b);
        law_distance_is_symmetric(a.drop_last(), b.drop_last());
    }
}

/// No change is needed exactly where the texts are the same.
pub proof fn law_distance_zero_means_same(a: Seq<char>, b: Seq<char>)
    ensures
        distance(a, b) == 0 <==> a == b,
    decreases a.len() + b.len(),
{
    if a.len() > 0 && b.len() > 0 {
        law_distance_zero_means_same(a.drop_last(), b.drop_last());
        assert(a =~= a.drop_last().push(a.last()));
        assert(b =~= b.drop_last().push(b.last()));
    } else {
        assert(a =~= b || a.len() != b.len());
    }
}

/// Going by way of another text never takes fewer changes.
pub proof fn law_distance_by_way_of_another(a: Seq<char>, b: Seq<char>, c: Seq<char>)
    ensures
        distance(a, c) <= distance(a, b) + distance(b, c),
    decreases a.len() + b.len() + c.len(),
{
    law_distance_is_bounded(a, b);
    law_distance_is_bounded(b, c);
    law_distance_is_bounded(a, c);
    if a.len() > 0 && b.len() > 0 && c.len() > 0 {
        let (x, y, z) = (a.drop_last(), b.drop_last(), c.drop_last());
        law_distance_by_way_of_another(x, b, c);
        law_distance_by_way_of_another(a, b, z);
        law_distance_by_way_of_another(a, y, c);
        law_distance_by_way_of_another(a, y, z);
        law_distance_by_way_of_another(x, y, c);
        law_distance_by_way_of_another(x, y, z);
    }
}

/// One row of the table of distances: those of the first `i` characters of `a`
/// from each start of `b`.
spec fn row_of(row: Seq<usize>, a: Seq<char>, b: Seq<char>, i: int, upto: int) -> bool {
    forall|j: int| 0 <= j < upto ==> #[trigger] row[j] == distance(a.take(i), b.take(j))
}

/// The smallest number of changes that makes `b` of `a`.
pub fn levenshtein(a: &str, b: &str) -> (r: usize)
    ensures
        r == distance(a@, b@),
{
    let x = to_chars(a);
    let y = to_chars(b);
    let a_len = x.len();
    let b_len = y.len();
    assert(x@.take(a_len as int) =~= x@);
    assert(y@.take(b_len as int) =~= y@);
    let mut prev: Vec<usize> = Vec::new();
    let mut j: usize = 0;
    prev.push(0);
    assert(x@.take(0).len() == 0);
    while j < b_len
        invariant
            j <= b_len,
            b_len == y.len(),
            prev.len() == j + 1,
            row_of(prev@, x@, y@, 0, j + 1),
        decreases b_len - j,
    {
        j += 1;
        assert(distance(x@.take(0), y@.take(j as int)) == j);
        prev.push(j);
    }
    let mut i: usize = 0;
    while i < a_len
        invariant
            i <= a_len,
            a_len == x.len(),
            b_len == y.len(),
            prev.len() == b_len + 1,
            row_of(prev@, x@, y@, i as int, b_len + 1),
        decreases a_len - i,
    {
        let mut curr: Vec<usize> = Vec::new();
        curr.push(i + 1);
        assert(y@.take(0).len() == 0);
        assert(distance(x@.take(i + 1), y@.take(0)) == i + 1);
        let mut j: usize = 0;
        while j < b_len
            invariant
                i < a_len,
                a_len == x.len(),
                b_len == y.len(),
                j <= b_len,
                prev.len() == b_len + 1,
                curr.len() == j + 1,
                row_of(prev@, x@, y@, i as int, b_len + 1),
                row_of(curr@, x@, y@, i + 1, j + 1),
            decreases b_len - j,
        {
            let ghost p = x@.take(i + 1);
            let ghost q = y@.take(j + 1);
            assert(p.drop_last() =~= x@.take(i as int));
            assert(q.drop_last() =~= y@.take(j as int));
            assert(p.last() == x@[i as int] && q.last() == y@[j as int]);
            assert(prev@[j as int] == distance(x@.take(i as int), y@.take(j as int)));
            assert(prev@[j + 1] == distance(x@.take(i as int), y@.take(j + 1)));
            assert(curr@[j as int] == distance(x@.take(i + 1), y@.take(j as int)));
            proof {
                law_distance_is_bounded(p, q);
            }
            let side = if curr[j] <= prev[j + 1] {
                curr[j]
            } else {
                prev[j + 1]
            };
            let corner = prev[j];
            let d: usize = if x[i] == y[j] {
                if corner <= side {
                    corner
                } else {
                    side + 1
                }
            } else if corner <= side {
                corner + 1
            } else {
                side + 1
            };
            assert(d == distance(p, q));
            curr.push(d);
            j += 1;
        }
        prev = curr;
        i += 1;
    }
    prev[b_len]
}

// ---------------------------------------------------------------------------
// The best matches
// ---------------------------------------------------------------------------

/// The places in `ranks`, best score first, with place `k` put in behind those
/// whose score is not lower.
pub open spec fn ranked_with(ranks: Seq<int>, k: int, scores: Seq<u64>) -> Seq<int>
    decreases ranks.len(),
{
    if ranks.len() == 0 || scores[ranks.last()] >= scores[k] {
        ranks.push(k)
    } else {
        ranked_with(ranks.drop_last(), k, scores).push(ranks.last())
    }
}

/// The places among the first `n` whose score is at least `cutoff`, best score
/// first; where scores are equal, the first place first.
pub open spec fn ranked(scores: Seq<u64>, cutoff: u64, n: int) -> Seq<int>
    decreases n,
{
    if n <= 0 {
        Seq::empty()
    } else if scores[n - 1] >= cutoff {
        ranked_with(ranked(scores, cutoff, n - 1), n - 1, scores)
    } else {
        ranked(scores, cutoff, n - 1)
    }
}

/// Whether place `i` comes before place `j`.
pub open spec fn ranks_before(i: int, j: int, scores: Seq<u64>) -> bool {
    scores[i] > scores[j] || (scores[i] == scores[j] && i < j)
}

proof fn lemma_ranked_with(ranks: Seq<int>, k: int, scores: Seq<u64>)
    requires
        forall|x: int, y: int|
            0 <= x < y < ranks.len() ==> ranks_before(
                #[trigger] ranks[x],
                #[trigger] ranks[y],
                scores,
            ),
        forall|x: int| 0 <= x < ranks.len() ==> 0 <= #[trigger] ranks[x] < k,
    ensures
        ({
            let r = ranked_with(ranks, k, scores);
            &&& r.len() == ranks.len() + 1
            &&& forall|x: int, y: int|
                0 <= x < y < r.len() ==> ranks_before(#[trigger] r[x], #[trigger] r[y], scores)
            &&& forall|i: int| #[trigger] r.contains(i) <==> ranks.contains(i) || i == k
        }),
    decreases ranks.len(),
{
    let r = ranked_with(ranks, k, scores);
    if ranks.len() == 0 || scores[ranks.last()] >= scores[k] {
        assert forall|x: int, y: int| 0 <= x < y < r.len() implies ranks_before(
            #[trigger] r[x],
            #[trigger] r[y],
            scores,
        ) by {
            if y == ranks.len() {
                if x < ranks.len() - 1 {
                    assert(ranks_before(ranks[x], ranks[ranks.len() - 1], scores));
                }
            } else {
                assert(ranks_before(ranks[x], ranks[y], scores));
            }
        }
        assert forall|i: int| #[trigger] r.contains(i) <==> ranks.contains(i) || i == k by {
            if ranks.contains(i) {
                let x = ranks.index_of(i);
                assert(r[x] == i);
            }
            if r.contains(i) && i != k {
                let x = r.index_of(i);
                assert(ranks[x] == i);
            }
            assert(r[ranks.len() as int] == k);
        }
    } else {
        let front = ranks.drop_last();
        let last = ranks.last();
        assert forall|x: int, y: int| 0 <= x < y < front.len() implies ranks_before(
            #[trigger] front[x],
            #[trigger] front[y],
            scores,
        ) by {
            assert(ranks_before(ranks[x], ranks[y], scores));
        }
        assert forall|x: int| 0 <= x < front.len() implies 0 <= #[trigger] front[x] < k by {
            assert(0 <= ranks[x] < k);
        }
        lemma_ranked_with(front, k, scores);
        let f = ranked_with(front, k, scores);
        assert forall|x: int, y: int| 0 <= x < y < r.len() implies ranks_before(
            #[trigger] r[x],
            #[trigger] r[y],
            scores,
        ) by {
            if y == f.len() {
                assert(f.contains(f[x]));
                if f[x] != k {
                    assert(front.contains(f[x]));
                    let z = front.index_of(f[x]);
                    assert(ranks_before(ranks[z], ranks[ranks.len() - 1], scores));
                }
            } else {
                assert(ranks_before(f[x], f[y], scores));
            }
        }
        assert forall|i: int| #[trigger] r.contains(i) <==> ranks.contains(i) || i == k by {
            if r.contains(i) {
                let x = r.index_of(i);
                if x < f.len() {
                    assert(f[x] == i);
                    assert(f.contains(i));
                    if i != k {
                        assert(front.contains(i));
                        let z = front.index_of(i);
                        assert(ranks[z] == i);
                    }
                } else {
                    assert(ranks[ranks.len() - 1] == i);
                }
            }
            if ranks.contains(i) || i == k {
                if i == k {
                    assert(f.contains(i));
                } else {
                    let z = ranks.index_of(i);
                    if z < front.len() {
                        assert(front[z] == i);
                        assert(front.contains(i));
                        assert(f.contains(i));
                    }
                }
                if f.contains(i) {
                    let x = f.index_of(i);
                    assert(r[x] == i);
                } else {
                    assert(r[f.len() as int] == i);
                }
            }
        }
    }
}

/// The ranking holds each place whose score is high enough, and no other. It
/// goes from the best score down, and keeps the order of places whose scores are
/// equal.
pub proof fn law_ranking(scores: Seq<u64>, cutoff: u64, n: int)
    requires
        0 <= n <= scores.len(),
    ensures
        ({
            let r = ranked(scores, cutoff, n);
            &&& forall|x: int, y: int|
                0 <= x < y < r.len() ==> ranks_before(#[trigger] r[x], #[trigger] r[y], scores)
            &&& forall|i: int| #[trigger] r.contains(i) <==> 0 <= i < n && scores[i] >= cutoff
        }),
    decreases n,
{
    if n > 0 {
        law_ranking(scores, cutoff, n - 1);
        let before = ranked(scores, cutoff, n - 1);
        assert forall|x: int| 0 <= x < before.len() implies 0 <= #[trigger] before[x] < n - 1 by {
            assert(before.contains(before[x]));
        }
        if scores[n - 1] >= cutoff {
            lemma_ranked_with(before, n - 1, scores);
        }
        let r = ranked(scores, cutoff, n);
        assert forall|i: int| #[trigger] r.contains(i) <==> 0 <= i < n && scores[i] >= cutoff by {
            assert(before.contains(i) <==> 0 <= i < n - 1 && scores[i] >= cutoff);
        }
    }
}

/// The three best of the possibilities whose score is at least `cutoff`.
pub open spec fn best_three(
    possibilities: Seq<Seq<char>>,
    scores: Seq<u64>,
    cutoff: u64,
) -> Seq<Seq<char>> {
    let r = ranked(scores, cutoff, scores.len() as int);
    Seq::new(least(r.len(), 3), |k: int| possibilities[r[k]])
}

spec fn as_ints(v: Seq<usize>) -> Seq<int> {
    v.map_values(|k: usize| k as int)
}

fn insert_rank(ranks: &mut Vec<usize>, k: usize, scores: &Vec<u64>)
    requires
        k < scores.len(),
        forall|x: int| 0 <= x < old(ranks).len() ==> (#[trigger] old(ranks)@[x]) < scores.len(),
    ensures
        as_ints(final(ranks)@) == ranked_with(as_ints(old(ranks)@), k as int, scores@),
        forall|x: int| 0 <= x < final(ranks).len() ==> (#[trigger] final(ranks)@[x]) < scores.len(),
{
    let ghost all = as_ints(ranks@);
    let mut i: usize = ranks.len();
    assert(all.take(i as int) =~= all);
    assert(ranked_with(all.take(i as int), k as int, scores@) + all.skip(i as int) =~= ranked_with(
        all,
        k as int,
        scores@,
    ));
    while i > 0 && scores[ranks[i - 1]] < scores[k]
        invariant
            k < scores.len(),
            i <= ranks.len(),
            all == as_ints(ranks@),
            forall|x: int| 0 <= x < ranks.len() ==> (#[trigger] ranks@[x]) < scores.len(),
            ranked_with(all.take(i as int), k as int, scores@) + all.skip(i as int) == ranked_with(
                all,
                k as int,
                scores@,
            ),
        decreases i,
    {
        let ghost here = all.take(i as int);
        assert(here.last() == all[i - 1]);
        assert(here.drop_last() =~= all.take(i - 1));
        assert(seq![all[i - 1]] + all.skip(i as int) =~= all.skip(i - 1));
        assert(ranked_with(all.take(i - 1), k as int, scores@) + all.skip(i - 1) =~= ranked_with(
            here,
            k as int,
            scores@,
        ) + all.skip(i as int));
        i -= 1;
    }
    if i > 0 {
        assert(all.take(i as int).last() == all[i - 1]);
    }
    assert(ranked_with(all.take(i as int), k as int, scores@) == all.take(i as int).push(k as int));
    ranks.insert(i, k);
    assert(as_ints(ranks@) =~= all.take(i as int).push(k as int) + all.skip(i as int));
}

/// The three best of the possibilities, going by their scores: the better a
/// possibility, the higher its score.
pub fn get_close_matches(possibilities: &Vec<String>, scores: &Vec<u64>, cutoff: u64) -> (r: Vec<
    String,
>)
    requires
        scores.len() == possibilities.len(),
    ensures
        text::texts(r@) == best_three(text::texts(possibilities@), scores@, cutoff),
{
    let mut ranks: Vec<usize> = Vec::new();
    let mut i: usize = 0;
    assert(as_ints(ranks@) =~= Seq::empty());
    while i < scores.len()
        invariant
            i <= scores.len(),
            as_ints(ranks@) == ranked(scores@, cutoff, i as int),
            forall|x: int| 0 <= x < ranks.len() ==> (#[trigger] ranks@[x]) < scores.len(),
        decreases scores.len() - i,
    {
        if scores[i] >= cutoff {
            insert_rank(&mut ranks, i, scores);
        }
        i += 1;
    }
    let ghost all = as_ints(ranks@);
    let mut r: Vec<String> = Vec::new();
    let mut k: usize = 0;
    while k < ranks.len() && k < 3
        invariant
            k <= ranks.len(),
            k <= 3,
            r.len() == k,
            scores.len() == possibilities.len(),
            all == as_ints(ranks@),
            forall|x: int| 0 <= x < ranks.len() ==> (#[trigger] ranks@[x]) < scores.len(),
            forall|x: int|
                0 <= x < k ==> (#[trigger] r@[x])@ == text::texts(possibilities@)[all[x]],
        decreases 3 - k,
    {
        assert(ranks@[k as int] < scores.len());
        r.push(possibilities[ranks[k]].clone());
        k += 1;
    }
    assert(text::texts(r@) =~= best_three(text::texts(possibilities@), scores@, cutoff));
    r
}

// ---------------------------------------------------------------------------
// Rules
// ---------------------------------------------------------------------------

/// A command, and what it wrote when it was run again.
pub struct ShitCommand {
    pub script: String,
    pub output: String,
}

/// The text with `to` in place of the first `from` in it.
pub open spec fn with_first(s: Seq<char>, from: Seq<char>, to: Seq<char>) -> Seq<char> {
    match text::found(s, from) {
        Some(k) => s.take(k) + to + s.skip(k + from.len()),
        None => s,
    }
}

fn replace_first(s: &str, from: &str, to: &str) -> (r: String)
    ensures
        r@ == with_first(s@, from@, to@),
{
    match find(s, from) {
        Some(k) => {
            proof {
                text::lemma_found_from(s@, from@, 0);
            }
            let v = to_chars(s);
            let end = k + from.unicode_len();
            let mut r = from_range(&v, 0, k);
            r.append(to);
            r.append(from_range(&v, end, v.len()).as_str());
            assert(r@ =~= with_first(s@, from@, to@));
            r
        },
        None => owned(s),
    }
}

/// The text with a space in place of each space that does not break lines.
pub open spec fn plain_spaces(s: Seq<char>) -> Seq<char> {
    Seq::new(
        s.len(),
        |k: int|
            if s[k] == '\u{a0}' {
                ' '
            } else {
                s[k]
            },
    )
}

/// What is meant where spaces were typed that do not break lines.
pub open spec fn space_fix(script: Seq<char>) -> Option<Seq<char>> {
    if script.contains('\u{a0}') {
        Some(plain_spaces(script))
    } else {
        None
    }
}

pub fn shit_rule_fix_alt_space(cmd: &ShitCommand, _shell: &Shell) -> (r: Option<String>)
    ensures
        shell::opt(r) == space_fix(cmd.script@),
{
    if !contains_char(cmd.script.as_str(), '\u{a0}') {
        return None;
    }
    let v = to_chars(cmd.script.as_str());
    let mut out = String::new();
    let mut i: usize = 0;
    while i < v.len()
        invariant
            i <= v.len(),
            v@ == cmd.script@,
            out@.len() == i,
            forall|k: int|
                0 <= k < i ==> #[trigger] out@[k] == (if v@[k] == '\u{a0}' {
                    ' '
                } else {
                    v@[k]
                }),
        decreases v.len() - i,
    {
        if v[i] == '\u{a0}' {
            out.push(' ');
        } else {
            out.push(v[i]);
        }
        i += 1;
    }
    assert(out@ =~= plain_spaces(cmd.script@));
    Some(out)
}

/// Whether an output in lower case says that the user was not allowed to do
/// something.
pub open spec fn not_allowed(lower: Seq<char>) -> bool {
    ||| text::mentions(lower, "permission denied"@)
    ||| text::mentions(lower, "eacces"@)
    ||| text::mentions(lower, "operation not permitted"@)
    ||| text::mentions(lower, "not super-user"@)
    ||| text::mentions(lower, "must be root"@)
    ||| text::mentions(lower, "must run as root"@)
    ||| text::mentions(lower, "only root can"@)
    ||| text::mentions(lower, "authentication is required"@)
    ||| text::mentions(lower, "not superuser"@)
    ||| text::mentions(lower, "need to be root"@)
    ||| text::mentions(lower, "must be superuser"@)
    ||| text::mentions(lower, "edspermissionerror"@)
    ||| text::mentions(lower, "error: insufficient privileges"@)
}

/// What is meant where the user was not allowed to do something; `lower` is the
/// output in lower case.
pub open spec fn sudo_fix(script: Seq<char>, lower: Seq<char>) -> Option<Seq<char>> {
    if not_allowed(lower) && !text::begins(script, "sudo "@) {
        Some("sudo "@ + script)
    } else {
        None
    }
}

/// Two texts as one.
fn both(a: &str, b: &str) -> (r: String)
    ensures
        r@ == a@ + b@,
{
    let mut s = owned(a);
    s.append(b);
    s
}

/// What is meant where the user was not allowed to do something; `lower` is the
/// output in lower case.
pub fn fix_with_sudo(script: &str, lower: &str) -> (r: Option<String>)
    ensures
        shell::opt(r) == sudo_fix(script@, lower@),
{
    let refused = contains(
        lower,
        "permission denied",
    ) || contains(
        lower,
        "eacces",
    ) || contains(
        lower,
        "operation not permitted",
    ) || contains(
        lower,
        "not super-user",
    ) || contains(
        lower,
        "must be root",
    ) || contains(
        lower,
        "must run as root",
    ) || contains(
        lower,
        "only root can",
    ) || contains(
        lower,
        "authentication is required",
    ) || contains(
        lower,
        "not superuser",
    ) || contains(
        lower,
        "need to be root",
    ) || contains(
        lower,
        "must be superuser",
    ) || contains(
        lower,
        "edspermissionerror",
    ) || contains(
        lower,
        "error: insufficient privileges",
    );
    if refused && !starts_with(script, "sudo ") {
        Some(both("sudo ", script))
    } else {
        None
    }
}

pub fn shit_rule_sudo(cmd: &ShitCommand, _shell: &Shell) -> (r: Option<String>)
    ensures
        shell::opt(r) == sudo_fix(cmd.script@, prompt::lowercase(cmd.output@)),
        shell::opt(r) == sudo_fix(cmd.script@, prompt::lower(cmd.output@)),
{
    let lower = prompt::lowered(cmd.output.as_str());
    fix_with_sudo(cmd.script.as_str(), lower.as_str())
}

/// The directory that could not be changed to because it is not there; `lower`
/// is the output in lower case.
pub open spec fn missing_dir(script: Seq<char>, lower: Seq<char>) -> Option<Seq<char>> {
    if text::begins(script, "cd "@) && (text::mentions(lower, "no such file or directory"@)
        || text::mentions(lower, "can't cd to"@) || text::mentions(lower, "does not exist"@))
        && text::trimmed(script.skip(3)).len() > 0 {
        Some(text::trimmed(script.skip(3)))
    } else {
        None
    }
}

/// What is meant where a directory is not there: to make it first.
pub open spec fn mkdir_fix(script: Seq<char>, lower: Seq<char>) -> Option<Seq<char>> {
    match missing_dir(script, lower) {
        Some(dir) => Some("mkdir -p "@ + dir + " && cd "@ + dir),
        None => None,
    }
}

/// The directory that could not be changed to because it is not there; `lower`
/// is the output in lower case.
pub fn dir_to_make(script: &str, lower: &str) -> (r: Option<String>)
    ensures
        shell::opt(r) == missing_dir(script@, lower@),
{
    if !starts_with(script, "cd ") {
        return None;
    }
    if contains(lower, "no such file or directory") || contains(lower, "can't cd to") || contains(
        lower,
        "does not exist",
    ) {
        proof {
            reveal_strlit("cd ");
        }
        let dir = trim(text::skip(script, 3).as_str());
        if dir.as_str().unicode_len() > 0 {
            return Some(dir);
        }
    }
    None
}

/// What is meant where a directory is not there; `lower` is the output in lower
/// case.
pub fn fix_with_mkdir(script: &str, lower: &str) -> (r: Option<String>)
    ensures
        shell::opt(r) == mkdir_fix(script@, lower@),
{
    match dir_to_make(script, lower) {
        Some(dir) => {
            let mut s = both("mkdir -p ", dir.as_str());
            s.append(" && cd ");
            s.append(dir.as_str());
            Some(s)
        },
        None => None,
    }
}

pub fn shit_rule_cd_mkdir(cmd: &ShitCommand, _shell: &Shell) -> (r: Option<String>)
    ensures
        shell::opt(r) == mkdir_fix(cmd.script@, prompt::lowercase(cmd.output@)),
        shell::opt(r) == mkdir_fix(cmd.script@, prompt::lower(cmd.output@)),
{
    let lower = prompt::lowered(cmd.output.as_str());
    fix_with_mkdir(cmd.script.as_str(), lower.as_str())
}

/// The name of a command that was not found.
pub open spec fn unknown_command(script: Seq<char>, output: Seq<char>) -> Option<Seq<char>> {
    if text::mentions(output, "command not found"@) && text::words_of(script).len() > 0 {
        Some(text::words_of(script)[0])
    } else {
        None
    }
}

/// The name of a command that was not found.
pub fn command_not_found(cmd: &ShitCommand) -> (r: Option<String>)
    ensures
        shell::opt(r) == unknown_command(cmd.script@, cmd.output@),
{
    if !contains(cmd.output.as_str(), "command not found") {
        return None;
    }
    let ws = words(cmd.script.as_str());
    assert(text::texts(ws@).len() == ws.len());
    if ws.len() == 0 {
        None
    } else {
        Some(ws[0].clone())
    }
}

/// What is meant where a command was not found: the command that is most like
/// it, of those in `closest`.
pub open spec fn command_fix(
    script: Seq<char>,
    output: Seq<char>,
    closest: Seq<Seq<char>>,
) -> Option<Seq<char>> {
    match unknown_command(script, output) {
        Some(bad) => if closest.len() > 0 {
            Some(with_first(script, bad, closest[0]))
        } else {
            None
        },
        None => None,
    }
}

/// `closest` are the commands that are most like the one that was not found, if
/// one was (`command_not_found`), the best first.
pub fn shit_rule_command_not_found(cmd: &ShitCommand, _shell: &Shell, closest: &Vec<String>) -> (r:
    Option<String>)
    ensures
        shell::opt(r) == command_fix(cmd.script@, cmd.output@, text::texts(closest@)),
{
    assert(text::texts(closest@).len() == closest.len());
    match command_not_found(cmd) {
        Some(bad) => {
            if closest.len() > 0 {
                Some(replace_first(cmd.script.as_str(), bad.as_str(), closest[0].as_str()))
            } else {
                None
            }
        },
        None => None,
    }
}

/// What is meant where a directory was to be shown as a file.
pub open spec fn cat_fix(script: Seq<char>, lower: Seq<char>) -> Option<Seq<char>> {
    if text::begins(script, "cat "@) && text::mentions(lower, "cat:"@) && text::mentions(
        lower,
        "is a directory"@,
    ) {
        Some(with_first(script, "cat"@, "ls"@))
    } else {
        None
    }
}

pub fn fix_with_ls(script: &str, lower: &str) -> (r: Option<String>)
    ensures
        shell::opt(r) == cat_fix(script@, lower@),
{
    if starts_with(script, "cat ") && contains(lower, "cat:") && contains(lower, "is a directory") {
        Some(replace_first(script, "cat", "ls"))
    } else {
        None
    }
}

pub fn shit_rule_cat_dir(cmd: &ShitCommand, _shell: &Shell) -> (r: Option<String>)
    ensures
        shell::opt(r) == cat_fix(cmd.script@, prompt::lowercase(cmd.output@)),
        shell::opt(r) == cat_fix(cmd.script@, prompt::lower(cmd.output@)),
{
    let lower = prompt::lowered(cmd.output.as_str());
    fix_with_ls(cmd.script.as_str(), lower.as_str())
}

/// What is meant where a directory was to be removed as a file.
pub open spec fn rm_fix(script: Seq<char>, lower: Seq<char>) -> Option<Seq<char>> {
    if text::begins(script, "rm "@) && (text::mentions(lower, "is a directory"@) || text::mentions(
        lower,
        "cannot remove"@,
    )) && !text::mentions(script, " -r"@) {
        Some("rm -rf "@ + script.skip(3))
    } else {
        None
    }
}

pub fn fix_with_rm_tree(script: &str, lower: &str) -> (r: Option<String>)
    ensures
        shell::opt(r) == rm_fix(script@, lower@),
{
    if starts_with(script, "rm ") && (contains(lower, "is a directory") || contains(
        lower,
        "cannot remove",
    )) && !contains(script, " -r") {
        proof {
            reveal_strlit("rm ");
        }
        Some(both("rm -rf ", text::skip(script, 3).as_str()))
    } else {
        None
    }
}

pub fn shit_rule_rm_dir(cmd: &ShitCommand, _shell: &Shell) -> (r: Option<String>)
    ensures
        shell::opt(r) == rm_fix(cmd.script@, prompt::lowercase(cmd.output@)),
        shell::opt(r) == rm_fix(cmd.script@, prompt::lower(cmd.output@)),
{
    let lower = prompt::lowered(cmd.output.as_str());
    fix_with_rm_tree(cmd.script.as_str(), lower.as_str())
}

/// What is meant where a directory was to be copied as a file.
pub open spec fn cp_fix(script: Seq<char>, lower: Seq<char>) -> Option<Seq<char>> {
    if text::begins(script, "cp "@) && (text::mentions(lower, "omitting directory"@)
        || text::mentions(lower, "is a directory"@)) && !text::mentions(script, " -r"@) {
        Some("cp -r "@ + script.skip(3))
    } else {
        None
    }
}

pub fn fix_with_cp_tree(script: &str, lower: &str) -> (r: Option<String>)
    ensures
        shell::opt(r) == cp_fix(script@, lower@),
{
    if starts_with(script, "cp ") && (contains(lower, "omitting directory") || contains(
        lower,
        "is a directory",
    )) && !contains(script, " -r") {
        proof {
            reveal_strlit("cp ");
        }
        Some(both("cp -r ", text::skip(script, 3).as_str()))
    } else {
        None
    }
}

pub fn shit_rule_cp_omitting_directory(cmd: &ShitCommand, _shell: &Shell) -> (r: Option<String>)
    ensures
        shell::opt(r) == cp_fix(cmd.script@, prompt::lowercase(cmd.output@)),
        shell::opt(r) == cp_fix(cmd.script@, prompt::lower(cmd.output@)),
{
    let lower = prompt::lowered(cmd.output.as_str());
    fix_with_cp_tree(cmd.script.as_str(), lower.as_str())
}

/// Whether a line of git announces what could be meant.
pub open spec fn announces(line: Seq<char>) -> bool {
    text::mentions(line, "The most similar command"@) || text::mentions(line, "Did you mean"@)
}

fn does_announce(line: &str) -> (r: bool)
    ensures
        r == announces(line@),
{
    contains(line, "The most similar command") || contains(line, "Did you mean")
}

/// What git names as possible from line `k` on, behind `acc`: the line behind
/// each that announces it. `next` says that the line before did.
pub open spec fn named_by_git(
    ls: Seq<Seq<char>>,
    k: int,
    next: bool,
    acc: Seq<Seq<char>>,
) -> Seq<Seq<char>>
    decreases ls.len() - k,
{
    if k < 0 || k >= ls.len() {
        acc
    } else if announces(ls[k]) {
        named_by_git(ls, k + 1, true, acc)
    } else if next && text::trimmed(ls[k]).len() > 0 {
        named_by_git(ls, k + 1, false, acc.push(text::trimmed(ls[k])))
    } else {
        named_by_git(ls, k + 1, false, acc)
    }
}

/// The git command that git does not know, as its output names it.
pub open spec fn unknown_git(output: Seq<char>) -> Option<Seq<char>> {
    match text::found(output, "git: '"@) {
        Some(k) => {
            let after = output.skip(k + 6);
            if after.contains('\'') {
                Some(after.take(text::until(after, '\'') as int))
            } else {
                None
            }
        },
        None => None,
    }
}

/// The git command that git does not know, and what git names as possible.
pub open spec fn git_mistake_in(output: Seq<char>) -> Option<(Seq<char>, Seq<Seq<char>>)> {
    if text::mentions(output, "is not a git command"@) && announces(output) {
        let named = named_by_git(text::lines_of(output), 0, false, Seq::empty());
        match unknown_git(output) {
            Some(bad) => if named.len() > 0 {
                Some((bad, named))
            } else {
                None
            },
            None => None,
        }
    } else {
        None
    }
}

fn named_lines(output: &str) -> (r: Vec<String>)
    ensures
        text::texts(r@) == named_by_git(text::lines_of(output@), 0, false, Seq::empty()),
{
    let ls = lines(output);
    let ghost all = text::texts(ls@);
    let mut r: Vec<String> = Vec::new();
    let mut next = false;
    let mut k: usize = 0;
    assert(text::texts(r@) =~= Seq::empty());
    while k < ls.len()
        invariant
            k <= ls.len(),
            all == text::texts(ls@),
            named_by_git(all, k as int, next, text::texts(r@)) == named_by_git(
                all,
                0,
                false,
                Seq::empty(),
            ),
        decreases ls.len() - k,
    {
        broadcast use text::texts_push;

        assert(all[k as int] == ls@[k as int]@);
        if does_announce(ls[k].as_str()) {
            next = true;
        } else {
            if next {
                let t = trim(ls[k].as_str());
                if t.as_str().unicode_len() > 0 {
                    r.push(t);
                }
            }
            next = false;
        }
        k += 1;
    }
    r
}

/// The git command that git does not know, and what git names as possible.
pub fn git_mistake(cmd: &ShitCommand) -> (r: Option<(String, Vec<String>)>)
    ensures
        match r {
            Some((bad, named)) => git_mistake_in(cmd.output@) == Some((bad@, text::texts(named@))),
            None => git_mistake_in(cmd.output@) is None,
        },
{
    let output = cmd.output.as_str();
    if !contains(output, "is not a git command") || !does_announce(output) {
        return None;
    }
    let k = match find(output, "git: '") {
        Some(k) => k,
        None => {
            return None;
        },
    };
    proof {
        text::lemma_found_from(output@, "git: '"@, 0);
        reveal_strlit("git: '");
    }
    let v = to_chars(output);
    let after = from_range(&v, k + 6, v.len());
    assert(after@ =~= output@.skip(k + 6));
    let end = match text::index_of(after.as_str(), '\'') {
        Some(e) => e,
        None => {
            return None;
        },
    };
    let bad = text::take(after.as_str(), end);
    let named = named_lines(output);
    assert(text::texts(named@).len() == named.len());
    if named.len() == 0 {
        None
    } else {
        Some((bad, named))
    }
}

/// What is meant where git does not know a command: the one that is most like
/// it, of those in `closest`.
pub open spec fn git_fix(
    script: Seq<char>,
    output: Seq<char>,
    closest: Seq<Seq<char>>,
) -> Option<Seq<char>> {
    match git_mistake_in(output) {
        Some((bad, _)) => if closest.len() > 0 {
            Some(with_first(script, bad, text::trimmed(closest[0])))
        } else {
            None
        },
        None => None,
    }
}

/// `closest` are those of the commands that git names as possible
/// (`git_mistake`) that are most like the one it does not know, the best first.
pub fn shit_rule_git_not_command(cmd: &ShitCommand, _shell: &Shell, closest: &Vec<String>) -> (r:
    Option<String>)
    ensures
        shell::opt(r) == git_fix(cmd.script@, cmd.output@, text::texts(closest@)),
{
    assert(text::texts(closest@).len() == closest.len());
    match git_mistake(cmd) {
        Some((bad, _)) => {
            if closest.len() > 0 {
                let good = trim(closest[0].as_str());
                Some(replace_first(cmd.script.as_str(), bad.as_str(), good.as_str()))
            } else {
                None
            }
        },
        None => None,
    }
}

/// What a word that is often mistyped is meant to be.
pub open spec fn meant_by(word: Seq<char>) -> Option<Seq<char>> {
    if word == "sl"@ {
        Some("ls"@)
    } else if word == "dc"@ {
        Some("cd"@)
    } else if word == "pyhton"@ || word == "pythno"@ || word == "pythn"@ || word == "pytohn"@ {
        Some("python"@)
    } else if word == "pythno3"@ || word == "pyhton3"@ {
        Some("python3"@)
    } else if word == "gip"@ || word == "igt"@ || word == "gi"@ {
        Some("git"@)
    } else if word == "k8s"@ {
        Some("kubectl"@)
    } else if word == "dockr"@ || word == "dokcer"@ {
        Some("docker"@)
    } else if word == "dockr-compose"@ || word == "dokcer-compose"@ {
        Some("docker-compose"@)
    } else {
        None
    }
}

fn meaning_of(word: &str) -> (r: Option<&'static str>)
    ensures
        match r {
            Some(m) => meant_by(word@) == Some(m@),
            None => meant_by(word@) is None,
        },
{
    if same(word, "sl") {
        Some("ls")
    } else if same(word, "dc") {
        Some("cd")
    } else if same(word, "pyhton") || same(word, "pythno") || same(word, "pythn") || same(word, "pytohn") {
        Some("python")
    } else if same(word, "pythno3") || same(word, "pyhton3") {
        Some("python3")
    } else if same(word, "gip") || same(word, "igt") || same(word, "gi") {
        Some("git")
    } else if same(word, "k8s") {
        Some("kubectl")
    } else if same(word, "dockr") || same(word, "dokcer") {
        Some("docker")
    } else if same(word, "dockr-compose") || same(word, "dokcer-compose") {
        Some("docker-compose")
    } else {
        None
    }
}

/// What is meant where the name of a command was mistyped in a common way.
pub open spec fn typo_fix(script: Seq<char>) -> Option<Seq<char>> {
    let ws = text::words_of(script);
    if ws.len() == 0 {
        None
    } else {
        match meant_by(ws[0]) {
            Some(m) => Some(with_first(script, ws[0], m)),
            None => None,
        }
    }
}

pub fn shit_rule_common_typos(cmd: &ShitCommand, _shell: &Shell) -> (r: Option<String>)
    ensures
        shell::opt(r) == typo_fix(cmd.script@),
{
    let ws = words(cmd.script.as_str());
    assert(text::texts(ws@).len() == ws.len());
    if ws.len() == 0 {
        return None;
    }
    match meaning_of(ws[0].as_str()) {
        Some(m) => Some(replace_first(cmd.script.as_str(), ws[0].as_str(), m)),
        None => None,
    }
}

// ---------------------------------------------------------------------------
// Correction
// ---------------------------------------------------------------------------

/// A fix that differs from what was typed.
pub open spec fn useful(fix: Option<Seq<char>>, script: Seq<char>) -> Option<Seq<char>> {
    match fix {
        Some(f) => if f != script {
            Some(f)
        } else {
            None
        },
        None => None,
    }
}

/// The first of two that is there.
pub open spec fn either(a: Option<Seq<char>>, b: Option<Seq<char>>) -> Option<Seq<char>> {
    match a {
        Some(x) => Some(x),
        None => b,
    }
}

/// What is meant: the first fix of the rules, in order, that differs from what
/// was typed. `lower` is the output in lower case.
pub open spec fn corrected(
    script: Seq<char>,
    output: Seq<char>,
    lower: Seq<char>,
    commands: Seq<Seq<char>>,
    named: Seq<Seq<char>>,
) -> Option<Seq<char>> {
    either(
        useful(space_fix(script), script),
        either(
            useful(typo_fix(script), script),
            either(
                useful(sudo_fix(script, lower), script),
                either(
                    useful(mkdir_fix(script, lower), script),
                    either(
                        useful(command_fix(script, output, commands), script),
                        either(
                            useful(cat_fix(script, lower), script),
                            either(
                                useful(rm_fix(script, lower), script),
                                either(
                                    useful(cp_fix(script, lower), script),
                                    useful(git_fix(script, output, named), script),
                                ),
                            ),
                        ),
                    ),
                ),
            ),
        ),
    )
}

fn if_useful(fix: Option<String>, script: &str) -> (r: Option<String>)
    ensures
        shell::opt(r) == useful(shell::opt(fix), script@),
{
    match fix {
        Some(f) => {
            if same(f.as_str(), script) {
                None
            } else {
                Some(f)
            }
        },
        None => None,
    }
}

/// What is meant by a command with this output.
pub open spec fn correction_for(
    script: Seq<char>,
    output: Seq<char>,
    commands: Seq<Seq<char>>,
    named: Seq<Seq<char>>,
) -> Option<Seq<char>> {
    corrected(script, output, prompt::lower(output), commands, named)
}

/// What is meant, if a rule finds it. `commands` are the commands most like the
/// one that was not found, and `named` the most alike of those that git names.
pub fn correction(cmd: &ShitCommand, shell: &Shell, commands: &Vec<String>, named: &Vec<String>) -> (r:
    Option<String>)
    ensures
        shell::opt(r) == corrected(
            cmd.script@,
            cmd.output@,
            prompt::lowercase(cmd.output@),
            text::texts(commands@),
            text::texts(named@),
        ),
        shell::opt(r) == correction_for(
            cmd.script@,
            cmd.output@,
            text::texts(commands@),
            text::texts(named@),
        ),
{
    let script = cmd.script.as_str();
    if let Some(f) = if_useful(shit_rule_fix_alt_space(cmd, shell), script) {
        return Some(f);
    }
    if let Some(f) = if_useful(shit_rule_common_typos(cmd, shell), script) {
        return Some(f);
    }
    if let Some(f) = if_useful(shit_rule_sudo(cmd, shell), script) {
        return Some(f);
    }
    if let Some(f) = if_useful(shit_rule_cd_mkdir(cmd, shell), script) {
        return Some(f);
    }
    if let Some(f) = if_useful(shit_rule_command_not_found(cmd, shell, commands), script) {
        return Some(f);
    }
    if let Some(f) = if_useful(shit_rule_cat_dir(cmd, shell), script) {
        return Some(f);
    }
    if let Some(f) = if_useful(shit_rule_rm_dir(cmd, shell), script) {
        return Some(f);
    }
    if let Some(f) = if_useful(shit_rule_cp_omitting_directory(cmd, shell), script) {
        return Some(f);
    }
    if_useful(shit_rule_git_not_command(cmd, shell, named), script)
}

/// A correction is never the command that was typed.
pub proof fn law_correction_differs(
    script: Seq<char>,
    output: Seq<char>,
    lower: Seq<char>,
    commands: Seq<Seq<char>>,
    named: Seq<Seq<char>>,
)
    ensures
        corrected(script, output, lower, commands, named) != Some(script),
{
}

/// Whether to carry a correction out.
#[derive(Debug, PartialEq, Eq, Structural, Clone, Copy)]
pub enum Answer {
    Yes,
    No,
    /// It is to be asked again.
    Unclear,
}

/// What a key, by its byte, answers to a question.
pub open spec fn answer_of(byte: u8) -> Answer {
    if byte == 0x79 || byte == 0x59 || byte == 0x0d || byte == 0x0a {
        Answer::Yes
    } else if byte == 0x6e || byte == 0x4e {
        Answer::No
    } else {
        Answer::Unclear
    }
}

pub fn read_answer(byte: u8) -> (r: Answer)
    ensures
        r == answer_of(byte),
{
    if byte == 0x79 || byte == 0x59 || byte == 0x0d || byte == 0x0a {
        Answer::Yes
    } else if byte == 0x6e || byte == 0x4e {
        Answer::No
    } else {
        Answer::Unclear
    }
}

/// What is asked before a correction is carried out. Where a directory is made
/// first, that alone is shown.
pub open spec fn question(script: Seq<char>, lower: Seq<char>, fix: Seq<char>) -> Seq<char> {
    "btsh: shit: "@ + script + " -> "@ + (match missing_dir(script, lower) {
        Some(dir) => if mkdir_fix(script, lower) == Some(fix) {
            "mkdir -p "@ + dir
        } else {
            fix
        },
        None => fix,
    }) + " ? [y/n] "@
}

/// What is asked before a correction is carried out; `lower` is the output in
/// lower case.
pub fn ask_with(script: &str, lower: &str, fix: &str) -> (r: String)
    ensures
        r@ == question(script@, lower@, fix@),
{
    let mut q = both("btsh: shit: ", script);
    q.append(" -> ");
    let shown = match (dir_to_make(script, lower), fix_with_mkdir(script, lower)) {
        (Some(dir), Some(f)) => {
            if same(f.as_str(), fix) {
                both("mkdir -p ", dir.as_str())
            } else {
                owned(fix)
            }
        },
        _ => owned(fix),
    };
    q.append(shown.as_str());
    q.append(" ? [y/n] ");
    q
}

/// What is asked before the correction `fix` is carried out.
pub fn correction_question(cmd: &ShitCommand, fix: &str) -> (r: String)
    ensures
        r@ == question(cmd.script@, prompt::lowercase(cmd.output@), fix@),
        r@ == question(cmd.script@, prompt::lower(cmd.output@), fix@),
{
    let lower = prompt::lowered(cmd.output.as_str());
    ask_with(cmd.script.as_str(), lower.as_str(), fix)
}

/// What starting a correction depends on.
pub enum ShitPlan {
    /// There is nothing to correct; the exit code, and what is said.
    Nothing(i32, String),
    /// This command is to be run again, for its output.
    Rerun(String),
}

/// How many seconds the output of the command before this one is waited for.
pub const OUTPUT_WAIT: u64 = 5;

/// What is to be done to correct the command before this one.
pub fn exec_builtin_shit(shell: &Shell) -> (r: ShitPlan)
    ensures
        match r {
            ShitPlan::Nothing(code, m) => shell@.prev_cmd.len() == 0 && code == 1 && m@
                == "btsh: shit: no previous command"@,
            ShitPlan::Rerun(s) => shell@.prev_cmd.len() > 0 && s@ == shell@.prev_cmd,
        },
{
    if shell.prev_cmd.as_str().unicode_len() == 0 {
        ShitPlan::Nothing(1, owned("btsh: shit: no previous command"))
    } else {
        ShitPlan::Rerun(shell.prev_cmd.clone())
    }
}

/// The exit code where no rule finds what is meant, and what is said.
pub fn no_correction(script: &str) -> (r: (i32, String))
    ensures
        r.0 == 1,
        r.1@ == "btsh: shit: no correction found for: "@ + script@,
{
    (1, both("btsh: shit: no correction found for: ", script))
}

/// What a key, by its byte, answers to the question whether to carry a
/// correction out. The end of the input means yes.
pub open spec fn wish_of(byte: Option<u8>) -> Answer {
    match byte {
        Some(b) => answer_of(b),
        None => Answer::Yes,
    }
}

pub fn read_wish(byte: Option<u8>) -> (r: Answer)
    ensures
        r == wish_of(byte),
{
    match byte {
        Some(b) => read_answer(b),
        None => Answer::Yes,
    }
}

/// The exit code once it is clear whether to carry a correction out: that of the
/// correction where it was run, and zero where it was not wanted.
pub fn correction_code(ran: Option<i32>) -> (r: i32)
    ensures
        r == (match ran {
            Some(code) => code,
            None => 0,
        }),
{
    match ran {
        Some(code) => code,
        None => 0,
    }
}

/// What a correction that was run adds to the history file, if anything: history
/// has to be on, and a fresh shell keeps none.
pub fn kept_correction(fix: &str, shell: &Shell) -> (r: Option<String>)
    ensures
        shell::opt(r) == (if shell@.history && !shell@.fresh {
            Some(fix@ + "\n"@)
        } else {
            None
        }),
{
    if shell.history && !shell.fresh {
        Some(both(fix, "\n"))
    } else {
        None
    }
}

} // verus!
