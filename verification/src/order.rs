//! The order of texts, character by character, and sorting by it.

use vstd::prelude::*;

use crate::text;
use crate::text::{same, to_chars};

verus! {

/// Whether `a` is `b` or comes before it. The first place where the two differ
/// decides, and a text comes before those that it begins.
pub open spec fn at_most(a: Seq<char>, b: Seq<char>) -> bool
    decreases a.len(),
{
    if a.len() == 0 {
        true
    } else if b.len() == 0 {
        false
    } else if a[0] != b[0] {
        (a[0] as int) < b[0] as int
    } else {
        at_most(a.drop_first(), b.drop_first())
    }
}

/// Two texts can always be compared.
pub proof fn law_order_is_total(a: Seq<char>, b: Seq<char>)
    ensures
        at_most(a, b) || at_most(b, a),
    decreases a.len(),
{
    if a.len() > 0 && b.len() > 0 && a[0] == b[0] {
        law_order_is_total(a.drop_first(), b.drop_first());
    } else if a.len() > 0 && b.len() > 0 {
        lemma_distinct(a[0], b[0]);
    }
}

proof fn lemma_distinct(a: char, b: char)
    requires
        a != b,
    ensures
        a as int != b as int,
{
}

/// Of two texts the one whose first different character is smaller comes first,
/// and a text comes before those that go on from it.
pub proof fn law_first_difference_decides(
    p: Seq<char>,
    x: char,
    a: Seq<char>,
    y: char,
    b: Seq<char>,
)
    requires
        (x as int) < y as int,
    ensures
        at_most(p + seq![x] + a, p + seq![y] + b),
        !at_most(p + seq![y] + b, p + seq![x] + a),
        at_most(p, p + a),
        a.len() > 0 ==> !at_most(p + a, p),
    decreases p.len(),
{
    let s = p + seq![x] + a;
    let t = p + seq![y] + b;
    if p.len() > 0 {
        let q = p.drop_first();
        law_first_difference_decides(q, x, a, y, b);
        assert(s[0] == p[0] && t[0] == p[0]);
        assert(s.drop_first() =~= q + seq![x] + a);
        assert(t.drop_first() =~= q + seq![y] + b);
        assert((p + a)[0] == p[0]);
        assert((p + a).drop_first() =~= q + a);
    } else {
        assert(s[0] == x && t[0] == y);
    }
}

/// Two texts that each are at most the other are the same text.
pub proof fn law_order_is_antisymmetric(a: Seq<char>, b: Seq<char>)
    requires
        at_most(a, b),
        at_most(b, a),
    ensures
        a == b,
    decreases a.len(),
{
    if a.len() > 0 && b.len() > 0 && a[0] == b[0] {
        law_order_is_antisymmetric(a.drop_first(), b.drop_first());
        assert(a =~= seq![a[0]] + a.drop_first());
        assert(b =~= seq![b[0]] + b.drop_first());
    } else {
        assert(a =~= b);
    }
}

/// What is at most a text is at most everything that the text is at most.
pub proof fn law_order_is_transitive(a: Seq<char>, b: Seq<char>, c: Seq<char>)
    requires
        at_most(a, b),
        at_most(b, c),
    ensures
        at_most(a, c),
    decreases a.len(),
{
    if a.len() > 0 && b.len() > 0 && c.len() > 0 && a[0] == b[0] && b[0] == c[0] {
        law_order_is_transitive(a.drop_first(), b.drop_first(), c.drop_first());
    }
}

/// Whether the texts stand in order.
pub open spec fn sorted(ss: Seq<Seq<char>>) -> bool {
    forall|i: int, j: int| 0 <= i < j < ss.len() ==> at_most(#[trigger] ss[i], #[trigger] ss[j])
}

/// There is one way only to put texts in order.
pub proof fn law_sorting_is_unique(a: Seq<Seq<char>>, b: Seq<Seq<char>>)
    requires
        sorted(a),
        sorted(b),
        a.to_multiset() == b.to_multiset(),
    ensures
        a == b,
    decreases a.len(),
{
    broadcast use vstd::seq_lib::group_to_multiset_ensures;

    assert(a.len() == a.to_multiset().len());
    assert(b.len() == b.to_multiset().len());
    if a.len() > 0 {
        assert(a.to_multiset().count(a[0]) > 0) by {
            assert(a.contains(a[0]));
        }
        assert(b.to_multiset().count(b[0]) > 0) by {
            assert(b.contains(b[0]));
        }
        assert(b.contains(a[0]));
        assert(a.contains(b[0]));
        let i = b.index_of(a[0]);
        let j = a.index_of(b[0]);
        law_order_is_total(a[0], a[0]);
        law_order_is_total(b[0], b[0]);
        assert(at_most(b[0], b[i]));
        assert(at_most(a[0], a[j]));
        law_order_is_antisymmetric(a[0], b[0]);
        assert(a.drop_first() =~= a.remove(0));
        assert(b.drop_first() =~= b.remove(0));
        assert(a.drop_first().to_multiset() =~= b.drop_first().to_multiset());
        assert forall|x: int, y: int| 0 <= x < y < a.drop_first().len() implies at_most(
            #[trigger] a.drop_first()[x],
            #[trigger] a.drop_first()[y],
        ) by {
            assert(at_most(a[x + 1], a[y + 1]));
        }
        assert forall|x: int, y: int| 0 <= x < y < b.drop_first().len() implies at_most(
            #[trigger] b.drop_first()[x],
            #[trigger] b.drop_first()[y],
        ) by {
            assert(at_most(b[x + 1], b[y + 1]));
        }
        law_sorting_is_unique(a.drop_first(), b.drop_first());
        assert(a =~= seq![a[0]] + a.drop_first());
        assert(b =~= seq![b[0]] + b.drop_first());
    } else {
        assert(a =~= b);
    }
}

/// The same texts, in order.
pub open spec fn arranged(ss: Seq<Seq<char>>) -> Seq<Seq<char>> {
    choose|r: Seq<Seq<char>>| #[trigger] sorted(r) && r.to_multiset() == ss.to_multiset()
}

/// Whether `a` is at most `b`.
pub fn is_at_most(a: &str, b: &str) -> (r: bool)
    ensures
        r == at_most(a@, b@),
{
    let x = to_chars(a);
    let y = to_chars(b);
    let mut i: usize = 0;
    assert(x@.skip(0) =~= x@);
    assert(y@.skip(0) =~= y@);
    while i < x.len() && i < y.len()
        invariant
            i <= x.len(),
            i <= y.len(),
            at_most(x@.skip(i as int), y@.skip(i as int)) == at_most(a@, b@),
        decreases x.len() - i,
    {
        if x[i] != y[i] {
            return x[i] < y[i];
        }
        assert(x@.skip(i as int).drop_first() =~= x@.skip(i + 1));
        assert(y@.skip(i as int).drop_first() =~= y@.skip(i + 1));
        i += 1;
    }
    i == x.len()
}

/// Where `s` belongs in texts that stand in order: behind those that are at
/// most `s`.
fn place(v: &Vec<String>, s: &str) -> (k: usize)
    requires
        sorted(text::texts(v@)),
    ensures
        k <= v.len(),
        forall|i: int| 0 <= i < k ==> at_most((#[trigger] v@[i])@, s@),
        forall|i: int| k <= i < v.len() ==> at_most(s@, (#[trigger] v@[i])@),
{
    let mut low: usize = 0;
    let mut high: usize = v.len();
    while low < high
        invariant
            low <= high <= v.len(),
            sorted(text::texts(v@)),
            forall|i: int| 0 <= i < low ==> at_most((#[trigger] v@[i])@, s@),
            forall|i: int| high <= i < v.len() ==> at_most(s@, (#[trigger] v@[i])@),
        decreases high - low,
    {
        let mid = low + (high - low) / 2;
        let ghost all = text::texts(v@);
        assert(all[mid as int] == v@[mid as int]@);
        if is_at_most(v[mid].as_str(), s) {
            assert forall|i: int| 0 <= i < mid + 1 implies at_most((#[trigger] v@[i])@, s@) by {
                if low <= i < mid {
                    assert(at_most(all[i], all[mid as int]));
                    law_order_is_transitive(v@[i]@, v@[mid as int]@, s@);
                }
            }
            low = mid + 1;
        } else {
            proof {
                law_order_is_total(v@[mid as int]@, s@);
            }
            assert forall|i: int| mid <= i < v.len() implies at_most(s@, (#[trigger] v@[i])@) by {
                if mid < i < high {
                    assert(at_most(all[mid as int], all[i]));
                    law_order_is_transitive(s@, v@[mid as int]@, v@[i]@);
                }
            }
            high = mid;
        }
    }
    low
}

/// The texts in order.
pub fn sort(v: Vec<String>) -> (r: Vec<String>)
    ensures
        sorted(text::texts(r@)),
        text::texts(r@).to_multiset() == text::texts(v@).to_multiset(),
        text::texts(r@) == arranged(text::texts(v@)),
{
    let mut r: Vec<String> = Vec::new();
    let mut i: usize = 0;
    let ghost all = text::texts(v@);
    assert(all.take(0) =~= text::texts(r@));
    while i < v.len()
        invariant
            i <= v.len(),
            all == text::texts(v@),
            sorted(text::texts(r@)),
            text::texts(r@).to_multiset() == all.take(i as int).to_multiset(),
        decreases v.len() - i,
    {
        broadcast use vstd::seq_lib::group_to_multiset_ensures;

        let s = v[i].clone();
        let k = place(&r, s.as_str());
        let ghost before = text::texts(r@);
        let ghost old_r = r@;
        let ghost w = s@;
        r.insert(k, s);
        let ghost now = text::texts(r@);
        assert(now =~= before.insert(k as int, w));
        assert(all.take(i + 1) =~= all.take(i as int).push(w));
        assert(now.to_multiset() =~= before.to_multiset().insert(w));
        assert forall|x: int, y: int| 0 <= x < y < now.len() implies at_most(
            #[trigger] now[x],
            #[trigger] now[y],
        ) by {
            if x < k && y < k {
                assert(at_most(before[x], before[y]));
            } else if x < k && y == k {
                assert(at_most(old_r[x]@, w));
            } else if x < k {
                assert(at_most(before[x], before[y - 1]));
            } else if x == k {
                assert(at_most(w, old_r[y - 1]@));
            } else {
                assert(at_most(before[x - 1], before[y - 1]));
            }
        }
        i += 1;
    }
    assert(all.take(all.len() as int) =~= all);
    proof {
        law_sorting_is_unique(text::texts(r@), arranged(all));
    }
    r
}

/// The texts without those that equal the one before them.
pub open spec fn deduped(ss: Seq<Seq<char>>) -> Seq<Seq<char>>
    decreases ss.len(),
{
    if ss.len() <= 1 {
        ss
    } else if ss.last() == ss[ss.len() - 2] {
        deduped(ss.drop_last())
    } else {
        deduped(ss.drop_last()).push(ss.last())
    }
}

/// The texts without those that equal the one before them.
pub fn dedup(v: Vec<String>) -> (r: Vec<String>)
    ensures
        text::texts(r@) == deduped(text::texts(v@)),
{
    let mut r: Vec<String> = Vec::new();
    let mut i: usize = 0;
    let ghost all = text::texts(v@);
    assert(text::texts(r@) =~= deduped(all.take(0)));
    while i < v.len()
        invariant
            i <= v.len(),
            all == text::texts(v@),
            text::texts(r@) == deduped(all.take(i as int)),
        decreases v.len() - i,
    {
        broadcast use text::texts_push;

        assert(all.take(i + 1).drop_last() =~= all.take(i as int));
        assert(all.take(i + 1).last() == v@[i as int]@);
        if i == 0 || !same(v[i].as_str(), v[i - 1].as_str()) {
            r.push(v[i].clone());
            assert(text::texts(r@) =~= deduped(all.take(i + 1)));
        }
        i += 1;
    }
    assert(all.take(all.len() as int) =~= all);
    r
}

/// Texts in order have each of their texts once after `dedup`, still in order.
pub proof fn law_sorted_texts_dedup(ss: Seq<Seq<char>>)
    requires
        sorted(ss),
    ensures
        sorted(deduped(ss)),
        deduped(ss).no_duplicates(),
        deduped(ss).to_set() == ss.to_set(),
    decreases ss.len(),
{
    let d = deduped(ss);
    if ss.len() > 1 {
        let front = ss.drop_last();
        assert forall|x: int, y: int| 0 <= x < y < front.len() implies at_most(
            #[trigger] front[x],
            #[trigger] front[y],
        ) by {
            assert(at_most(ss[x], ss[y]));
        }
        law_sorted_texts_dedup(front);
        let df = deduped(front);
        let w = ss.last();
        assert(front.last() == ss[ss.len() - 2]);
        assert forall|x: Seq<char>| ss.to_set().contains(x) == (front.to_set().contains(x) || x
            == w) by {
            if ss.contains(x) {
                let i = ss.index_of(x);
                if i < front.len() {
                    assert(front[i] == x);
                }
            }
            if front.contains(x) {
                let i = front.index_of(x);
                assert(ss[i] == x);
            }
            assert(ss[ss.len() - 1] == w);
        }
        if w == front.last() {
            assert(front.contains(front.last()));
            assert(d.to_set() =~= ss.to_set());
        } else {
            assert forall|x: int| 0 <= x < df.len() implies at_most(#[trigger] df[x], w) && df[x]
                != w by {
                assert(df.to_set().contains(df[x]));
                assert(front.contains(df[x]));
                let i = front.index_of(df[x]);
                assert(at_most(ss[i], ss[ss.len() - 1]));
                if df[x] == w {
                    if i < front.len() - 1 {
                        assert(at_most(ss[i], ss[ss.len() - 2]));
                    }
                    assert(at_most(ss[ss.len() - 2], ss[ss.len() - 1]));
                    law_order_is_total(w, w);
                    law_order_is_antisymmetric(w, front.last());
                }
            }
            assert(d == df.push(w));
            assert forall|x: Seq<char>| d.to_set().contains(x) == (df.to_set().contains(x) || x
                == w) by {
                if d.contains(x) {
                    let i = d.index_of(x);
                    if i < df.len() {
                        assert(df[i] == x);
                    }
                }
                if df.contains(x) {
                    let i = df.index_of(x);
                    assert(d[i] == x);
                }
                assert(d[df.len() as int] == w);
            }
            assert(d.to_set() =~= ss.to_set());
        }
    }
}

/// Texts can always be put in order.
pub proof fn law_arranging_is_possible(ss: Seq<Seq<char>>)
    ensures
        sorted(arranged(ss)),
        arranged(ss).to_multiset() == ss.to_multiset(),
    decreases ss.len(),
{
    broadcast use vstd::seq_lib::group_to_multiset_ensures;

    if ss.len() == 0 {
        assert(sorted(ss));
    } else {
        let front = ss.drop_last();
        let w = ss.last();
        law_arranging_is_possible(front);
        let a = arranged(front);
        let k = lemma_place(a, w, a.len() as int);
        let r = a.insert(k, w);
        assert forall|x: int, y: int| 0 <= x < y < r.len() implies at_most(
            #[trigger] r[x],
            #[trigger] r[y],
        ) by {
            if x < k && y < k {
                assert(at_most(a[x], a[y]));
            } else if x < k && y > k {
                assert(at_most(a[x], a[y - 1]));
            } else if x > k {
                assert(at_most(a[x - 1], a[y - 1]));
            }
        }
        assert(sorted(r));
        assert(ss =~= front.push(w));
        assert(r.to_multiset() =~= ss.to_multiset());
    }
}

/// Where a text belongs among the first `n` of texts in order, if it belongs
/// before those behind them.
proof fn lemma_place(a: Seq<Seq<char>>, w: Seq<char>, n: int) -> (k: int)
    requires
        sorted(a),
        0 <= n <= a.len(),
        forall|i: int| n <= i < a.len() ==> at_most(w, #[trigger] a[i]),
    ensures
        0 <= k <= a.len(),
        forall|i: int| 0 <= i < k ==> at_most(#[trigger] a[i], w),
        forall|i: int| k <= i < a.len() ==> at_most(w, #[trigger] a[i]),
    decreases n,
{
    if n == 0 {
        0
    } else if at_most(a[n - 1], w) {
        assert forall|i: int| 0 <= i < n implies at_most(#[trigger] a[i], w) by {
            if i < n - 1 {
                assert(at_most(a[i], a[n - 1]));
                law_order_is_transitive(a[i], a[n - 1], w);
            }
        }
        n
    } else {
        law_order_is_total(a[n - 1], w);
        lemma_place(a, w, n - 1)
    }
}

} // verus!
