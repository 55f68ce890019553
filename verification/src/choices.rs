//! What holds of words with braces: each text between the braces gives a word of
//! its own, and a range gives one for each of its members.

use vstd::prelude::*;
use vstd::string::*;

use crate::brace;
use crate::brace::Scan;
use crate::numbers;
use crate::text;

verus! {

// ---------------------------------------------------------------------------
// Texts without a meaning of their own
// ---------------------------------------------------------------------------

/// Whether a text holds no braces, quotes or backslashes.
pub open spec fn plain(t: Seq<char>) -> bool {
    forall|k: int|
        0 <= k < t.len() ==> #[trigger] t[k] != '{' && t[k] != '}' && t[k] != '\\' && t[k] != '\''
            && t[k] != '"'
}

proof fn lemma_plain_add(a: Seq<char>, b: Seq<char>)
    requires
        plain(a),
        plain(b),
    ensures
        plain(a + b),
{
    assert forall|k: int| 0 <= k < (a + b).len() implies #[trigger] (a + b)[k] != '{' && (a + b)[k]
        != '}' && (a + b)[k] != '\\' && (a + b)[k] != '\'' && (a + b)[k] != '"' by {
        if k < a.len() {
            assert((a + b)[k] == a[k]);
        } else {
            assert((a + b)[k] == b[k - a.len()]);
        }
    }
}

proof fn lemma_open(s: Seq<char>, i: int, n: int)
    requires
        0 <= i <= n <= s.len(),
        forall|k: int|
            i <= k < n ==> #[trigger] s[k] != '{' && s[k] != '}' && s[k] != '\\' && s[k] != '\''
                && s[k] != '"',
        n < s.len() ==> s[n] == '{',
    ensures
        brace::open_from(s, i, brace::unquoted()) == (if n < s.len() {
            Some(n)
        } else {
            None
        }),
    decreases n - i,
{
    if i < n {
        assert(s[i] != '{');
        lemma_open(s, i + 1, n);
    }
}

proof fn lemma_close(s: Seq<char>, i: int, n: int)
    requires
        0 <= i <= n < s.len(),
        forall|k: int|
            i <= k < n ==> #[trigger] s[k] != '{' && s[k] != '}' && s[k] != '\\' && s[k] != '\''
                && s[k] != '"',
        s[n] == '}',
    ensures
        brace::close_from(s, i, 1, brace::unquoted()) == Some(n),
    decreases n - i,
{
    if i < n {
        assert(s[i] != '{');
        lemma_close(s, i + 1, n);
    }
}

proof fn lemma_no_braces(s: Seq<char>)
    requires
        plain(s),
    ensures
        brace::expansions(s) == seq![s],
{
    lemma_open(s, 0, s.len() as int);
}

/// Each of the items between two texts.
pub open spec fn around(pre: Seq<char>, items: Seq<Seq<char>>, suf: Seq<char>) -> Seq<Seq<char>> {
    Seq::new(items.len(), |k: int| pre + items[k] + suf)
}

proof fn lemma_parts(pre: Seq<char>, items: Seq<Seq<char>>, suf: Seq<char>, bound: nat)
    requires
        plain(pre),
        plain(suf),
        forall|k: int| 0 <= k < items.len() ==> plain(#[trigger] items[k]),
    ensures
        brace::expanded_parts(pre, items, suf, bound) == around(pre, items, suf),
    decreases items.len(),
{
    if items.len() > 0 {
        let rest = items.drop_first();
        let word = pre + items[0] + suf;
        assert(plain(items[0]));
        lemma_plain_add(pre, items[0]);
        lemma_plain_add(pre + items[0], suf);
        lemma_no_braces(word);
        assert forall|k: int| 0 <= k < rest.len() implies plain(#[trigger] rest[k]) by {
            assert(rest[k] == items[k + 1]);
        }
        lemma_parts(pre, rest, suf, bound);
        assert(seq![word] + around(pre, rest, suf) =~= around(pre, items, suf));
    } else {
        assert(brace::expanded_parts(pre, items, suf, bound) =~= around(pre, items, suf));
    }
}

/// A word whose first group has known alternatives.
proof fn lemma_first_group(
    pre: Seq<char>,
    content: Seq<char>,
    suf: Seq<char>,
    items: Seq<Seq<char>>,
)
    requires
        plain(pre),
        plain(content),
        brace::alternatives(content) == Some(items),
    ensures
        ({
            let s = pre + seq!['{'] + content + seq!['}'] + suf;
            brace::expansions(s) == brace::expanded_parts(pre, items, suf, (s.len() - 1) as nat)
        }),
{
    let s = pre + seq!['{'] + content + seq!['}'] + suf;
    let open = pre.len() as int;
    let close = open + 1 + content.len();
    assert forall|k: int| 0 <= k < open implies #[trigger] s[k] != '{' && s[k] != '}' && s[k]
        != '\\' && s[k] != '\'' && s[k] != '"' by {
        assert(s[k] == pre[k]);
    }
    lemma_open(s, 0, open);
    assert forall|k: int| open + 1 <= k < close implies #[trigger] s[k] != '{' && s[k] != '}'
        && s[k] != '\\' && s[k] != '\'' && s[k] != '"' by {
        assert(s[k] == content[k - open - 1]);
    }
    lemma_close(s, open + 1, close);
    assert(s.take(open) =~= pre);
    assert(s.subrange(open + 1, close) =~= content);
    assert(s.skip(close + 1) =~= suf);
}

/// A word with one group whose alternatives are known.
proof fn lemma_group(pre: Seq<char>, content: Seq<char>, suf: Seq<char>, items: Seq<Seq<char>>)
    requires
        plain(pre),
        plain(content),
        plain(suf),
        brace::alternatives(content) == Some(items),
        forall|k: int| 0 <= k < items.len() ==> plain(#[trigger] items[k]),
    ensures
        brace::expansions(pre + seq!['{'] + content + seq!['}'] + suf) == around(pre, items, suf),
{
    let s = pre + seq!['{'] + content + seq!['}'] + suf;
    lemma_first_group(pre, content, suf, items);
    lemma_parts(pre, items, suf, (s.len() - 1) as nat);
}

// ---------------------------------------------------------------------------
// Lists
// ---------------------------------------------------------------------------

/// Items with a comma between each two.
pub open spec fn listed(items: Seq<Seq<char>>) -> Seq<char>
    decreases items.len(),
{
    if items.len() == 0 {
        Seq::empty()
    } else if items.len() == 1 {
        items[0]
    } else {
        items[0] + seq![','] + listed(items.drop_first())
    }
}

pub open spec fn item_ok(t: Seq<char>) -> bool {
    plain(t) && !t.contains(',') && !t.contains('.')
}

proof fn lemma_split(s: Seq<char>, i: int, items: Seq<Seq<char>>, part: Seq<char>)
    requires
        items.len() > 0,
        forall|k: int| 0 <= k < items.len() ==> item_ok(#[trigger] items[k]),
        0 <= i <= s.len(),
        s.skip(i) == listed(items),
    ensures
        brace::parts_from(s, i, ',', 0, brace::unquoted(), part) == seq![part + items[0]]
            + items.drop_first(),
    decreases s.len() - i,
{
    let rest = items.drop_first();
    assert(item_ok(items[0]));
    let first = items[0];
    if first.len() > 0 {
        let c = first[0];
        assert(first.contains(c));
        assert(listed(items).len() > 0 && listed(items)[0] == c);
        assert(s.skip(i).len() == s.len() - i);
        assert(s.skip(i)[0] == c);
        assert(s[i] == c);
        assert(plain(first));
        let next = seq![first.drop_first()] + rest;
        assert(next.drop_first() =~= rest);
        assert(listed(items).drop_first() =~= listed(next)) by {
            if items.len() > 1 {
                assert(listed(next) == first.drop_first() + seq![','] + listed(rest));
            }
        }
        assert(s.skip(i + 1) =~= s.skip(i).drop_first());
        assert forall|k: int| 0 <= k < next.len() implies item_ok(#[trigger] next[k]) by {
            if k > 0 {
                assert(next[k] == items[k]);
            } else {
                let f = first.drop_first();
                assert forall|j: int| 0 <= j < f.len() implies #[trigger] f[j] != '{' && f[j] != '}'
                    && f[j] != '\\' && f[j] != '\'' && f[j] != '"' by {
                    assert(f[j] == first[j + 1]);
                }
                if f.contains(',') {
                    let j = f.index_of(',');
                    assert(first[j + 1] == ',');
                }
                if f.contains('.') {
                    let j = f.index_of('.');
                    assert(first[j + 1] == '.');
                }
            }
        }
        lemma_split(s, i + 1, next, part.push(c));
        assert(part.push(c) + first.drop_first() =~= part + first);
        assert(brace::parts_from(s, i, ',', 0, brace::unquoted(), part) == brace::parts_from(
            s,
            i + 1,
            ',',
            0,
            brace::unquoted(),
            part.push(c),
        ));
    } else if items.len() > 1 {
        assert(listed(items).len() > 0 && listed(items)[0] == ',');
        assert(s.skip(i).len() == s.len() - i);
        assert(s.skip(i)[0] == ',');
        assert(s[i] == ',');
        assert(s.skip(i + 1) =~= s.skip(i).drop_first());
        assert(s.skip(i).drop_first() =~= listed(rest));
        assert forall|k: int| 0 <= k < rest.len() implies item_ok(#[trigger] rest[k]) by {
            assert(rest[k] == items[k + 1]);
        }
        lemma_split(s, i + 1, rest, Seq::empty());
        assert(Seq::<char>::empty() + rest[0] =~= rest[0]);
        assert(seq![rest[0]] + rest.drop_first() =~= rest);
        assert(part + first =~= part);
    } else {
        assert(s.skip(i).len() == 0);
        assert(part + first =~= part);
        assert(seq![part] + rest =~= seq![part]);
    }
}

proof fn lemma_listed(items: Seq<Seq<char>>)
    requires
        forall|k: int| 0 <= k < items.len() ==> item_ok(#[trigger] items[k]),
    ensures
        plain(listed(items)),
        !listed(items).contains('.'),
    decreases items.len(),
{
    if items.len() == 1 {
        assert(item_ok(items[0]));
    } else if items.len() > 1 {
        let rest = items.drop_first();
        assert(item_ok(items[0]));
        assert forall|k: int| 0 <= k < rest.len() implies item_ok(#[trigger] rest[k]) by {
            assert(rest[k] == items[k + 1]);
        }
        lemma_listed(rest);
        let a = items[0] + seq![','];
        lemma_plain_add(items[0], seq![',']);
        lemma_plain_add(a, listed(rest));
        let s = listed(items);
        if s.contains('.') {
            let k = s.index_of('.');
            if k < items[0].len() {
                assert(items[0][k] == '.');
                assert(items[0].contains('.'));
            } else if k > items[0].len() {
                assert(listed(rest)[k - items[0].len() - 1] == '.');
                assert(listed(rest).contains('.'));
            }
        }
    }
}

proof fn lemma_list(items: Seq<Seq<char>>)
    requires
        items.len() >= 2,
        forall|k: int| 0 <= k < items.len() ==> item_ok(#[trigger] items[k]),
    ensures
        brace::alternatives(listed(items)) == Some(items),
        plain(listed(items)),
{
    let content = listed(items);
    lemma_listed(items);
    assert(content.skip(0) =~= content);
    lemma_split(content, 0, items, Seq::empty());
    assert(Seq::<char>::empty() + items[0] =~= items[0]);
    assert(seq![items[0]] + items.drop_first() =~= items);
    lemma_no_dots(content);
}

/// A word with a list in braces gives one word for each item of the list, in
/// order, with what stands before and behind the braces around it.
pub proof fn law_each_item_gives_a_word(pre: Seq<char>, items: Seq<Seq<char>>, suf: Seq<char>)
    requires
        plain(pre),
        plain(suf),
        items.len() >= 2,
        forall|k: int| 0 <= k < items.len() ==> item_ok(#[trigger] items[k]),
    ensures
        brace::expansions(pre + seq!['{'] + listed(items) + seq!['}'] + suf) == around(
            pre,
            items,
            suf,
        ),
{
    lemma_list(items);
    assert forall|k: int| 0 <= k < items.len() implies plain(#[trigger] items[k]) by {
        assert(item_ok(items[k]));
    }
    lemma_group(pre, listed(items), suf, items);
}

/// What words give, one behind the other.
pub open spec fn all_expansions(words: Seq<Seq<char>>) -> Seq<Seq<char>>
    decreases words.len(),
{
    if words.len() == 0 {
        Seq::empty()
    } else {
        brace::expansions(words[0]) + all_expansions(words.drop_first())
    }
}

proof fn lemma_parts_expand(pre: Seq<char>, items: Seq<Seq<char>>, suf: Seq<char>, bound: nat)
    requires
        forall|k: int|
            0 <= k < items.len() ==> pre.len() + (#[trigger] items[k]).len() + suf.len() <= bound,
    ensures
        brace::expanded_parts(pre, items, suf, bound) == all_expansions(around(pre, items, suf)),
    decreases items.len(),
{
    let words = around(pre, items, suf);
    if items.len() > 0 {
        let rest = items.drop_first();
        assert(pre.len() + items[0].len() + suf.len() <= bound);
        assert forall|k: int| 0 <= k < rest.len() implies pre.len() + (#[trigger] rest[k]).len()
            + suf.len() <= bound by {
            assert(rest[k] == items[k + 1]);
        }
        lemma_parts_expand(pre, rest, suf, bound);
        assert(words.drop_first() =~= around(pre, rest, suf));
        assert(words[0] == pre + items[0] + suf);
    }
}

proof fn lemma_item_len(items: Seq<Seq<char>>, k: int)
    requires
        0 <= k < items.len(),
    ensures
        items[k].len() <= listed(items).len(),
    decreases items.len(),
{
    if items.len() > 1 && k > 0 {
        lemma_item_len(items.drop_first(), k - 1);
    }
}

/// Where more groups follow the first, each of the words that the first gives is
/// expanded in its turn.
pub proof fn law_groups_are_combined(pre: Seq<char>, items: Seq<Seq<char>>, suf: Seq<char>)
    requires
        plain(pre),
        items.len() >= 2,
        forall|k: int| 0 <= k < items.len() ==> item_ok(#[trigger] items[k]),
    ensures
        brace::expansions(pre + seq!['{'] + listed(items) + seq!['}'] + suf) == all_expansions(
            around(pre, items, suf),
        ),
{
    let content = listed(items);
    let s = pre + seq!['{'] + content + seq!['}'] + suf;
    lemma_list(items);
    lemma_first_group(pre, content, suf, items);
    assert forall|k: int| 0 <= k < items.len() implies pre.len() + (#[trigger] items[k]).len()
        + suf.len() <= s.len() - 1 by {
        lemma_item_len(items, k);
    }
    lemma_parts_expand(pre, items, suf, (s.len() - 1) as nat);
}

// ---------------------------------------------------------------------------
// Ranges
// ---------------------------------------------------------------------------

/// Whether a text can be a bound of a range: it is not empty, and has no dots.
pub open spec fn bound_ok(t: Seq<char>) -> bool {
    plain(t) && !t.contains('.')
}

proof fn lemma_dots(a: Seq<char>, b: Seq<char>)
    requires
        !a.contains('.'),
        b.len() > 0 ==> b[0] != '.',
    ensures
        text::found(a + ".."@ + b, ".."@) == Some(a.len() as int),
{
    reveal_strlit("..");
    let dots = ".."@;
    let s = a + dots + b;
    assert(s.subrange(a.len() as int, a.len() as int + 2) =~= dots);
    assert(text::occurs_at(s, dots, a.len() as int));
    text::lemma_found_from(s, dots, 0);
    let k = text::found(s, dots)->0;
    if k < a.len() {
        assert(s.subrange(k, k + 2)[0] == s[k]);
        assert(s[k] == a[k]);
        assert(a.contains('.'));
    }
}

proof fn lemma_two_bounds(a: Seq<char>, b: Seq<char>)
    requires
        bound_ok(a),
        bound_ok(b),
    ensures
        text::pieces(a + ".."@ + b, ".."@) == seq![a, b],
        plain(a + ".."@ + b),
{
    reveal_strlit("..");
    let dots = ".."@;
    let s = a + dots + b;
    if b.len() > 0 {
        assert(b.contains(b[0]));
    }
    lemma_dots(a, b);
    assert(s.take(a.len() as int) =~= a);
    assert(s.skip(a.len() as int + 2) =~= b);
    lemma_no_dots(b);
    assert(seq![a] + seq![b] =~= seq![a, b]);
    lemma_plain_add(a, dots);
    lemma_plain_add(a + dots, b);
}

proof fn lemma_no_dots(b: Seq<char>)
    requires
        !b.contains('.'),
    ensures
        text::pieces(b, ".."@) == seq![b],
{
    reveal_strlit("..");
    if text::mentions(b, ".."@) {
        let i = choose|i: int| text::occurs_at(b, ".."@, i);
        assert(b.subrange(i, i + 2)[0] == b[i]);
        assert(".."@[0] == '.');
        assert(b.contains('.'));
    }
    text::lemma_mentions(b, ".."@);
}

proof fn lemma_decimal_plain(n: int)
    ensures
        bound_ok(numbers::decimal(n)),
        numbers::decimal(n).len() > 0,
{
    let m = if n < 0 {
        (-n) as nat
    } else {
        n as nat
    };
    let d = numbers::digits(m);
    numbers::lemma_digits_read(m);
    assert forall|k: int| 0 <= k < d.len() implies '0' <= #[trigger] d[k] <= '9' by {
        assert(text::ascii_digit(d[k]));
    }
    let t = numbers::decimal(n);
    assert forall|k: int| 0 <= k < t.len() implies #[trigger] t[k] == '-' || '0' <= t[k] <= '9' by {
        if n < 0 {
            if k > 0 {
                assert(t[k] == d[k - 1]);
            }
        } else {
            assert(t[k] == d[k]);
        }
    }
    if t.contains('.') {
        let k = t.index_of('.');
        assert(t[k] == '.');
    }
}

/// A range of integers gives a word for each, from the first to the last, upwards
/// or downwards. Bounds that start with a zero fill all up to their width, so these
/// are left out here.
pub proof fn law_range_gives_each_integer(pre: Seq<char>, a: int, b: int, suf: Seq<char>)
    requires
        plain(pre),
        plain(suf),
        a != 0,
        b != 0,
        -1_000_000_000 < a < 1_000_000_000,
        -1_000_000_000 < b < 1_000_000_000,
        -100_000 < b - a < 100_000,
    ensures
        ({
            let content = numbers::decimal(a) + ".."@ + numbers::decimal(b);
            let members = if a <= b {
                Seq::new((b - a + 1) as nat, |k: int| numbers::decimal(a + k))
            } else {
                Seq::new((a - b + 1) as nat, |k: int| numbers::decimal(a - k))
            };
            brace::expansions(pre + seq!['{'] + content + seq!['}'] + suf) == around(
                pre,
                members,
                suf,
            )
        }),
{
    let x = numbers::decimal(a);
    let y = numbers::decimal(b);
    let content = x + ".."@ + y;
    lemma_decimal_plain(a);
    lemma_decimal_plain(b);
    lemma_two_bounds(x, y);
    numbers::law_decimal_read_back(a);
    numbers::law_decimal_read_back(b);
    lemma_no_leading_zero(a);
    lemma_no_leading_zero(b);
    let members = if a <= b {
        Seq::new((b - a + 1) as nat, |k: int| numbers::decimal(a + k))
    } else {
        Seq::new((a - b + 1) as nat, |k: int| numbers::decimal(a - k))
    };
    let ns = brace::integers(a, b, 1)->0;
    assert(brace::integers(a, b, 1) is Some);
    assert(ns.map_values(|n: int| brace::item(n, x, y)) =~= members);
    assert(brace::sequence(content) == Some(members));
    assert forall|k: int| 0 <= k < members.len() implies plain(#[trigger] members[k]) by {
        if a <= b {
            lemma_decimal_plain(a + k);
        } else {
            lemma_decimal_plain(a - k);
        }
    }
    lemma_group(pre, content, suf, members);
}

proof fn lemma_first_digit(m: nat)
    requires
        m > 0,
    ensures
        numbers::digits(m)[0] != '0',
    decreases m,
{
    if m >= 10 {
        lemma_first_digit(m / 10);
        assert(numbers::digits(m)[0] == numbers::digits(m / 10)[0]);
    }
}

proof fn lemma_no_leading_zero(n: int)
    requires
        n != 0,
    ensures
        numbers::decimal(n).len() > 0,
        numbers::decimal(n)[0] != '0',
{
    lemma_decimal_plain(n);
    if n > 0 {
        lemma_first_digit(n as nat);
    }
}

/// A range with a step gives every member that is a number of steps away from the
/// first and not beyond the last.
pub proof fn law_range_with_a_step(pre: Seq<char>, a: int, count: int, step: int, suf: Seq<char>)
    requires
        plain(pre),
        plain(suf),
        step > 0,
        step < 1_000_000,
        0 <= count < 100_000,
        0 < a < 1_000_000_000,
    ensures
        ({
            let b = a + count * step;
            let content = numbers::decimal(a) + ".."@ + numbers::decimal(b) + ".."@
                + numbers::decimal(step);
            let members = Seq::new((count + 1) as nat, |k: int| numbers::decimal(a + k * step));
            brace::expansions(pre + seq!['{'] + content + seq!['}'] + suf) == around(
                pre,
                members,
                suf,
            )
        }),
{
    let b = a + count * step;
    assert(0 <= count * step <= 100_000 * 1_000_000) by (nonlinear_arith)
        requires
            0 <= count < 100_000,
            0 < step < 1_000_000,
    ;
    let x = numbers::decimal(a);
    let y = numbers::decimal(b);
    let z = numbers::decimal(step);
    let content = x + ".."@ + y + ".."@ + z;
    lemma_decimal_plain(a);
    lemma_decimal_plain(b);
    lemma_decimal_plain(step);
    lemma_two_bounds(y, z);
    let rest = y + ".."@ + z;
    assert(content =~= x + ".."@ + rest);
    assert(rest[0] == y[0]);
    assert(y.contains(y[0]));
    lemma_dots(x, rest);
    reveal_strlit("..");
    assert(content.take(x.len() as int) =~= x);
    assert(content.skip(x.len() as int + 2) =~= rest);
    assert(seq![x] + seq![y, z] =~= seq![x, y, z]);
    lemma_plain_add(x, ".."@);
    lemma_plain_add(x + ".."@, rest);
    numbers::law_decimal_read_back(a);
    numbers::law_decimal_read_back(b);
    numbers::law_decimal_read_back(step);
    lemma_no_leading_zero(a);
    lemma_no_leading_zero(b);
    let members = Seq::new((count + 1) as nat, |k: int| numbers::decimal(a + k * step));
    assert((b - a) / step == count) by {
        vstd::arithmetic::div_mod::lemma_fundamental_div_mod_converse(
            count * step,
            step,
            count,
            0,
        );
    }
    assert((count + 1) * step <= 100_000 * 1_000_000) by (nonlinear_arith)
        requires
            0 <= count < 100_000,
            0 < step < 1_000_000,
    ;
    assert(brace::integers(a, b, step) is Some);
    let ns = brace::integers(a, b, step)->0;
    assert(ns.map_values(|n: int| brace::item(n, x, y)) =~= members);
    assert(brace::sequence(content) == Some(members));
    assert forall|k: int| 0 <= k < members.len() implies plain(#[trigger] members[k]) by {
        lemma_decimal_plain(a + k * step);
    }
    lemma_group(pre, content, suf, members);
}

proof fn lemma_letters(c: int, b: int, up: bool, room: nat)
    requires
        'A' as int <= c <= 'z' as int,
        'A' as int <= b <= 'z' as int,
        up ==> c <= b + 1,
        !up ==> c >= b - 1,
        room >= 200,
    ensures
        up ==> brace::characters(c, b, 1, up, room) == Some(
            Seq::new((b - c + 1) as nat, |k: int| seq![(c + k) as char]),
        ),
        !up ==> brace::characters(c, b, -1, up, room) == Some(
            Seq::new((c - b + 1) as nat, |k: int| seq![(c - k) as char]),
        ),
{
    lemma_letters_within(c, b, up, room, 100);
}

proof fn lemma_letters_within(c: int, b: int, up: bool, room: nat, left: int)
    requires
        0 < c < 200,
        'A' as int <= b <= 'z' as int,
        up ==> c <= b + 1,
        !up ==> c >= b - 1,
        up ==> b - c < left,
        !up ==> c - b < left,
        left <= 100,
        room >= left + 2,
        left >= 0,
    ensures
        up ==> brace::characters(c, b, 1, up, room) == Some(
            Seq::new((b - c + 1) as nat, |k: int| seq![(c + k) as char]),
        ),
        !up ==> brace::characters(c, b, -1, up, room) == Some(
            Seq::new((c - b + 1) as nat, |k: int| seq![(c - k) as char]),
        ),
    decreases left,
{
    if up {
        let all = Seq::new((b - c + 1) as nat, |k: int| seq![(c + k) as char]);
        if c > b {
            assert(all =~= Seq::empty());
        } else {
            assert(brace::stepped(c, 1) == c + 1);
            lemma_letters_within(c + 1, b, up, (room - 1) as nat, left - 1);
            let rest = Seq::new((b - c) as nat, |k: int| seq![(c + 1 + k) as char]);
            assert(Seq::new((b - (c + 1) + 1) as nat, |k: int| seq![(c + 1 + k) as char]) =~= rest);
            assert(seq![seq![c as char]] + rest =~= all);
        }
    } else {
        let all = Seq::new((c - b + 1) as nat, |k: int| seq![(c - k) as char]);
        if c < b {
            assert(all =~= Seq::empty());
        } else {
            assert(brace::stepped(c, -1) == c - 1);
            lemma_letters_within(c - 1, b, up, (room - 1) as nat, left - 1);
            let rest = Seq::new((c - b) as nat, |k: int| seq![(c - 1 - k) as char]);
            assert(Seq::new((c - 1 - b + 1) as nat, |k: int| seq![(c - 1 - k) as char]) =~= rest);
            assert(seq![seq![c as char]] + rest =~= all);
        }
    }
}

/// A range between two letters gives each letter from the first to the last, upwards
/// or downwards.
pub proof fn law_range_gives_each_letter(pre: Seq<char>, x: char, y: char, suf: Seq<char>)
    requires
        plain(pre),
        plain(suf),
        'a' <= x <= 'z' && 'a' <= y <= 'z' || 'A' <= x <= 'Z' && 'A' <= y <= 'Z',
    ensures
        ({
            let content = seq![x] + ".."@ + seq![y];
            let a = x as int;
            let b = y as int;
            let members = if a <= b {
                Seq::new((b - a + 1) as nat, |k: int| seq![(a + k) as char])
            } else {
                Seq::new((a - b + 1) as nat, |k: int| seq![(a - k) as char])
            };
            brace::expansions(pre + seq!['{'] + content + seq!['}'] + suf) == around(
                pre,
                members,
                suf,
            )
        }),
{
    let s = seq![x];
    let t = seq![y];
    let a = x as int;
    let b = y as int;
    let content = s + ".."@ + t;
    lemma_two_bounds(s, t);
    assert(s[0] == x);
    assert(t[0] == y);
    assert(!text::ascii_digit(s[0]));
    assert(!numbers::all_digits(s));
    assert(brace::bound_of(s) is None);
    let up = a <= b;
    lemma_letters(a, b, up, brace::MAX_ITEMS as nat);
    let members = if a <= b {
        Seq::new((b - a + 1) as nat, |k: int| seq![(a + k) as char])
    } else {
        Seq::new((a - b + 1) as nat, |k: int| seq![(a - k) as char])
    };
    assert(brace::sequence(content) == Some(members));
    assert forall|k: int| 0 <= k < members.len() implies plain(#[trigger] members[k]) by {
        let m = members[k];
        let c = if up {
            (a + k) as char
        } else {
            (a - k) as char
        };
        assert(m =~= seq![c]);
        assert('A' as int <= c as int <= 'z' as int);
        assert('a' <= c <= 'z' || 'A' <= c <= 'Z');
    }
    lemma_group(pre, content, suf, members);
}

/// A text with zeros before it, up to a width.
pub open spec fn filled(d: Seq<char>, width: nat) -> Seq<char>
    decreases width,
{
    if d.len() >= width {
        d
    } else {
        seq!['0'] + filled(d, (width - 1) as nat)
    }
}

proof fn lemma_zero_first(d: Seq<char>)
    requires
        numbers::all_digits(d),
    ensures
        numbers::digits_value(seq!['0'] + d) == numbers::digits_value(d),
        numbers::all_digits(seq!['0'] + d),
    decreases d.len(),
{
    let s = seq!['0'] + d;
    assert forall|k: int| 0 <= k < s.len() implies text::ascii_digit(#[trigger] s[k]) by {
        if k > 0 {
            assert(s[k] == d[k - 1]);
        }
    }
    if d.len() == 0 {
        assert(s.drop_last() =~= Seq::empty());
        assert(numbers::digits_value(s.drop_last()) == 0);
    } else {
        assert(s.drop_last() =~= seq!['0'] + d.drop_last());
        assert(s.last() == d.last());
        assert(numbers::all_digits(d.drop_last()));
        lemma_zero_first(d.drop_last());
    }
}

proof fn lemma_filled(d: Seq<char>, width: nat)
    requires
        numbers::all_digits(d),
        d.len() > 0,
    ensures
        numbers::all_digits(filled(d, width)),
        numbers::digits_value(filled(d, width)) == numbers::digits_value(d),
        filled(d, width).len() == (if d.len() >= width {
            d.len()
        } else {
            width
        }),
        d.len() < width ==> filled(d, width)[0] == '0',
        filled(d, width) == numbers::padded(d, width, '0'),
        bound_ok(filled(d, width)),
    decreases width,
{
    let t = filled(d, width);
    if d.len() < width {
        lemma_filled(d, (width - 1) as nat);
        lemma_zero_first(filled(d, (width - 1) as nat));
        assert(t =~= numbers::padded(d, width, '0'));
    }
    assert forall|k: int| 0 <= k < t.len() implies '0' <= #[trigger] t[k] <= '9' by {
        assert(text::ascii_digit(t[k]));
    }
    if t.contains('.') {
        let k = t.index_of('.');
        assert(t[k] == '.');
    }
}

/// Where a bound of a range is filled up with zeros, all its members are, to the
/// same width.
pub proof fn law_zeros_fill_up(pre: Seq<char>, a: int, b: int, width: nat, suf: Seq<char>)
    requires
        plain(pre),
        plain(suf),
        0 <= a <= b < 1_000_000_000,
        b - a < 100_000,
        numbers::digits(a as nat).len() < width,
        numbers::digits(b as nat).len() <= width,
    ensures
        ({
            let text = |n: int| filled(numbers::digits(n as nat), width);
            let content = text(a) + ".."@ + text(b);
            let members = Seq::new((b - a + 1) as nat, |k: int| text(a + k));
            brace::expansions(pre + seq!['{'] + content + seq!['}'] + suf) == around(
                pre,
                members,
                suf,
            )
        }),
{
    let text = |n: int| filled(numbers::digits(n as nat), width);
    let x = text(a);
    let y = text(b);
    let content = x + ".."@ + y;
    numbers::lemma_digits_read(a as nat);
    numbers::lemma_digits_read(b as nat);
    lemma_filled(numbers::digits(a as nat), width);
    lemma_filled(numbers::digits(b as nat), width);
    lemma_two_bounds(x, y);
    assert(text::ascii_digit(x[0]));
    assert(text::ascii_digit(y[0]));
    assert(brace::bound_of(x) == Some(a));
    assert(brace::bound_of(y) == Some(b));
    let members = Seq::new((b - a + 1) as nat, |k: int| text(a + k));
    let ns = brace::integers(a, b, 1)->0;
    assert(brace::integers(a, b, 1) is Some);
    assert forall|k: int| 0 <= k < members.len() implies plain(#[trigger] members[k]) && members[k]
        == brace::item(a + k, x, y) by {
        numbers::lemma_digits_read((a + k) as nat);
        lemma_filled(numbers::digits((a + k) as nat), width);
    }
    assert(ns.map_values(|n: int| brace::item(n, x, y)) =~= members);
    assert(brace::sequence(content) == Some(members));
    lemma_group(pre, content, suf, members);
}

// ---------------------------------------------------------------------------
// Quotes and groups inside of groups
// ---------------------------------------------------------------------------

/// A bit of what stands in a group.
pub enum Bit {
    /// A character that is no quote, brace or backslash.
    Char(char),
    Open,
    Close,
    /// A character behind a backslash.
    Escaped(char),
    /// Text in single quotes.
    Single(Seq<char>),
    /// Text in double quotes.
    Double(Seq<char>),
}

pub open spec fn bit_ok(b: Bit) -> bool {
    match b {
        Bit::Char(c) => c != '{' && c != '}' && c != '\'' && c != '"' && c != '\\',
        Bit::Single(t) => !t.contains('\''),
        Bit::Double(t) => !t.contains('"') && !t.contains('\\'),
        _ => true,
    }
}

pub open spec fn written_bit(b: Bit) -> Seq<char> {
    match b {
        Bit::Char(c) => seq![c],
        Bit::Open => seq!['{'],
        Bit::Close => seq!['}'],
        Bit::Escaped(c) => seq!['\\', c],
        Bit::Single(t) => seq!['\''] + t + seq!['\''],
        Bit::Double(t) => seq!['"'] + t + seq!['"'],
    }
}

pub open spec fn written_bits(bits: Seq<Bit>) -> Seq<char>
    decreases bits.len(),
{
    if bits.len() == 0 {
        Seq::empty()
    } else {
        written_bit(bits[0]) + written_bits(bits.drop_first())
    }
}

/// Whether each group that the bits open is closed, and no other, where `depth` are open
/// before them.
pub open spec fn whole(bits: Seq<Bit>, depth: nat) -> bool
    decreases bits.len(),
{
    if bits.len() == 0 {
        depth == 0
    } else {
        &&& bit_ok(bits[0])
        &&& match bits[0] {
            Bit::Open => whole(bits.drop_first(), depth + 1),
            Bit::Close => depth > 0 && whole(bits.drop_first(), (depth - 1) as nat),
            _ => whole(bits.drop_first(), depth),
        }
    }
}

/// Whether the bits are one item: commas stand in quotes or in groups only.
pub open spec fn one_item(bits: Seq<Bit>, depth: nat) -> bool
    decreases bits.len(),
{
    if bits.len() == 0 {
        depth == 0
    } else {
        &&& bit_ok(bits[0])
        &&& match bits[0] {
            Bit::Open => one_item(bits.drop_first(), depth + 1),
            Bit::Close => depth > 0 && one_item(bits.drop_first(), (depth - 1) as nat),
            Bit::Char(c) => (c != ',' || depth > 0) && one_item(bits.drop_first(), depth),
            _ => one_item(bits.drop_first(), depth),
        }
    }
}

/// How a scan stands in quotes of a kind.
spec fn inside(c: char) -> Scan {
    Scan { single: c == '\'', double: c == '"', escaped: false }
}

proof fn lemma_close_quoted(s: Seq<char>, i: int, t: Seq<char>, c: char, k: int, depth: nat)
    requires
        c == '\'' || c == '"',
        0 <= i,
        i + t.len() < s.len(),
        forall|j: int| 0 <= j < t.len() ==> s[i + j] == #[trigger] t[j],
        s[i + t.len()] == c,
        !t.contains(c),
        c == '"' ==> !t.contains('\\'),
        0 <= k <= t.len(),
    ensures
        brace::close_from(s, i + k, depth, inside(c)) == brace::close_from(
            s,
            i + t.len() + 1,
            depth,
            brace::unquoted(),
        ),
    decreases t.len() - k,
{
    if k < t.len() {
        assert(s[i + k] == t[k]);
        assert(t.contains(t[k]));
        assert(brace::scanned(inside(c), t[k]) == inside(c));
        lemma_close_quoted(s, i, t, c, k + 1, depth);
        assert(i + (k + 1) == i + k + 1);
    } else {
        assert(brace::scanned(inside(c), c) == brace::unquoted());
    }
}

proof fn lemma_parts_quoted(
    s: Seq<char>,
    i: int,
    t: Seq<char>,
    c: char,
    k: int,
    depth: nat,
    part: Seq<char>,
)
    requires
        c == '\'' || c == '"',
        0 <= i,
        i + t.len() < s.len(),
        forall|j: int| 0 <= j < t.len() ==> s[i + j] == #[trigger] t[j],
        s[i + t.len()] == c,
        !t.contains(c),
        c == '"' ==> !t.contains('\\'),
        0 <= k <= t.len(),
    ensures
        brace::parts_from(s, i + k, ',', depth, inside(c), part) == brace::parts_from(
            s,
            i + t.len() + 1,
            ',',
            depth,
            brace::unquoted(),
            part + t.skip(k) + seq![c],
        ),
    decreases t.len() - k,
{
    if k < t.len() {
        assert(s[i + k] == t[k]);
        assert(t.contains(t[k]));
        assert(brace::scanned(inside(c), t[k]) == inside(c));
        lemma_parts_quoted(s, i, t, c, k + 1, depth, part.push(t[k]));
        assert(part.push(t[k]) + t.skip(k + 1) + seq![c] =~= part + t.skip(k) + seq![c]);
        assert(i + (k + 1) == i + k + 1);
    } else {
        assert(brace::scanned(inside(c), c) == brace::unquoted());
        assert(part.push(c) =~= part + t.skip(k) + seq![c]);
    }
}

proof fn lemma_bit_at(s: Seq<char>, i: int, b: Bit, tail: Seq<char>)
    requires
        0 <= i <= s.len(),
        s.skip(i) == written_bit(b) + tail,
    ensures
        i + written_bit(b).len() <= s.len(),
        s.skip(i + written_bit(b).len()) == tail,
        forall|k: int| 0 <= k < written_bit(b).len() ==> s[i + k] == #[trigger] written_bit(b)[k],
{
    let w = written_bit(b);
    assert(s.skip(i).len() == s.len() - i);
    assert(s.skip(i + w.len()) =~= s.skip(i).skip(w.len() as int));
    assert((w + tail).skip(w.len() as int) =~= tail);
    assert forall|k: int| 0 <= k < w.len() implies s[i + k] == #[trigger] w[k] by {
        assert(s.skip(i)[k] == s[i + k]);
        assert((w + tail)[k] == w[k]);
    }
}

proof fn lemma_close_bits(s: Seq<char>, i: int, bits: Seq<Bit>, rest: Seq<char>, depth: nat)
    requires
        0 <= i <= s.len(),
        whole(bits, depth),
        s.skip(i) == written_bits(bits) + seq!['}'] + rest,
    ensures
        brace::close_from(s, i, depth + 1, brace::unquoted()) == Some(i + written_bits(bits).len()),
    decreases bits.len(),
{
    if bits.len() == 0 {
        assert(s.skip(i).len() == s.len() - i);
        assert(s.skip(i)[0] == s[i]);
        assert((written_bits(bits) + seq!['}'] + rest)[0] == '}');
    } else {
        let b = bits[0];
        let more = bits.drop_first();
        let w = written_bit(b);
        let tail = written_bits(more) + seq!['}'] + rest;
        assert(written_bits(bits) + seq!['}'] + rest =~= w + tail);
        lemma_bit_at(s, i, b, tail);
        let n = i + w.len();
        assert(s[i + 0] == w[0]);
        match b {
            Bit::Open => lemma_close_bits(s, n, more, rest, depth + 1),
            Bit::Close => lemma_close_bits(s, n, more, rest, (depth - 1) as nat),
            Bit::Char(c) => {
                assert(brace::scanned(brace::unquoted(), c) == brace::unquoted());
                lemma_close_bits(s, n, more, rest, depth);
            },
            Bit::Escaped(c) => {
                assert(s[i + 1] == w[1]);
                let q = brace::scanned(brace::unquoted(), '\\');
                assert(brace::scanned(q, c) == brace::unquoted());
                lemma_close_bits(s, n, more, rest, depth);
                assert(brace::close_from(s, i + 1, depth + 1, q) == brace::close_from(
                    s,
                    i + 2,
                    depth + 1,
                    brace::unquoted(),
                ));
            },
            Bit::Single(t) => {
                lemma_quoted_at(s, i, t, '\'');
                assert(brace::scanned(brace::unquoted(), '\'') == inside('\''));
                lemma_close_quoted(s, i + 1, t, '\'', 0, depth + 1);
                lemma_close_bits(s, n, more, rest, depth);
            },
            Bit::Double(t) => {
                lemma_quoted_at(s, i, t, '"');
                assert(brace::scanned(brace::unquoted(), '"') == inside('"'));
                lemma_close_quoted(s, i + 1, t, '"', 0, depth + 1);
                lemma_close_bits(s, n, more, rest, depth);
            },
        }
    }
}

proof fn lemma_quoted_at(s: Seq<char>, i: int, t: Seq<char>, c: char)
    requires
        0 <= i,
        i + t.len() + 2 <= s.len(),
        forall|k: int|
            0 <= k < t.len() + 2 ==> s[i + k] == #[trigger] (seq![c] + t + seq![c])[k],
    ensures
        s[i] == c,
        s[i + 1 + t.len()] == c,
        forall|j: int| 0 <= j < t.len() ==> s[i + 1 + j] == #[trigger] t[j],
{
    let w = seq![c] + t + seq![c];
    assert(s[i + 0] == w[0]);
    assert(s[i + (t.len() + 1)] == w[t.len() as int + 1]);
    assert forall|j: int| 0 <= j < t.len() implies s[i + 1 + j] == #[trigger] t[j] by {
        assert(s[i + (j + 1)] == w[j + 1]);
    }
}

proof fn lemma_item(
    s: Seq<char>,
    i: int,
    bits: Seq<Bit>,
    tail: Seq<char>,
    depth: nat,
    part: Seq<char>,
)
    requires
        0 <= i <= s.len(),
        one_item(bits, depth),
        s.skip(i) == written_bits(bits) + tail,
    ensures
        i + written_bits(bits).len() <= s.len(),
        s.skip(i + written_bits(bits).len()) == tail,
        brace::parts_from(s, i, ',', depth, brace::unquoted(), part) == brace::parts_from(
            s,
            i + written_bits(bits).len(),
            ',',
            0,
            brace::unquoted(),
            part + written_bits(bits),
        ),
    decreases bits.len(),
{
    if bits.len() == 0 {
        assert(written_bits(bits) + tail =~= tail);
        assert(part + written_bits(bits) =~= part);
        assert(s.skip(i).len() == s.len() - i);
    } else {
        let b = bits[0];
        let more = bits.drop_first();
        let w = written_bit(b);
        let x = written_bits(more) + tail;
        assert(written_bits(bits) + tail =~= w + x);
        lemma_bit_at(s, i, b, x);
        let n = i + w.len();
        assert(s[i + 0] == w[0]);
        let next = match b {
            Bit::Open => depth + 1,
            Bit::Close => (depth - 1) as nat,
            _ => depth,
        };
        lemma_item(s, n, more, tail, next, part + w);
        assert(part + w + written_bits(more) =~= part + written_bits(bits));
        match b {
            Bit::Escaped(c) => {
                assert(s[i + 1] == w[1]);
                let q = brace::scanned(brace::unquoted(), '\\');
                assert(brace::scanned(q, c) == brace::unquoted());
                assert(part.push('\\').push(c) =~= part + w);
                assert(brace::parts_from(s, i + 1, ',', depth, q, part.push('\\'))
                    == brace::parts_from(
                    s,
                    i + 2,
                    ',',
                    depth,
                    brace::unquoted(),
                    part.push('\\').push(c),
                ));
            },
            Bit::Single(t) => {
                lemma_quoted_at(s, i, t, '\'');
                assert(brace::scanned(brace::unquoted(), '\'') == inside('\''));
                lemma_parts_quoted(s, i + 1, t, '\'', 0, depth, part.push('\''));
                assert(part.push('\'') + t.skip(0) + seq!['\''] =~= part + w);
            },
            Bit::Double(t) => {
                lemma_quoted_at(s, i, t, '"');
                assert(brace::scanned(brace::unquoted(), '"') == inside('"'));
                lemma_parts_quoted(s, i + 1, t, '"', 0, depth, part.push('"'));
                assert(part.push('"') + t.skip(0) + seq!['"'] =~= part + w);
            },
            _ => {
                assert(part.push(s[i]) =~= part + w);
            },
        }
    }
}

proof fn lemma_parts_shift(
    s: Seq<char>,
    i: int,
    t: Seq<char>,
    j: int,
    depth: nat,
    q: Scan,
    part: Seq<char>,
)
    requires
        0 <= i <= s.len(),
        0 <= j <= t.len(),
        s.skip(i) == t.skip(j),
    ensures
        brace::parts_from(s, i, ',', depth, q, part) == brace::parts_from(t, j, ',', depth, q, part),
    decreases s.len() - i,
{
    assert(s.skip(i).len() == s.len() - i);
    assert(t.skip(j).len() == t.len() - j);
    if i < s.len() {
        assert(s.skip(i)[0] == s[i]);
        assert(t.skip(j)[0] == t[j]);
        assert(s.skip(i + 1) =~= s.skip(i).skip(1));
        assert(t.skip(j + 1) =~= t.skip(j).skip(1));
        let c = s[i];
        if q != brace::unquoted() || c == '\\' || c == '\'' || c == '"' {
            lemma_parts_shift(s, i + 1, t, j + 1, depth, brace::scanned(q, c), part.push(c));
        } else if c == '{' {
            lemma_parts_shift(s, i + 1, t, j + 1, depth + 1, q, part.push(c));
        } else if c == '}' {
            lemma_parts_shift(
                s,
                i + 1,
                t,
                j + 1,
                if depth > 0 {
                    (depth - 1) as nat
                } else {
                    0
                },
                q,
                part.push(c),
            );
        } else if c == ',' && depth == 0 {
            lemma_parts_shift(s, i + 1, t, j + 1, depth, q, Seq::empty());
        } else {
            lemma_parts_shift(s, i + 1, t, j + 1, depth, q, part.push(c));
        }
    }
}

/// A group ends at the brace that closes it: not at one in quotes, behind a backslash, or
/// of a group inside.
pub proof fn law_groups_end_at_their_brace(bits: Seq<Bit>, rest: Seq<char>)
    requires
        whole(bits, 0),
    ensures
        brace::close_from(written_bits(bits) + seq!['}'] + rest, 0, 1, brace::unquoted()) == Some(
            written_bits(bits).len() as int,
        ),
{
    let s = written_bits(bits) + seq!['}'] + rest;
    assert(s.skip(0) =~= s);
    lemma_close_bits(s, 0, bits, rest, 0);
}

/// Items are parted at commas, but not at those in quotes, behind a backslash, or of a
/// group inside, and each keeps its quotes and groups.
pub proof fn law_items_end_at_their_comma(bits: Seq<Bit>, rest: Seq<char>)
    requires
        one_item(bits, 0),
    ensures
        brace::parts_of(written_bits(bits) + seq![','] + rest, ',') == seq![written_bits(bits)]
            + brace::parts_of(rest, ','),
        brace::parts_of(written_bits(bits), ',') == seq![written_bits(bits)],
{
    let none = Seq::<char>::empty();
    let w = written_bits(bits);
    let s = w + seq![','] + rest;
    assert(s.skip(0) =~= w + (seq![','] + rest));
    lemma_item(s, 0, bits, seq![','] + rest, 0, none);
    assert(none + w =~= w);
    assert(s[w.len() as int] == ',');
    assert(s.skip(w.len() as int + 1) =~= rest.skip(0));
    lemma_parts_shift(s, w.len() as int + 1, rest, 0, 0, brace::unquoted(), none);
    assert(w.skip(0) =~= w + none);
    lemma_item(w, 0, bits, none, 0, none);
}

} // verus!
