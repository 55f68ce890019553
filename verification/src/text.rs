//! Text as sequences of characters: the vocabulary that every other module
//! states its contracts in, and the executable functions that go with it.

use vstd::prelude::*;
use vstd::string::*;
use vstd::utf8::*;

verus! {

// ---------------------------------------------------------------------------
// std's `String`
// ---------------------------------------------------------------------------

/// `String::push` appends the character at the end of the string.
pub assume_specification[ String::push ](s: &mut String, c: char)
    ensures
        final(s)@ == old(s)@.push(c),
;

/// The texts of a sequence of strings.
pub open spec fn texts(v: Seq<String>) -> Seq<Seq<char>> {
    v.map_values(|s: String| s@)
}

pub broadcast proof fn texts_push(v: Seq<String>, s: String)
    ensures
        #[trigger] texts(v.push(s)) == texts(v).push(s@),
{
    assert(texts(v.push(s)) =~= texts(v).push(s@));
}

pub broadcast proof fn texts_add(v: Seq<String>, w: Seq<String>)
    ensures
        #[trigger] texts(v + w) == texts(v) + texts(w),
{
    assert(texts(v + w) =~= texts(v) + texts(w));
}

/// The characters of `s`, one by one.
pub fn to_chars(s: &str) -> (v: Vec<char>)
    ensures
        v@ == s@,
        v.len() == s@.len(),
{
    let n: usize = s.unicode_len();
    let mut v: Vec<char> = Vec::with_capacity(n);
    for c in it: s.chars()
        invariant
            it.seq() == s@,
            v@ == s@.take(it.index() as int),
    {
        v.push(c);
    }
    assert(s@.take(s@.len() as int) =~= s@);
    v
}

/// The string made of the characters `v[from..to]`.
pub fn from_range(v: &Vec<char>, from: usize, to: usize) -> (s: String)
    requires
        from <= to <= v.len(),
    ensures
        s@ == v@.subrange(from as int, to as int),
{
    let mut s = String::new();
    let mut i: usize = from;
    while i < to
        invariant
            from <= i <= to <= v.len(),
            s@ == v@.subrange(from as int, i as int),
        decreases to - i,
    {
        s.push(v[i]);
        i += 1;
        assert(s@ =~= v@.subrange(from as int, i as int));
    }
    s
}

/// The string made of the characters `v`.
pub fn from_chars(v: &Vec<char>) -> (s: String)
    ensures
        s@ == v@,
{
    let s = from_range(v, 0, v.len());
    assert(v@.subrange(0, v.len() as int) =~= v@);
    s
}

/// An owned copy of `s`.
pub fn owned(s: &str) -> (r: String)
    ensures
        r@ == s@,
{
    s.to_owned()
}

/// Whether two strings hold the same text.
pub fn same(a: &str, b: &str) -> (r: bool)
    ensures
        r == (a@ == b@),
{
    let x = to_chars(a);
    let y = to_chars(b);
    if x.len() != y.len() {
        return false;
    }
    let mut i: usize = 0;
    while i < x.len()
        invariant
            i <= x@.len() == y@.len(),
            x@ == a@,
            y@ == b@,
            forall|k: int| 0 <= k < i ==> x@[k] == y@[k],
        decreases x@.len() - i,
    {
        if x[i] != y[i] {
            return false;
        }
        i += 1;
    }
    assert(x@ =~= y@);
    true
}

/// Whether `v` holds a string with the text of `s`.
pub fn holds(v: &Vec<String>, s: &str) -> (r: bool)
    ensures
        r == texts(v@).contains(s@),
{
    let mut i: usize = 0;
    while i < v.len()
        invariant
            i <= v.len(),
            forall|k: int| 0 <= k < i ==> v@[k]@ != s@,
        decreases v.len() - i,
    {
        if same(v[i].as_str(), s) {
            assert(texts(v@)[i as int] == s@);
            return true;
        }
        i += 1;
    }
    assert(forall|k: int| 0 <= k < texts(v@).len() ==> texts(v@)[k] == v@[k]@);
    false
}

/// A copy of the strings of `v`.
pub fn copies(v: &Vec<String>) -> (r: Vec<String>)
    ensures
        r.len() == v.len(),
        texts(r@) == texts(v@),
{
    let mut r: Vec<String> = Vec::new();
    let mut i: usize = 0;
    while i < v.len()
        invariant
            i <= v.len(),
            r@.len() == i,
            forall|k: int| 0 <= k < i ==> r@[k]@ == v@[k]@,
        decreases v.len() - i,
    {
        r.push(v[i].clone());
        i += 1;
    }
    assert(texts(r@) =~= texts(v@));
    r
}

// ---------------------------------------------------------------------------
// Classes of characters
// ---------------------------------------------------------------------------

/// The characters that count as white space in ASCII.
pub open spec fn ascii_space(c: char) -> bool {
    c == ' ' || c == '\t' || c == '\n' || c == '\x0c' || c == '\r'
}

/// The characters with the Unicode property `White_Space`.
pub open spec fn white_space(c: char) -> bool {
    ||| '\x09' <= c <= '\x0d'
    ||| c == ' '
    ||| c == '\u{85}'
    ||| c == '\u{a0}'
    ||| c == '\u{1680}'
    ||| '\u{2000}' <= c <= '\u{200a}'
    ||| c == '\u{2028}'
    ||| c == '\u{2029}'
    ||| c == '\u{202f}'
    ||| c == '\u{205f}'
    ||| c == '\u{3000}'
}

pub open spec fn ascii_digit(c: char) -> bool {
    '0' <= c <= '9'
}

pub open spec fn ascii_letter(c: char) -> bool {
    'a' <= c <= 'z' || 'A' <= c <= 'Z'
}

pub fn is_ascii_space(c: char) -> (r: bool)
    ensures
        r == ascii_space(c),
{
    c == ' ' || c == '\t' || c == '\n' || c == '\x0c' || c == '\r'
}

pub fn is_white_space(c: char) -> (r: bool)
    ensures
        r == white_space(c),
{
    ('\x09' <= c && c <= '\x0d') || c == ' ' || c == '\u{85}' || c == '\u{a0}' || c == '\u{1680}'
        || ('\u{2000}' <= c && c <= '\u{200a}') || c == '\u{2028}' || c == '\u{2029}' || c
        == '\u{202f}' || c == '\u{205f}' || c == '\u{3000}'
}

pub fn is_ascii_digit(c: char) -> (r: bool)
    ensures
        r == ascii_digit(c),
{
    '0' <= c && c <= '9'
}

pub fn is_ascii_letter(c: char) -> (r: bool)
    ensures
        r == ascii_letter(c),
{
    ('a' <= c && c <= 'z') || ('A' <= c && c <= 'Z')
}

// ---------------------------------------------------------------------------
// Trimming
// ---------------------------------------------------------------------------

/// `s` without the white space it starts with.
pub open spec fn trimmed_start(s: Seq<char>) -> Seq<char>
    decreases s.len(),
{
    if s.len() > 0 && white_space(s[0]) {
        trimmed_start(s.drop_first())
    } else {
        s
    }
}

/// `s` without the white space it ends with.
pub open spec fn trimmed_end(s: Seq<char>) -> Seq<char>
    decreases s.len(),
{
    if s.len() > 0 && white_space(s.last()) {
        trimmed_end(s.drop_last())
    } else {
        s
    }
}

/// `s` without the white space on either side.
pub open spec fn trimmed(s: Seq<char>) -> Seq<char> {
    trimmed_end(trimmed_start(s))
}

/// `s` without the characters `c` it ends with.
pub open spec fn trimmed_end_of(s: Seq<char>, c: char) -> Seq<char>
    decreases s.len(),
{
    if s.len() > 0 && s.last() == c {
        trimmed_end_of(s.drop_last(), c)
    } else {
        s
    }
}

pub fn trim_start(s: &str) -> (r: String)
    ensures
        r@ == trimmed_start(s@),
{
    let v = to_chars(s);
    let mut i: usize = 0;
    assert(v@.skip(0) =~= v@);
    while i < v.len() && is_white_space(v[i])
        invariant
            i <= v.len(),
            v@ == s@,
            trimmed_start(s@) == trimmed_start(v@.skip(i as int)),
        decreases v.len() - i,
    {
        assert(v@.skip(i as int).drop_first() =~= v@.skip(i + 1));
        i += 1;
    }
    assert(v@.subrange(i as int, v.len() as int) =~= v@.skip(i as int));
    from_range(&v, i, v.len())
}

pub fn trim_end(s: &str) -> (r: String)
    ensures
        r@ == trimmed_end(s@),
{
    let v = to_chars(s);
    let mut n: usize = v.len();
    assert(v@.take(n as int) =~= v@);
    while n > 0 && is_white_space(v[n - 1])
        invariant
            n <= v.len(),
            v@ == s@,
            trimmed_end(s@) == trimmed_end(v@.take(n as int)),
        decreases n,
    {
        assert(v@.take(n as int).drop_last() =~= v@.take(n - 1));
        n -= 1;
    }
    assert(v@.subrange(0, n as int) =~= v@.take(n as int));
    from_range(&v, 0, n)
}

pub fn trim(s: &str) -> (r: String)
    ensures
        r@ == trimmed(s@),
{
    let t = trim_start(s);
    trim_end(t.as_str())
}

pub fn trim_end_of(s: &str, c: char) -> (r: String)
    ensures
        r@ == trimmed_end_of(s@, c),
{
    let v = to_chars(s);
    let mut n: usize = v.len();
    assert(v@.take(n as int) =~= v@);
    while n > 0 && v[n - 1] == c
        invariant
            n <= v.len(),
            v@ == s@,
            trimmed_end_of(s@, c) == trimmed_end_of(v@.take(n as int), c),
        decreases n,
    {
        assert(v@.take(n as int).drop_last() =~= v@.take(n - 1));
        n -= 1;
    }
    assert(v@.subrange(0, n as int) =~= v@.take(n as int));
    from_range(&v, 0, n)
}

// ---------------------------------------------------------------------------
// Prefixes, suffixes and occurrences
// ---------------------------------------------------------------------------

/// Whether `s` starts with `p`.
pub open spec fn begins(s: Seq<char>, p: Seq<char>) -> bool {
    p.len() <= s.len() && s.take(p.len() as int) == p
}

/// Whether `p` occurs in `s` at `i`.
pub open spec fn occurs_at(s: Seq<char>, p: Seq<char>, i: int) -> bool {
    0 <= i && i + p.len() <= s.len() && s.subrange(i, i + p.len()) == p
}

/// The first place at or after `i` where `p` occurs in `s`.
pub open spec fn found_from(s: Seq<char>, p: Seq<char>, i: int) -> Option<int>
    decreases s.len() - i + 1,
{
    if i < 0 || i > s.len() {
        None
    } else if occurs_at(s, p, i) {
        Some(i)
    } else {
        found_from(s, p, i + 1)
    }
}

/// The first place where `p` occurs in `s`.
pub open spec fn found(s: Seq<char>, p: Seq<char>) -> Option<int> {
    found_from(s, p, 0)
}

/// Whether `p` occurs in `s`.
pub open spec fn mentions(s: Seq<char>, p: Seq<char>) -> bool {
    exists|i: int| occurs_at(s, p, i)
}

/// The first place found is one where the text occurs, and none comes before it.
pub proof fn lemma_found_from(s: Seq<char>, p: Seq<char>, i: int)
    requires
        0 <= i,
    ensures
        match found_from(s, p, i) {
            Some(k) => i <= k && occurs_at(s, p, k) && forall|j: int|
                i <= j < k ==> !occurs_at(s, p, j),
            None => forall|j: int| i <= j ==> !occurs_at(s, p, j),
        },
    decreases s.len() - i + 1,
{
    if i <= s.len() && !occurs_at(s, p, i) {
        lemma_found_from(s, p, i + 1);
    }
}

/// A text occurs somewhere exactly where a first place is found.
pub proof fn lemma_mentions(s: Seq<char>, p: Seq<char>)
    ensures
        mentions(s, p) <==> found(s, p) is Some,
{
    lemma_found_from(s, p, 0);
}

pub fn starts_with(s: &str, p: &str) -> (r: bool)
    ensures
        r == begins(s@, p@),
{
    let v = to_chars(s);
    let w = to_chars(p);
    let r = at(&v, &w, 0);
    assert(s@.subrange(0, p@.len() as int) =~= s@.take(p@.len() as int) || p@.len() > s@.len());
    r
}

/// Whether `w` occurs in `v` at `i`.
pub fn at(v: &Vec<char>, w: &Vec<char>, i: usize) -> (r: bool)
    ensures
        r == occurs_at(v@, w@, i as int),
{
    if w.len() > v.len() || i > v.len() - w.len() {
        return false;
    }
    let mut k: usize = 0;
    while k < w.len()
        invariant
            k <= w@.len(),
            i + w@.len() <= v.len(),
            forall|j: int| 0 <= j < k ==> v@[i + j] == w@[j],
        decreases w@.len() - k,
    {
        if v[i + k] != w[k] {
            assert(v@.subrange(i as int, i + w@.len())[k as int] != w@[k as int]);
            return false;
        }
        k += 1;
    }
    assert(v@.subrange(i as int, i + w@.len()) =~= w@);
    true
}

/// Where `p` first occurs in `s`, counted in characters.
pub fn find(s: &str, p: &str) -> (r: Option<usize>)
    ensures
        match r {
            Some(k) => found(s@, p@) == Some(k as int),
            None => found(s@, p@) is None,
        },
{
    let v = to_chars(s);
    let w = to_chars(p);
    let mut i: usize = 0;
    loop
        invariant
            v@ == s@,
            w@ == p@,
            i <= v.len(),
            found(s@, p@) == found_from(s@, p@, i as int),
        decreases v.len() - i,
    {
        if at(&v, &w, i) {
            return Some(i);
        }
        if i == v.len() {
            assert(found_from(s@, p@, i + 1) is None);
            return None;
        }
        i += 1;
    }
}

pub fn contains(s: &str, p: &str) -> (r: bool)
    ensures
        r == mentions(s@, p@),
{
    proof {
        lemma_mentions(s@, p@);
    }
    find(s, p).is_some()
}

pub fn contains_char(s: &str, c: char) -> (r: bool)
    ensures
        r == s@.contains(c),
{
    index_of(s, c).is_some()
}

/// The place of the first `c` in `s`, or the length of `s`.
pub open spec fn until(s: Seq<char>, c: char) -> nat
    decreases s.len(),
{
    if s.len() == 0 || s[0] == c {
        0
    } else {
        1 + until(s.drop_first(), c)
    }
}

pub proof fn lemma_until(s: Seq<char>, c: char)
    ensures
        until(s, c) <= s.len(),
        forall|k: int| 0 <= k < until(s, c) ==> s[k] != c,
        until(s, c) < s.len() ==> s[until(s, c) as int] == c,
        until(s, c) < s.len() <==> s.contains(c),
    decreases s.len(),
{
    if s.len() == 0 || s[0] == c {
    } else {
        let t = s.drop_first();
        lemma_until(t, c);
        assert forall|k: int| 0 <= k < until(s, c) implies s[k] != c by {
            if k > 0 {
                assert(t[k - 1] != c);
            }
        }
        if until(s, c) == s.len() {
            assert(forall|k: int| 0 <= k < s.len() ==> s[k] != c);
        }
    }
}

/// Where `c` first occurs in `s`, counted in characters.
pub fn index_of(s: &str, c: char) -> (r: Option<usize>)
    ensures
        match r {
            Some(k) => k == until(s@, c) && k < s@.len() && s@.contains(c),
            None => !s@.contains(c) && until(s@, c) == s@.len(),
        },
{
    let v = to_chars(s);
    let mut i: usize = 0;
    proof {
        lemma_until(s@, c);
    }
    assert(v@.skip(0) =~= v@);
    while i < v.len()
        invariant
            v@ == s@,
            i <= v.len(),
            until(s@, c) == i + until(v@.skip(i as int), c),
            until(s@, c) < s@.len() <==> s@.contains(c),
        decreases v.len() - i,
    {
        if v[i] == c {
            return Some(i);
        }
        assert(v@.skip(i as int).drop_first() =~= v@.skip(i + 1));
        i += 1;
    }
    None
}

/// The text before and the text after the first `c` of `s`, if there is one.
pub open spec fn parted(s: Seq<char>, c: char) -> Option<(Seq<char>, Seq<char>)> {
    if s.contains(c) {
        Some((s.take(until(s, c) as int), s.skip(until(s, c) as int + 1)))
    } else {
        None
    }
}

pub fn split_once(s: &str, c: char) -> (r: Option<(String, String)>)
    ensures
        match r {
            Some((a, b)) => parted(s@, c) == Some((a@, b@)),
            None => parted(s@, c) is None,
        },
{
    let v = to_chars(s);
    match index_of(s, c) {
        Some(k) => {
            assert(v@.subrange(0, k as int) =~= v@.take(k as int));
            assert(v@.subrange(k + 1, v.len() as int) =~= v@.skip(k + 1));
            Some((from_range(&v, 0, k), from_range(&v, k + 1, v.len())))
        },
        None => None,
    }
}

/// What follows the prefix `p` in `s`, if `s` starts with it.
pub fn strip_prefix(s: &str, p: &str) -> (r: Option<String>)
    ensures
        match r {
            Some(t) => begins(s@, p@) && t@ == s@.skip(p@.len() as int),
            None => !begins(s@, p@),
        },
{
    if starts_with(s, p) {
        let n: usize = p.unicode_len();
        Some(skip(s, n))
    } else {
        None
    }
}

/// The first `n` characters of `s`.
pub fn take(s: &str, n: usize) -> (r: String)
    requires
        n <= s@.len(),
    ensures
        r@ == s@.take(n as int),
{
    let v = to_chars(s);
    assert(v@.subrange(0, n as int) =~= v@.take(n as int));
    from_range(&v, 0, n)
}

/// `s` without its first `n` characters.
pub fn skip(s: &str, n: usize) -> (r: String)
    requires
        n <= s@.len(),
    ensures
        r@ == s@.skip(n as int),
{
    let v = to_chars(s);
    assert(v@.subrange(n as int, v.len() as int) =~= v@.skip(n as int));
    from_range(&v, n, v.len())
}

/// Whether the first character of `s` is `c`.
pub fn starts_with_char(s: &str, c: char) -> (r: bool)
    ensures
        r == (s@.len() > 0 && s@[0] == c),
{
    let v = to_chars(s);
    v.len() > 0 && v[0] == c
}

/// Whether the last character of `s` is `c`.
pub fn ends_with_char(s: &str, c: char) -> (r: bool)
    ensures
        r == (s@.len() > 0 && s@.last() == c),
{
    let v = to_chars(s);
    v.len() > 0 && v[v.len() - 1] == c
}

// ---------------------------------------------------------------------------
// Lines, words and joins
// ---------------------------------------------------------------------------

/// `s` without a final carriage return.
pub open spec fn without_return(s: Seq<char>) -> Seq<char> {
    if s.len() > 0 && s.last() == '\r' {
        s.drop_last()
    } else {
        s
    }
}

/// The lines of `s`: each ends at a line feed, which is not part of it, nor is
/// a carriage return just before that; what follows the last line feed is a
/// line only if it is not empty.
pub open spec fn lines_of(s: Seq<char>) -> Seq<Seq<char>>
    decreases s.len(),
{
    if s.len() == 0 {
        Seq::empty()
    } else if !s.contains('\n') {
        seq![s]
    } else {
        proof {
            lemma_until(s, '\n');
        }
        let n = until(s, '\n') as int;
        seq![without_return(s.take(n))] + lines_of(s.skip(n + 1))
    }
}

/// Text that ends with a line feed and text behind it have each their own
/// lines.
pub proof fn lemma_lines_append(a: Seq<char>, b: Seq<char>)
    requires
        a.len() == 0 || a.last() == '\n',
    ensures
        lines_of(a + b) == lines_of(a) + lines_of(b),
    decreases a.len(),
{
    if a.len() == 0 {
        assert(a + b =~= b);
        assert(lines_of(a) + lines_of(b) =~= lines_of(b));
    } else {
        let s = a + b;
        assert(a[a.len() - 1] == '\n');
        assert(a.contains('\n'));
        assert(s[a.len() - 1] == '\n');
        assert(s.contains('\n'));
        lemma_until(a, '\n');
        lemma_until(s, '\n');
        lemma_until_append(a, b, '\n');
        let n = until(a, '\n') as int;
        assert(s.take(n) =~= a.take(n));
        assert(s.skip(n + 1) =~= a.skip(n + 1) + b);
        if a.skip(n + 1).len() > 0 {
            assert(a.skip(n + 1).last() == a.last());
        }
        lemma_lines_append(a.skip(n + 1), b);
        assert(lines_of(s) =~= lines_of(a) + lines_of(b));
    }
}

proof fn lemma_until_append(a: Seq<char>, b: Seq<char>, c: char)
    requires
        a.contains(c),
    ensures
        until(a + b, c) == until(a, c),
    decreases a.len(),
{
    assert((a + b)[0] == a[0]);
    if a[0] != c {
        assert((a + b).drop_first() =~= a.drop_first() + b);
        let k = a.index_of(c);
        assert(a.drop_first()[k - 1] == c);
        lemma_until_append(a.drop_first(), b, c);
    }
}

/// Text without a line feed, and then one, is one line.
pub proof fn lemma_one_line(w: Seq<char>)
    requires
        !w.contains('\n'),
    ensures
        lines_of(w.push('\n')) == seq![without_return(w)],
{
    let s = w.push('\n');
    assert(s[w.len() as int] == '\n');
    assert(s.contains('\n'));
    lemma_until(s, '\n');
    let n = until(s, '\n') as int;
    if n < w.len() {
        assert(w[n] == s[n]);
        assert(w.contains('\n'));
    }
    assert(s.take(n) =~= w);
    assert(s.skip(n + 1) =~= Seq::empty());
    assert(lines_of(s.skip(n + 1)) =~= Seq::<Seq<char>>::empty());
    assert(lines_of(s) =~= seq![without_return(w)]);
}

pub fn lines(s: &str) -> (r: Vec<String>)
    ensures
        texts(r@) == lines_of(s@),
{
    let v = to_chars(s);
    let mut r: Vec<String> = Vec::new();
    let mut start: usize = 0;
    assert(v@.skip(0) =~= v@);
    assert(texts(r@) + lines_of(v@.skip(0)) =~= lines_of(s@));
    while start < v.len()
        invariant
            start <= v.len(),
            v@ == s@,
            texts(r@) + lines_of(v@.skip(start as int)) == lines_of(s@),
        decreases v.len() - start,
    {
        broadcast use texts_push;

        let ghost before = r@;
        let ghost rest = v@.skip(start as int);
        let mut n: usize = start;
        while n < v.len() && v[n] != '\n'
            invariant
                start <= n <= v.len(),
                rest == v@.skip(start as int),
                until(rest, '\n') == (n - start) + until(v@.skip(n as int), '\n'),
            decreases v.len() - n,
        {
            assert(v@.skip(n as int).drop_first() =~= v@.skip(n + 1));
            n += 1;
        }
        proof {
            lemma_until(rest, '\n');
        }
        if n == v.len() {
            assert(until(v@.skip(n as int), '\n') == 0);
            r.push(from_range(&v, start, n));
            assert(v@.subrange(start as int, n as int) =~= rest);
            assert(texts(r@) =~= texts(before) + lines_of(rest));
            return r;
        }
        assert(rest[n - start] == '\n');
        let mut end: usize = n;
        if n > start && v[n - 1] == '\r' {
            end = n - 1;
        }
        assert(v@.subrange(start as int, end as int) =~= without_return(rest.take(n - start)));
        r.push(from_range(&v, start, end));
        assert(v@.skip(n + 1) =~= rest.skip(n - start + 1));
        start = n + 1;
        assert(texts(r@) + lines_of(v@.skip(start as int)) =~= texts(before) + lines_of(rest));
    }
    assert(texts(r@) =~= lines_of(s@));
    r
}

/// The parts joined with `sep` between them.
pub open spec fn joined(parts: Seq<Seq<char>>, sep: Seq<char>) -> Seq<char>
    decreases parts.len(),
{
    if parts.len() == 0 {
        Seq::empty()
    } else if parts.len() == 1 {
        parts[0]
    } else {
        joined(parts.drop_last(), sep) + sep + parts.last()
    }
}

pub fn join(parts: &Vec<String>, sep: &str) -> (r: String)
    ensures
        r@ == joined(texts(parts@), sep@),
{
    let mut r = String::new();
    let ghost all = texts(parts@);
    assert(all.take(0) =~= Seq::empty());
    let mut i: usize = 0;
    while i < parts.len()
        invariant
            i <= parts@.len(),
            all == texts(parts@),
            r@ == joined(all.take(i as int), sep@),
        decreases parts@.len() - i,
    {
        if i > 0 {
            r.append(sep);
        }
        r.append(parts[i].as_str());
        assert(all.take(i + 1).drop_last() =~= all.take(i as int));
        assert(r@ =~= joined(all.take(i + 1), sep@));
        i += 1;
    }
    assert(all.take(all.len() as int) =~= all);
    r
}

/// The length of the run of characters at the start of `s` that are white
/// space (`space`) or are not (`!space`).
pub open spec fn run(s: Seq<char>, space: bool) -> nat
    decreases s.len(),
{
    if s.len() > 0 && white_space(s[0]) == space {
        1 + run(s.drop_first(), space)
    } else {
        0
    }
}

pub proof fn lemma_run(s: Seq<char>, space: bool)
    ensures
        run(s, space) <= s.len(),
        s.len() > 0 && white_space(s[0]) == space ==> run(s, space) > 0,
    decreases s.len(),
{
    if s.len() > 0 && white_space(s[0]) == space {
        lemma_run(s.drop_first(), space);
    }
}

/// The maximal runs of characters of `s` that are not white space.
pub open spec fn words_of(s: Seq<char>) -> Seq<Seq<char>>
    decreases s.len(),
{
    proof {
        lemma_run(s, true);
        lemma_run(s.skip(run(s, true) as int), false);
    }
    let t = s.skip(run(s, true) as int);
    if t.len() == 0 {
        Seq::empty()
    } else {
        let n = run(t, false);
        if n == 0 {
            Seq::empty()
        } else {
            seq![t.take(n as int)] + words_of(t.skip(n as int))
        }
    }
}

fn run_from(v: &Vec<char>, from: usize, space: bool) -> (r: usize)
    requires
        from <= v.len(),
    ensures
        r <= v.len() - from,
        r == run(v@.skip(from as int), space),
{
    let mut i: usize = from;
    while i < v.len() && is_white_space(v[i]) == space
        invariant
            from <= i <= v.len(),
            run(v@.skip(from as int), space) == i - from + run(v@.skip(i as int), space),
        decreases v.len() - i,
    {
        assert(v@.skip(i as int).drop_first() =~= v@.skip(i + 1));
        i += 1;
    }
    i - from
}

pub fn words(s: &str) -> (r: Vec<String>)
    ensures
        texts(r@) == words_of(s@),
{
    let v = to_chars(s);
    let mut r: Vec<String> = Vec::new();
    let mut i: usize = 0;
    assert(v@.skip(0) =~= v@);
    assert(texts(r@) + words_of(v@.skip(0)) =~= words_of(s@));
    loop
        invariant
            i <= v.len(),
            v@ == s@,
            texts(r@) + words_of(v@.skip(i as int)) == words_of(s@),
        decreases v.len() - i,
    {
        broadcast use texts_push;
        let ghost before = r@;
        let ghost here = v@.skip(i as int);
        let gap = run_from(&v, i, true);
        let ghost t = here.skip(gap as int);
        assert(t =~= v@.skip(i + gap));
        if i + gap == v.len() {
            assert(texts(r@) =~= words_of(s@));
            return r;
        }
        let n = run_from(&v, i + gap, false);
        proof {
            lemma_run(t, false);
            lemma_run(here, true);
            lemma_run_ends(here, true);
        }
        r.push(from_range(&v, i + gap, i + gap + n));
        assert(v@.subrange(i + gap, i + gap + n) =~= t.take(n as int));
        assert(t.skip(n as int) =~= v@.skip(i + gap + n));
        i = i + gap + n;
        assert(texts(r@) + words_of(v@.skip(i as int)) =~= texts(before) + words_of(here));
    }
}

/// A run ends at a character of the other class.
proof fn lemma_run_ends(s: Seq<char>, space: bool)
    ensures
        run(s, space) < s.len() ==> white_space(s[run(s, space) as int]) != space,
    decreases s.len(),
{
    if s.len() > 0 && white_space(s[0]) == space {
        lemma_run_ends(s.drop_first(), space);
    }
}

/// The pieces of `s` between the places where `sep` occurs, found from the left.
pub open spec fn pieces(s: Seq<char>, sep: Seq<char>) -> Seq<Seq<char>>
    decreases s.len(),
{
    proof {
        lemma_found_from(s, sep, 0);
    }
    match found(s, sep) {
        Some(k) => if sep.len() > 0 {
            seq![s.take(k)] + pieces(s.skip(k + sep.len()), sep)
        } else {
            seq![s]
        },
        None => seq![s],
    }
}

pub fn split_on(s: &str, sep: &str) -> (r: Vec<String>)
    requires
        sep@.len() > 0,
    ensures
        texts(r@) == pieces(s@, sep@),
{
    let n: usize = sep.unicode_len();
    let mut r: Vec<String> = Vec::new();
    let mut rest = owned(s);
    assert(texts(r@) + pieces(rest@, sep@) =~= pieces(s@, sep@));
    loop
        invariant
            n == sep@.len(),
            n > 0,
            texts(r@) + pieces(rest@, sep@) == pieces(s@, sep@),
        decreases rest@.len(),
    {
        broadcast use texts_push;
        let ghost before = r@;
        let ghost whole = rest@;
        proof {
            lemma_found_from(whole, sep@, 0);
        }
        match find(rest.as_str(), sep) {
            Some(k) => {
                let chars = to_chars(rest.as_str());
                r.push(from_range(&chars, 0, k));
                rest = from_range(&chars, k + n, chars.len());
                assert(chars@.subrange(0, k as int) =~= whole.take(k as int));
                assert(rest@ =~= whole.skip(k + n));
                assert(texts(r@) + pieces(rest@, sep@) =~= texts(before) + pieces(whole, sep@));
            },
            None => {
                r.push(rest);
                assert(texts(r@) =~= texts(before) + pieces(whole, sep@));
                return r;
            },
        }
    }
}

// ---------------------------------------------------------------------------
// Places counted in bytes
// ---------------------------------------------------------------------------

/// How many bytes `s` takes in UTF-8.
pub open spec fn byte_len(s: Seq<char>) -> nat {
    encode_utf8(s).len()
}

/// Whether a character of `s` starts at byte `at`, or `s` ends there.
pub open spec fn boundary(s: Seq<char>, at: int) -> bool {
    exists|k: int| 0 <= k <= s.len() && byte_len(#[trigger] s.take(k)) == at
}

/// The number of characters of `s` before byte `at`.
pub open spec fn index_at(s: Seq<char>, at: int) -> int {
    choose|k: int| 0 <= k <= s.len() && byte_len(#[trigger] s.take(k)) == at
}

/// Adding a character adds the bytes of its own encoding.
pub proof fn lemma_byte_len_push(s: Seq<char>, c: char)
    ensures
        byte_len(s.push(c)) == byte_len(s) + encode_scalar(c as u32).len(),
        1 <= encode_scalar(c as u32).len() <= 4,
    decreases s.len(),
{
    if s.len() == 0 {
        assert(s.push(c).drop_first() =~= Seq::<char>::empty());
        assert(encode_utf8(s.push(c)) == encode_scalar(c as u32) + encode_utf8(
            s.push(c).drop_first(),
        ));
        assert(encode_utf8(Seq::<char>::empty()).len() == 0);
    } else {
        assert(s.push(c).drop_first() =~= s.drop_first().push(c));
        lemma_byte_len_push(s.drop_first(), c);
    }
}

/// A longer prefix takes more bytes.
pub proof fn lemma_byte_len_grows(s: Seq<char>, i: int, j: int)
    requires
        0 <= i <= j <= s.len(),
    ensures
        byte_len(s.take(i)) + (j - i) <= byte_len(s.take(j)),
    decreases j - i,
{
    if i < j {
        lemma_byte_len_grows(s, i, j - 1);
        assert(s.take(j) =~= s.take(j - 1).push(s[j - 1]));
        lemma_byte_len_push(s.take(j - 1), s[j - 1]);
    }
}

/// The number of characters before a byte is the only one there is.
pub proof fn lemma_index_at(s: Seq<char>, k: int)
    requires
        0 <= k <= s.len(),
    ensures
        boundary(s, byte_len(s.take(k)) as int),
        index_at(s, byte_len(s.take(k)) as int) == k,
{
    let j = index_at(s, byte_len(s.take(k)) as int);
    if j < k {
        lemma_byte_len_grows(s, j, k);
    }
    if k < j {
        lemma_byte_len_grows(s, k, j);
    }
}

fn char_bytes(c: char) -> (n: usize)
    ensures
        n == encode_scalar(c as u32).len(),
        1 <= n <= 4,
{
    if c <= '\x7f' {
        1
    } else if c <= '\u{7ff}' {
        2
    } else if c <= '\u{ffff}' {
        3
    } else {
        4
    }
}

/// How many bytes the first `k` characters of `s` take.
pub fn byte_offset(s: &str, k: usize) -> (n: usize)
    requires
        k <= s@.len(),
    ensures
        n == byte_len(s@.take(k as int)),
{
    let v = to_chars(s);
    let total: usize = s.as_bytes().len();
    let mut n: usize = 0;
    let mut i: usize = 0;
    assert(s@.take(0) =~= Seq::<char>::empty());
    assert(s@.take(s@.len() as int) =~= s@);
    while i < k
        invariant
            v@ == s@,
            i <= k <= v.len(),
            total == byte_len(s@),
            s@.take(s@.len() as int) == s@,
            n == byte_len(s@.take(i as int)),
        decreases k - i,
    {
        proof {
            assert(s@.take(i + 1) =~= s@.take(i as int).push(s@[i as int]));
            lemma_byte_len_push(s@.take(i as int), s@[i as int]);
            lemma_byte_len_grows(s@, i + 1, s@.len() as int);
        }
        n += char_bytes(v[i]);
        i += 1;
    }
    n
}

/// How many characters of `s` stand before byte `at`.
pub fn char_index(s: &str, at: usize) -> (k: usize)
    requires
        boundary(s@, at as int),
    ensures
        k <= s@.len(),
        k == index_at(s@, at as int),
        byte_len(s@.take(k as int)) == at,
{
    let v = to_chars(s);
    let ghost want = index_at(s@, at as int);
    let total: usize = s.as_bytes().len();
    let mut n: usize = 0;
    let mut i: usize = 0;
    assert(s@.take(0) =~= Seq::<char>::empty());
    assert(s@.take(s@.len() as int) =~= s@);
    while n < at
        invariant
            v@ == s@,
            i <= want <= v.len(),
            total == byte_len(s@),
            s@.take(s@.len() as int) == s@,
            byte_len(s@.take(want)) == at,
            n == byte_len(s@.take(i as int)),
        decreases want - i,
    {
        proof {
            if i == want {
                assert(false);
            }
            assert(s@.take(i + 1) =~= s@.take(i as int).push(s@[i as int]));
            lemma_byte_len_push(s@.take(i as int), s@[i as int]);
            lemma_byte_len_grows(s@, i + 1, s@.len() as int);
        }
        n += char_bytes(v[i]);
        i += 1;
    }
    proof {
        if i < want {
            lemma_byte_len_grows(s@, i as int, want);
        }
    }
    i
}

} // verus!
