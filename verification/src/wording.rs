//! What holds of texts: their parts, their lines and words, and the numbers that they
//! stand for.

use vstd::prelude::*;

use crate::expand;
use crate::numbers;
use crate::text;

verus! {

/// The white space of ASCII.
pub open spec fn blanks() -> Seq<char> {
    seq!['\t', '\n', '\x0b', '\x0c', '\r', ' ']
}

/// Which characters of ASCII are white space, digits and letters.
pub proof fn law_classes_of_characters(c: char)
    requires
        (c as int) < 0x80,
    ensures
        text::white_space(c) <==> blanks().contains(c),
        text::ascii_space(c) <==> blanks().contains(c) && c != '\x0b',
        text::ascii_digit(c) <==> 48 <= c as int <= 57,
        text::ascii_letter(c) <==> 65 <= c as int <= 90 || 97 <= c as int <= 122,
{
    let b = blanks();
    assert(b[0] == '\t' && b[1] == '\n' && b[2] == '\x0b' && b[3] == '\x0c' && b[4] == '\r' && b[5]
        == ' ');
}

/// Whether a text is white space only.
pub open spec fn blank(s: Seq<char>) -> bool {
    forall|k: int| 0 <= k < s.len() ==> text::white_space(#[trigger] s[k])
}

/// Whether a text starts and ends with something that is no white space.
pub open spec fn tight(s: Seq<char>) -> bool {
    s.len() > 0 && !text::white_space(s[0]) && !text::white_space(s.last())
}

proof fn lemma_start(a: Seq<char>, s: Seq<char>)
    requires
        blank(a),
        s.len() == 0 || !text::white_space(s[0]),
    ensures
        text::trimmed_start(a + s) == s,
    decreases a.len(),
{
    if a.len() == 0 {
        assert(a + s =~= s);
    } else {
        assert((a + s)[0] == a[0]);
        assert((a + s).drop_first() =~= a.drop_first() + s);
        assert(blank(a.drop_first()));
        lemma_start(a.drop_first(), s);
    }
}

proof fn lemma_end(s: Seq<char>, b: Seq<char>)
    requires
        blank(b),
        s.len() == 0 || !text::white_space(s.last()),
    ensures
        text::trimmed_end(s + b) == s,
    decreases b.len(),
{
    if b.len() == 0 {
        assert(s + b =~= s);
    } else {
        assert((s + b).last() == b.last());
        assert((s + b).drop_last() =~= s + b.drop_last());
        assert(blank(b.drop_last()));
        lemma_end(s, b.drop_last());
    }
}

/// Trimming takes the white space on either side away, and nothing else.
pub proof fn law_trimming(a: Seq<char>, s: Seq<char>, b: Seq<char>)
    requires
        blank(a),
        blank(b),
        tight(s),
    ensures
        text::trimmed(a + s + b) == s,
        text::trimmed_start(a + s + b) == s + b,
        text::trimmed_end(a + s + b) == a + s,
        text::trimmed(a) == Seq::<char>::empty(),
{
    assert(a + s + b =~= a + (s + b));
    assert((s + b)[0] == s[0]);
    lemma_start(a, s + b);
    lemma_end(s, b);
    assert((a + s).last() == s.last());
    lemma_end(a + s, b);
    lemma_start(a, Seq::empty());
    assert(a + Seq::<char>::empty() =~= a);
}

proof fn lemma_end_of(s: Seq<char>, n: nat, c: char)
    requires
        s.len() == 0 || s.last() != c,
    ensures
        text::trimmed_end_of(s + Seq::new(n, |k: int| c), c) == s,
    decreases n,
{
    let t = s + Seq::new(n, |k: int| c);
    if n == 0 {
        assert(t =~= s);
    } else {
        assert(t.last() == c);
        assert(t.drop_last() =~= s + Seq::new((n - 1) as nat, |k: int| c));
        lemma_end_of(s, (n - 1) as nat, c);
    }
}

/// The output of a command loses all line feeds at its end, and nothing else.
pub proof fn law_output_ends_without_line_feeds(s: Seq<char>, n: nat)
    requires
        s.len() == 0 || s.last() != '\n',
    ensures
        expand::output_of(Some(s + Seq::new(n, |k: int| '\n'))) == s,
        expand::output_of(None) == Seq::<char>::empty(),
{
    lemma_end_of(s, n, '\n');
}

proof fn lemma_first(a: Seq<char>, b: Seq<char>, c: char)
    requires
        !a.contains(c),
    ensures
        text::until(a + seq![c] + b, c) == a.len(),
        (a + seq![c] + b).contains(c),
        text::until(a, c) == a.len(),
{
    let s = a + seq![c] + b;
    assert(s[a.len() as int] == c);
    text::lemma_until(s, c);
    text::lemma_until(a, c);
    let n = text::until(s, c) as int;
    if n < a.len() {
        assert(a[n] == s[n]);
        assert(a.contains(c));
    }
}

/// A text is parted at the first place of a character, which belongs to neither part.
pub proof fn law_parting(a: Seq<char>, c: char, b: Seq<char>)
    requires
        !a.contains(c),
    ensures
        text::parted(a + seq![c] + b, c) == Some((a, b)),
        text::parted(a, c) is None,
{
    lemma_first(a, b, c);
    let s = a + seq![c] + b;
    assert(s.take(a.len() as int) =~= a);
    assert(s.skip(a.len() as int + 1) =~= b);
}

/// A text is found where it first stands, and starts a text that it is followed by
/// more of.
pub proof fn law_finding(a: Seq<char>, p: Seq<char>, b: Seq<char>)
    ensures
        text::mentions(a + p + b, p),
        text::begins(p + b, p),
        text::found(a + p + b, p) matches Some(k) && k <= a.len() && (a + p + b).subrange(
            k,
            k + p.len(),
        ) == p,
        p.len() > 0 && (p.len() > b.len() || b.take(p.len() as int) != p) ==> !text::begins(b, p),
{
    let s = a + p + b;
    assert(s.subrange(a.len() as int, a.len() as int + p.len()) =~= p);
    assert(text::occurs_at(s, p, a.len() as int));
    text::lemma_found_from(s, p, 0);
    assert((p + b).take(p.len() as int) =~= p);
}

/// A line ends at a line feed, without that and without a carriage return before it.
/// What stands behind the last line feed is a line where it is not empty.
pub proof fn law_lines(a: Seq<char>, b: Seq<char>)
    requires
        !a.contains('\n'),
    ensures
        a.len() == 0 || a.last() != '\r' ==> text::lines_of(a + seq!['\n'] + b) == seq![a]
            + text::lines_of(b),
        text::lines_of(a + seq!['\r', '\n'] + b) == seq![a] + text::lines_of(b),
        a.len() > 0 ==> text::lines_of(a) == seq![a],
        text::lines_of(Seq::empty()) == Seq::<Seq<char>>::empty(),
{
    assert(a + seq!['\n'] + b =~= a.push('\n') + b);
    text::lemma_lines_append(a.push('\n'), b);
    text::lemma_one_line(a);
    let r = a.push('\r');
    assert(!r.contains('\n')) by {
        if r.contains('\n') {
            let k = r.index_of('\n');
            assert(a[k] == '\n');
        }
    }
    assert(a + seq!['\r', '\n'] + b =~= r.push('\n') + b);
    text::lemma_lines_append(r.push('\n'), b);
    text::lemma_one_line(r);
    assert(r.drop_last() =~= a);
}

proof fn lemma_run_of(a: Seq<char>, b: Seq<char>, space: bool)
    requires
        forall|k: int| 0 <= k < a.len() ==> text::white_space(#[trigger] a[k]) == space,
        b.len() == 0 || text::white_space(b[0]) != space,
    ensures
        text::run(a + b, space) == a.len(),
    decreases a.len(),
{
    let s = a + b;
    if a.len() > 0 {
        assert(s[0] == a[0]);
        assert(s.drop_first() =~= a.drop_first() + b);
        lemma_run_of(a.drop_first(), b, space);
    } else {
        assert(s =~= b);
    }
}

/// Words are parted by white space of any kind and length.
pub proof fn law_words(a: Seq<char>, w: Seq<char>, b: Seq<char>)
    requires
        blank(a),
        w.len() > 0,
        forall|k: int| 0 <= k < w.len() ==> !text::white_space(#[trigger] w[k]),
        b.len() == 0 || text::white_space(b[0]),
    ensures
        text::words_of(a + w + b) == seq![w] + text::words_of(b),
        text::words_of(a) == Seq::<Seq<char>>::empty(),
{
    let s = a + w + b;
    assert(s =~= a + (w + b));
    assert((w + b)[0] == w[0]);
    lemma_run_of(a, w + b, true);
    let t = s.skip(a.len() as int);
    assert(t =~= w + b);
    lemma_run_of(w, b, false);
    assert(t.take(w.len() as int) =~= w);
    assert(t.skip(w.len() as int) =~= b);
    lemma_run_of(a, Seq::empty(), true);
    assert(a + Seq::<char>::empty() =~= a);
    assert(a.skip(a.len() as int) =~= Seq::empty());
}

/// A text is taken apart at each place of a character.
pub proof fn law_pieces(a: Seq<char>, c: char, b: Seq<char>)
    requires
        !a.contains(c),
    ensures
        text::pieces(a + seq![c] + b, seq![c]) == seq![a] + text::pieces(b, seq![c]),
        text::pieces(a, seq![c]) == seq![a],
{
    let s = a + seq![c] + b;
    let n = a.len() as int;
    let p = seq![c];
    assert(s.subrange(n, n + 1) =~= p);
    assert(text::occurs_at(s, p, n));
    text::lemma_found_from(s, p, 0);
    let k = text::found(s, p).unwrap();
    if k < n {
        assert(s.subrange(k, k + 1)[0] == a[k]);
        assert(p[0] == c);
        assert(a.contains(c));
    }
    assert(k == n);
    assert(s.take(n) =~= a);
    assert(s.skip(n + 1) =~= b);
    text::lemma_found_from(a, p, 0);
    if text::found(a, p) is Some {
        let j = text::found(a, p).unwrap();
        assert(a.subrange(j, j + 1)[0] == a[j]);
        assert(p[0] == c);
        assert(a.contains(c));
    }
}

/// Texts are joined in order, with what parts them between each two.
pub proof fn law_joining(parts: Seq<Seq<char>>, last: Seq<char>, sep: Seq<char>)
    ensures
        parts.len() > 0 ==> text::joined(parts.push(last), sep) == text::joined(parts, sep) + sep
            + last,
        text::joined(seq![last], sep) == last,
        text::joined(Seq::empty(), sep) == Seq::<char>::empty(),
{
    assert(parts.push(last).drop_last() =~= parts);
}

/// The decimal notation of a number is that of its tenth with its last digit behind it.
pub proof fn law_digits(n: nat, d: nat)
    requires
        d < 10,
    ensures
        n > 0 ==> numbers::digits(10 * n + d) == numbers::digits(n).push(
            (48 + d) as char,
        ),
        numbers::digits(d) == seq![(48 + d) as char],
{
    let m: nat = 10 * n + d;
    assert(m / 10 == n && m % 10 == d);
}

/// A number may have a sign in front; anything else in it makes it no number.
pub proof fn law_reading_numbers(n: nat, s: Seq<char>, k: int)
    requires
        0 < k < s.len(),
        !('0' <= s[k] <= '9'),
    ensures
        numbers::unsigned_value(numbers::digits(n)) == Some(n as int),
        numbers::unsigned_value(seq!['+'] + numbers::digits(n)) == Some(n as int),
        numbers::unsigned_value(seq!['-'] + numbers::digits(n)) is None,
        numbers::signed_value(seq!['+'] + numbers::digits(n)) == Some(n as int),
        numbers::signed_value(seq!['-'] + numbers::digits(n)) == Some(-(n as int)),
        numbers::signed_value(s) is None,
        numbers::unsigned_value(s) is None,
        numbers::signed_value(Seq::empty()) is None,
{
    numbers::lemma_digits_read(n);
    let d = numbers::digits(n);
    assert(text::ascii_digit(d[0]));
    assert((seq!['+'] + d).drop_first() =~= d);
    assert((seq!['-'] + d).drop_first() =~= d);
    assert((seq!['-'] + d)[0] == '-');
    assert(!text::ascii_digit('-'));
    assert(s.drop_first()[k - 1] == s[k]);
    assert(!text::ascii_digit(s[k]));
}

} // verus!
