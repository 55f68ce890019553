//! Whole numbers written in decimal.

use vstd::prelude::*;
use vstd::string::*;

use crate::text;
use crate::text::{is_ascii_digit, starts_with_char, to_chars};

verus! {

// ---------------------------------------------------------------------------
// Reading
// ---------------------------------------------------------------------------

pub open spec fn all_digits(s: Seq<char>) -> bool {
    forall|k: int| 0 <= k < s.len() ==> text::ascii_digit(#[trigger] s[k])
}

/// The number that a run of decimal digits stands for.
pub open spec fn digits_value(s: Seq<char>) -> int
    decreases s.len(),
{
    if s.len() == 0 {
        0
    } else {
        10 * digits_value(s.drop_last()) + (s.last() as int - '0' as int)
    }
}

/// The number that `s` stands for: digits, at least one, after an optional sign.
pub open spec fn signed_value(s: Seq<char>) -> Option<int> {
    if s.len() > 0 && s[0] == '-' {
        if s.len() > 1 && all_digits(s.drop_first()) {
            Some(-digits_value(s.drop_first()))
        } else {
            None
        }
    } else {
        unsigned_value(s)
    }
}

/// The number that `s` stands for: digits, at least one, after an optional plus.
pub open spec fn unsigned_value(s: Seq<char>) -> Option<int> {
    let d = if s.len() > 0 && s[0] == '+' {
        s.drop_first()
    } else {
        s
    };
    if d.len() > 0 && all_digits(d) {
        Some(digits_value(d))
    } else {
        None
    }
}

/// `v`, if it lies between the bounds.
pub open spec fn within(v: Option<int>, low: int, high: int) -> Option<int> {
    match v {
        Some(n) => if low <= n <= high {
            Some(n)
        } else {
            None
        },
        None => None,
    }
}

proof fn lemma_digits_grow(s: Seq<char>, k: int)
    requires
        0 <= k <= s.len(),
        all_digits(s),
    ensures
        0 <= digits_value(s.take(k)) <= digits_value(s),
    decreases s.len(),
{
    if k == s.len() {
        assert(s.take(k) =~= s);
        if s.len() > 0 {
            lemma_digits_grow(s.drop_last(), s.len() - 1);
            assert(s.drop_last().take(s.len() - 1) =~= s.drop_last());
            assert(text::ascii_digit(s[s.len() - 1]));
        }
    } else {
        lemma_digits_grow(s.drop_last(), k);
        assert(s.drop_last().take(k) =~= s.take(k));
        assert(text::ascii_digit(s[s.len() - 1]));
    }
}

/// The value of the digits `v[from..]`, negated, if it is not below `i128::MIN`.
fn read_digits(v: &Vec<char>, from: usize) -> (r: Option<i128>)
    requires
        from <= v.len(),
    ensures
        match r {
            Some(n) => from < v.len() && all_digits(v@.skip(from as int)) && n == -digits_value(
                v@.skip(from as int),
            ),
            None => from == v.len() || !all_digits(v@.skip(from as int)) || -digits_value(
                v@.skip(from as int),
            ) < i128::MIN,
        },
{
    if from == v.len() {
        return None;
    }
    let ghost d = v@.skip(from as int);
    let mut acc: i128 = 0;
    let mut i: usize = from;
    assert(d.take(0) =~= Seq::empty());
    let mut fits = true;
    while i < v.len()
        invariant
            from <= i <= v.len(),
            d == v@.skip(from as int),
            forall|k: int| 0 <= k < i - from ==> text::ascii_digit(#[trigger] d[k]),
            fits ==> acc == -digits_value(d.take(i - from)),
            !fits ==> (exists|k: int|
                0 <= k <= i - from && i128::MIN > -digits_value(#[trigger] d.take(k))),
        decreases v.len() - i,
    {
        let c = v[i];
        assert(d[i - from] == c);
        if !is_ascii_digit(c) {
            return None;
        }
        assert(d.take(i - from + 1).drop_last() =~= d.take(i - from));
        assert(d.take(i - from + 1).last() == c);
        let digit: i128 = (c as u32 - '0' as u32) as i128;
        if fits {
            match acc.checked_mul(10) {
                Some(m) => match m.checked_sub(digit) {
                    Some(n) => {
                        acc = n;
                    },
                    None => {
                        fits = false;
                        assert(i128::MIN > -digits_value(d.take(i - from + 1)));
                    },
                },
                None => {
                    fits = false;
                    proof {
                        lemma_digits_nonneg(d.take(i - from));
                    }
                    assert(i128::MIN > -digits_value(d.take(i - from + 1)));
                },
            }
        }
        i += 1;
    }
    assert(all_digits(d));
    assert(d.take(d.len() as int) =~= d);
    if fits {
        Some(acc)
    } else {
        proof {
            let k = choose|k: int|
                0 <= k <= d.len() && i128::MIN > -digits_value(#[trigger] d.take(k));
            lemma_digits_grow(d, k);
        }
        None
    }
}

pub proof fn lemma_digits_nonneg(s: Seq<char>)
    requires
        all_digits(s),
    ensures
        digits_value(s) >= 0,
{
    lemma_digits_grow(s, s.len() as int);
    assert(s.take(s.len() as int) =~= s);
}

/// Reads a number as `str::parse::<i128>` does.
pub fn parse_i128(s: &str) -> (r: Option<i128>)
    ensures
        match r {
            Some(n) => within(signed_value(s@), i128::MIN as int, i128::MAX as int) == Some(n as int),
            None => within(signed_value(s@), i128::MIN as int, i128::MAX as int) is None,
        },
{
    let v = to_chars(s);
    if v.len() == 0 {
        return None;
    }
    assert(v@.skip(0) =~= v@);
    assert(v@.skip(1) =~= v@.drop_first());
    if v[0] == '-' {
        let r = read_digits(&v, 1);
        proof {
            if v.len() > 1 && all_digits(v@.drop_first()) {
                lemma_digits_nonneg(v@.drop_first());
            }
        }
        return r;
    }
    let from: usize = if v[0] == '+' { 1 } else { 0 };
    match read_digits(&v, from) {
        Some(n) => if n == i128::MIN { None } else { Some(-n) },
        None => None,
    }
}

/// Reads a number as `str::parse::<i64>` does.
pub fn parse_i64(s: &str) -> (r: Option<i64>)
    ensures
        match r {
            Some(n) => within(signed_value(s@), i64::MIN as int, i64::MAX as int) == Some(n as int),
            None => within(signed_value(s@), i64::MIN as int, i64::MAX as int) is None,
        },
{
    match parse_i128(s) {
        Some(n) => if i64::MIN as i128 <= n && n <= i64::MAX as i128 {
            Some(n as i64)
        } else {
            None
        },
        None => None,
    }
}

/// Reads a number as `str::parse::<i32>` does.
pub fn parse_i32(s: &str) -> (r: Option<i32>)
    ensures
        match r {
            Some(n) => within(signed_value(s@), i32::MIN as int, i32::MAX as int) == Some(n as int),
            None => within(signed_value(s@), i32::MIN as int, i32::MAX as int) is None,
        },
{
    match parse_i128(s) {
        Some(n) => if i32::MIN as i128 <= n && n <= i32::MAX as i128 {
            Some(n as i32)
        } else {
            None
        },
        None => None,
    }
}

/// Reads a number as `str::parse::<usize>` does.
pub fn parse_usize(s: &str) -> (r: Option<usize>)
    ensures
        match r {
            Some(n) => within(unsigned_value(s@), 0, usize::MAX as int) == Some(n as int),
            None => within(unsigned_value(s@), 0, usize::MAX as int) is None,
        },
{
    if starts_with_char(s, '-') {
        assert(!text::ascii_digit(s@[0]));
        return None;
    }
    proof {
        let d = if s@.len() > 0 && s@[0] == '+' { s@.drop_first() } else { s@ };
        if all_digits(d) {
            lemma_digits_nonneg(d);
        }
    }
    match parse_i128(s) {
        Some(n) => if n <= usize::MAX as i128 {
            Some(n as usize)
        } else {
            None
        },
        None => None,
    }
}

// ---------------------------------------------------------------------------
// Writing
// ---------------------------------------------------------------------------

/// The decimal digit of `d`.
pub open spec fn digit(d: int) -> char {
    ('0' as int + d) as char
}

/// The decimal digits of a natural number, without leading zeros.
pub open spec fn digits(n: nat) -> Seq<char>
    decreases n,
{
    if n < 10 {
        seq![digit(n as int)]
    } else {
        digits(n / 10).push(digit((n % 10) as int))
    }
}

/// The decimal notation of an integer.
pub open spec fn decimal(n: int) -> Seq<char> {
    if n < 0 {
        seq!['-'] + digits((-n) as nat)
    } else {
        digits(n as nat)
    }
}

fn digit_char(d: u8) -> (c: char)
    requires
        d < 10,
    ensures
        c == digit(d as int),
{
    (0x30u8 + d) as char
}

fn push_digits(out: &mut String, n: u128)
    ensures
        final(out)@ == old(out)@ + digits(n as nat),
    decreases n,
{
    if n >= 10 {
        push_digits(out, n / 10);
    }
    out.push(digit_char((n % 10) as u8));
    assert(out@ =~= old(out)@ + digits(n as nat));
}

/// Writes a number as `i128::to_string` does.
pub fn i128_to_string(n: i128) -> (s: String)
    ensures
        s@ == decimal(n as int),
{
    let mut s = String::new();
    if n < 0 {
        s.push('-');
        let m: u128 = (-(n + 1)) as u128 + 1;
        push_digits(&mut s, m);
        assert(s@ =~= decimal(n as int));
    } else {
        push_digits(&mut s, n as u128);
        assert(s@ =~= decimal(n as int));
    }
    s
}

/// Writes a number as `u64::to_string` does.
pub fn u64_to_string(n: u64) -> (s: String)
    ensures
        s@ == digits(n as nat),
{
    let mut s = String::new();
    push_digits(&mut s, n as u128);
    assert(s@ =~= digits(n as nat));
    s
}

/// Writes a number as `usize::to_string` does.
pub fn usize_to_string(n: usize) -> (s: String)
    ensures
        s@ == digits(n as nat),
{
    let mut s = String::new();
    push_digits(&mut s, n as u128);
    assert(s@ =~= digits(n as nat));
    s
}

/// `s` with characters `c` put before it until it is `width` long.
pub open spec fn padded(s: Seq<char>, width: nat, c: char) -> Seq<char> {
    if s.len() >= width {
        s
    } else {
        Seq::new((width - s.len()) as nat, |i: int| c) + s
    }
}

pub fn pad(s: &str, width: usize, c: char) -> (r: String)
    ensures
        r@ == padded(s@, width as nat, c),
{
    let n: usize = s.unicode_len();
    let mut r = String::new();
    let mut i: usize = n;
    while i < width
        invariant
            n == s@.len(),
            n <= i,
            i <= width || i == n,
            r@ == Seq::new((i - n) as nat, |k: int| c),
        decreases width - i,
    {
        r.push(c);
        i += 1;
        assert(r@ =~= Seq::new((i - n) as nat, |k: int| c));
    }
    r.append(s);
    assert(r@ =~= padded(s@, width as nat, c));
    r
}

// ---------------------------------------------------------------------------
// Reading what was written
// ---------------------------------------------------------------------------

pub proof fn lemma_digits_read(n: nat)
    ensures
        digits(n).len() > 0,
        all_digits(digits(n)),
        digits_value(digits(n)) == n,
    decreases n,
{
    if n < 10 {
        assert(digits(n).drop_last() =~= Seq::empty());
        assert(digits_value(digits(n).drop_last()) == 0);
    } else {
        lemma_digits_read(n / 10);
        assert(digits(n).drop_last() =~= digits(n / 10));
    }
}

/// Reading the decimal notation of an integer gives the integer back.
pub proof fn law_decimal_read_back(n: int)
    ensures
        signed_value(decimal(n)) == Some(n),
{
    let m = if n < 0 { (-n) as nat } else { n as nat };
    lemma_digits_read(m);
    if n < 0 {
        assert(decimal(n).drop_first() =~= digits(m));
    } else {
        assert(text::ascii_digit(digits(m)[0]));
    }
}

/// Two integers with the same decimal notation are the same.
pub proof fn law_decimal_distinguishes(a: int, b: int)
    requires
        decimal(a) == decimal(b),
    ensures
        a == b,
{
    law_decimal_read_back(a);
    law_decimal_read_back(b);
}

} // verus!
