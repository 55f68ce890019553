//! Brace expansion: `{a,b,c}` and the ranges `{1..10}` and `{a..e}`.

use vstd::prelude::*;
use vstd::string::*;

use crate::numbers;
use crate::numbers::{i128_to_string, pad, parse_i128, parse_i64};
use crate::text;
use crate::text::{byte_offset, char_index, from_range, owned, starts_with_char, to_chars};

verus! {

// ---------------------------------------------------------------------------
// Quotation
// ---------------------------------------------------------------------------

/// Where a scan stands with regard to quotes and backslashes.
#[derive(Debug, Clone, Copy, PartialEq, Eq, Structural)]
pub struct Scan {
    pub single: bool,
    pub double: bool,
    pub escaped: bool,
}

pub open spec fn unquoted() -> Scan {
    Scan { single: false, double: false, escaped: false }
}

/// How the scan stands behind `c`.
pub open spec fn scanned(q: Scan, c: char) -> Scan {
    if q.escaped {
        Scan { escaped: false, ..q }
    } else if q.single {
        Scan { single: c != '\'', ..q }
    } else if q.double {
        Scan { escaped: c == '\\', double: c != '"', ..q }
    } else {
        Scan { escaped: c == '\\', single: c == '\'', double: c == '"' }
    }
}

fn scan(q: Scan, c: char) -> (r: Scan)
    ensures
        r == scanned(q, c),
{
    if q.escaped {
        Scan { escaped: false, single: q.single, double: q.double }
    } else if q.single {
        Scan { single: c != '\'', double: q.double, escaped: q.escaped }
    } else if q.double {
        Scan { escaped: c == '\\', double: c != '"', single: q.single }
    } else {
        Scan { escaped: c == '\\', single: c == '\'', double: c == '"' }
    }
}

// ---------------------------------------------------------------------------
// The group
// ---------------------------------------------------------------------------

/// The first opening brace at or after `i` that is not quoted.
pub open spec fn open_from(s: Seq<char>, i: int, q: Scan) -> Option<int>
    decreases s.len() - i,
{
    if i < 0 || i >= s.len() {
        None
    } else if q == unquoted() && s[i] == '{' {
        Some(i)
    } else {
        open_from(s, i + 1, scanned(q, s[i]))
    }
}

/// The closing brace for the `depth` groups that are open at `i`.
pub open spec fn close_from(s: Seq<char>, i: int, depth: nat, q: Scan) -> Option<int>
    decreases s.len() - i,
{
    if i < 0 || i >= s.len() {
        None
    } else if q == unquoted() && s[i] == '{' {
        close_from(s, i + 1, depth + 1, q)
    } else if q == unquoted() && s[i] == '}' {
        if depth <= 1 {
            Some(i)
        } else {
            close_from(s, i + 1, (depth - 1) as nat, q)
        }
    } else {
        close_from(s, i + 1, depth, scanned(q, s[i]))
    }
}

/// The parts that `delim` separates, where it is neither quoted nor inside a
/// group. `depth` groups are open at `i`, and `part` has been read of the part
/// that goes on there.
pub open spec fn parts_from(
    s: Seq<char>,
    i: int,
    delim: char,
    depth: nat,
    q: Scan,
    part: Seq<char>,
) -> Seq<Seq<char>>
    decreases s.len() - i,
{
    if i < 0 || i >= s.len() {
        seq![part]
    } else {
        let c = s[i];
        if q != unquoted() || c == '\\' || c == '\'' || c == '"' {
            parts_from(s, i + 1, delim, depth, scanned(q, c), part.push(c))
        } else if c == '{' {
            parts_from(s, i + 1, delim, depth + 1, q, part.push(c))
        } else if c == '}' {
            let left = if depth > 0 {
                (depth - 1) as nat
            } else {
                0
            };
            parts_from(s, i + 1, delim, left, q, part.push(c))
        } else if c == delim && depth == 0 {
            seq![part] + parts_from(s, i + 1, delim, depth, q, Seq::empty())
        } else {
            parts_from(s, i + 1, delim, depth, q, part.push(c))
        }
    }
}

/// The parts of `s` that `delim` separates.
pub open spec fn parts_of(s: Seq<char>, delim: char) -> Seq<Seq<char>> {
    parts_from(s, 0, delim, 0, unquoted(), Seq::empty())
}

pub proof fn lemma_open_from(s: Seq<char>, i: int, q: Scan)
    ensures
        open_from(s, i, q) matches Some(k) ==> i <= k < s.len() && s[k] == '{',
    decreases s.len() - i,
{
    if 0 <= i < s.len() && !(q == unquoted() && s[i] == '{') {
        lemma_open_from(s, i + 1, scanned(q, s[i]));
    }
}

pub proof fn lemma_close_from(s: Seq<char>, i: int, depth: nat, q: Scan)
    ensures
        close_from(s, i, depth, q) matches Some(k) ==> i <= k < s.len() && s[k] == '}',
    decreases s.len() - i,
{
    if 0 <= i < s.len() {
        if q == unquoted() && s[i] == '{' {
            lemma_close_from(s, i + 1, depth + 1, q);
        } else if q == unquoted() && s[i] == '}' {
            if depth > 1 {
                lemma_close_from(s, i + 1, (depth - 1) as nat, q);
            }
        } else {
            lemma_close_from(s, i + 1, depth, scanned(q, s[i]));
        }
    }
}

fn open_index(v: &Vec<char>) -> (r: Option<usize>)
    ensures
        match r {
            Some(k) => open_from(v@, 0, unquoted()) == Some(k as int),
            None => open_from(v@, 0, unquoted()) is None,
        },
{
    let mut q = Scan { single: false, double: false, escaped: false };
    let mut i: usize = 0;
    while i < v.len()
        invariant
            i <= v.len(),
            open_from(v@, i as int, q) == open_from(v@, 0, unquoted()),
        decreases v.len() - i,
    {
        let c = v[i];
        if !q.single && !q.double && !q.escaped && c == '{' {
            return Some(i);
        }
        q = scan(q, c);
        i += 1;
    }
    None
}

fn close_index(v: &Vec<char>, from: usize) -> (r: Option<usize>)
    requires
        0 < from <= v.len(),
    ensures
        match r {
            Some(k) => close_from(v@, from as int, 1, unquoted()) == Some(k as int),
            None => close_from(v@, from as int, 1, unquoted()) is None,
        },
{
    let mut q = Scan { single: false, double: false, escaped: false };
    let mut depth: usize = 1;
    let mut i: usize = from;
    while i < v.len()
        invariant
            0 < from <= i <= v.len(),
            1 <= depth <= 1 + i - from,
            close_from(v@, i as int, depth as nat, q) == close_from(
                v@,
                from as int,
                1,
                unquoted(),
            ),
        decreases v.len() - i,
    {
        let c = v[i];
        let plain = !q.single && !q.double && !q.escaped;
        if plain && c == '{' {
            depth += 1;
        } else if plain && c == '}' {
            if depth == 1 {
                return Some(i);
            }
            depth -= 1;
        } else {
            q = scan(q, c);
        }
        i += 1;
    }
    None
}

/// Where the first opening brace of `s` that is not quoted stands, counted in
/// bytes.
pub fn find_brace_open(s: &str) -> (r: Option<usize>)
    ensures
        match r {
            Some(at) => open_from(s@, 0, unquoted()) matches Some(k) && at == text::byte_len(
                s@.take(k),
            ),
            None => open_from(s@, 0, unquoted()) is None,
        },
{
    let v = to_chars(s);
    proof {
        lemma_open_from(s@, 0, unquoted());
    }
    match open_index(&v) {
        Some(k) => Some(byte_offset(s, k)),
        None => None,
    }
}

/// Where the brace stands that closes the one at byte `open`, counted in bytes.
pub fn find_matching_brace(s: &str, open: usize) -> (r: Option<usize>)
    requires
        text::boundary(s@, open + 1),
    ensures
        match r {
            Some(at) => close_from(s@, text::index_at(s@, open + 1), 1, unquoted()) matches Some(k)
                && at == text::byte_len(s@.take(k)),
            None => close_from(s@, text::index_at(s@, open + 1), 1, unquoted()) is None,
        },
{
    let v = to_chars(s);
    let total: usize = s.as_bytes().len();
    proof {
        let k = text::index_at(s@, open + 1);
        assert(s@.take(s@.len() as int) =~= s@);
        text::lemma_byte_len_grows(s@, k, s@.len() as int);
        assert(s@.take(0) =~= Seq::<char>::empty());
    }
    assert(open < total);
    let from = char_index(s, open + 1);
    proof {
        if from == 0 {
            assert(s@.take(0) =~= Seq::<char>::empty());
        }
        lemma_close_from(s@, from as int, 1, unquoted());
    }
    match close_index(&v, from) {
        Some(k) => Some(byte_offset(s, k)),
        None => None,
    }
}

/// The parts of `s` that `delim` separates, where it is neither quoted nor
/// inside a group.
pub fn split_top_level(s: &str, delim: char) -> (r: Vec<String>)
    ensures
        text::texts(r@) == parts_of(s@, delim),
{
    let v = to_chars(s);
    let mut parts: Vec<String> = Vec::new();
    let mut part = String::new();
    let mut depth: usize = 0;
    let mut q = Scan { single: false, double: false, escaped: false };
    let mut i: usize = 0;
    assert(text::texts(parts@) + parts_from(v@, 0, delim, 0, unquoted(), part@) =~= parts_of(
        s@,
        delim,
    ));
    while i < v.len()
        invariant
            v@ == s@,
            i <= v.len(),
            depth <= i,
            text::texts(parts@) + parts_from(v@, i as int, delim, depth as nat, q, part@)
                == parts_of(s@, delim),
        decreases v.len() - i,
    {
        broadcast use text::texts_push;
        let c = v[i];
        let ghost before = text::texts(parts@);
        let ghost rest = parts_from(v@, i as int, delim, depth as nat, q, part@);
        let plain = !q.single && !q.double && !q.escaped;
        if !plain || c == '\\' || c == '\'' || c == '"' {
            part.push(c);
            q = scan(q, c);
        } else if c == '{' {
            part.push(c);
            depth += 1;
        } else if c == '}' {
            part.push(c);
            if depth > 0 {
                depth -= 1;
            }
        } else if c == delim && depth == 0 {
            parts.push(part);
            part = String::new();
        } else {
            part.push(c);
        }
        i += 1;
        assert(text::texts(parts@) + parts_from(v@, i as int, delim, depth as nat, q, part@)
            =~= before + rest);
    }
    proof {
        broadcast use text::texts_push;
        let before = text::texts(parts@);
        assert(before + seq![part@] =~= before.push(part@));
    }
    parts.push(part);
    assert(text::texts(parts@) =~= parts_of(s@, delim)) by {
        broadcast use text::texts_push;
    }
    parts
}

// ---------------------------------------------------------------------------
// Ranges
// ---------------------------------------------------------------------------

/// A range with more items than this is left as it is written.
pub const MAX_ITEMS: usize = 100_000;

/// The integers from `a` to `b`, both included as far as the steps reach them.
/// There are none to give if the step is zero, if it leads away from `b`, if
/// there are too many of them, or if the number behind the last does not fit.
pub open spec fn integers(a: int, b: int, step: int) -> Option<Seq<int>> {
    let d = if step < 0 {
        -step
    } else {
        step
    };
    if step == 0 || (a <= b && step < 0) {
        None
    } else if a <= b {
        let n = (b - a) / d + 1;
        if n > MAX_ITEMS || a + n * d > i128::MAX {
            None
        } else {
            Some(Seq::new(n as nat, |k: int| a + k * d))
        }
    } else {
        let n = (a - b) / d + 1;
        if n > MAX_ITEMS || a - n * d < i128::MIN {
            None
        } else {
            Some(Seq::new(n as nat, |k: int| a - k * d))
        }
    }
}

/// Whether `c` is the number of a character.
pub open spec fn scalar(c: int) -> bool {
    0 <= c <= 0xd7ff || 0xe000 <= c <= 0x10ffff
}

/// The number of the character that follows `c` in steps of `step`, which goes
/// round at 32 bits.
pub open spec fn stepped(c: int, step: int) -> int {
    (c + step) % 0x1_0000_0000
}

/// The characters from number `c` to number `b`, upwards or downwards, each as
/// a text. They end before a number that is none of a character; `room` is how
/// many there may still be. Upwards, a step beyond 32 bits gives up.
pub open spec fn characters(c: int, b: int, step: int, up: bool, room: nat) -> Option<
    Seq<Seq<char>>,
>
    decreases room,
{
    if !scalar(c) || (up && c > b) || (!up && c < b) {
        Some(Seq::empty())
    } else if room == 0 || (up && c + step % 0x1_0000_0000 > u32::MAX) {
        None
    } else {
        match characters(stepped(c, step), b, step, up, (room - 1) as nat) {
            Some(rest) => Some(seq![seq![c as char]] + rest),
            None => None,
        }
    }
}

/// The step that `t` gives, or one if it gives none.
pub open spec fn step_of(t: Option<Seq<char>>, low: int, high: int) -> int {
    match t {
        Some(s) => match numbers::within(numbers::signed_value(s), low, high) {
            Some(n) => n,
            None => 1,
        },
        None => 1,
    }
}

/// The number that the end of a range stands for.
pub open spec fn bound_of(s: Seq<char>) -> Option<int> {
    numbers::within(numbers::signed_value(s), i128::MIN as int, i128::MAX as int)
}

pub open spec fn longer(a: nat, b: nat) -> nat {
    if a >= b {
        a
    } else {
        b
    }
}

/// The notation of `n` in a range from `start` to `end`: an end that starts
/// with a zero asks for leading zeros.
pub open spec fn item(n: int, start: Seq<char>, end: Seq<char>) -> Seq<char> {
    if (start.len() > 0 && start[0] == '0') || (end.len() > 0 && end[0] == '0') {
        numbers::padded(numbers::decimal(n), longer(start.len(), end.len()), '0')
    } else {
        numbers::decimal(n)
    }
}

/// The items of the range from `start` to `end`, if it is one.
pub open spec fn range(start: Seq<char>, end: Seq<char>, step: Option<Seq<char>>) -> Option<
    Seq<Seq<char>>,
> {
    match (bound_of(start), bound_of(end)) {
        (Some(a), Some(b)) => match integers(
            a,
            b,
            step_of(step, i128::MIN as int, i128::MAX as int),
        ) {
            Some(ns) => Some(ns.map_values(|n: int| item(n, start, end))),
            None => None,
        },
        _ => if start.len() == 1 && end.len() == 1 {
            let n = step_of(step, i64::MIN as int, i64::MAX as int);
            let d = if start[0] > end[0] && n > 0 {
                -n
            } else {
                n
            };
            if n == 0 || (start[0] <= end[0] && n < 0) {
                None
            } else {
                characters(
                    start[0] as int,
                    end[0] as int,
                    d,
                    start[0] <= end[0],
                    MAX_ITEMS as nat,
                )
            }
        } else {
            None
        },
    }
}

/// The items of the range that the content of a group stands for, if it is one.
pub open spec fn sequence(content: Seq<char>) -> Option<Seq<Seq<char>>> {
    let p = text::pieces(content, ".."@);
    if p.len() == 2 {
        range(p[0], p[1], None)
    } else if p.len() == 3 {
        range(p[0], p[1], Some(p[2]))
    } else {
        None
    }
}

/// `char::from_u32` gives the character with the number `i`; numbers of
/// surrogates, and those above the last character, have none.
pub assume_specification[ char::from_u32 ](i: u32) -> (r: Option<char>)
    ensures
        match r {
            Some(c) => c as int == i as int,
            None => !(0 <= i <= 0xd7ff || 0xe000 <= i <= 0x10ffff),
        },
;

/// The text of one character.
fn char_text(c: char) -> (s: String)
    ensures
        s@ == seq![c],
{
    let mut s = String::new();
    s.push(c);
    assert(s@ =~= seq![c]);
    s
}

fn parse_step_i128(step: Option<&str>) -> (n: i128)
    ensures
        n == step_of(
            (match step {
                Some(t) => Some(t@),
                None => None,
            }),
            i128::MIN as int,
            i128::MAX as int,
        ),
{
    match step {
        Some(t) => match parse_i128(t) {
            Some(n) => n,
            None => 1,
        },
        None => 1,
    }
}

fn parse_step_i64(step: Option<&str>) -> (n: i64)
    ensures
        n == step_of(
            (match step {
                Some(t) => Some(t@),
                None => None,
            }),
            i64::MIN as int,
            i64::MAX as int,
        ),
{
    match step {
        Some(t) => match parse_i64(t) {
            Some(n) => n,
            None => 1,
        },
        None => 1,
    }
}

proof fn lemma_division(x: int, d: int, k: int)
    requires
        x >= 0,
        d > 0,
        k >= 0,
    ensures
        k * d <= x <==> k <= x / d,
        (k + 1) * d == k * d + d,
        k * d >= 0,
{
    vstd::arithmetic::div_mod::lemma_fundamental_div_mod(x, d);
    assert(k * d <= x <==> k <= x / d) by (nonlinear_arith)
        requires
            x == d * (x / d) + x % d,
            0 <= x % d < d,
            d > 0,
            k >= 0,
    ;
    assert((k + 1) * d == k * d + d) by (nonlinear_arith);
    assert(k * d >= 0) by (nonlinear_arith)
        requires
            k >= 0,
            d > 0,
    ;
}

/// The integers of a range, in order.
fn integer_range(a: i128, b: i128, step: i128) -> (r: Option<Vec<i128>>)
    ensures
        match r {
            Some(v) => integers(a as int, b as int, step as int) matches Some(ns) && v.len()
                == ns.len() && forall|k: int| 0 <= k < ns.len() ==> v@[k] == #[trigger] ns[k],
            None => integers(a as int, b as int, step as int) is None,
        },
{
    if step == 0 || (a <= b && step < 0) {
        return None;
    }
    let ghost d = if step < 0 {
        -step
    } else {
        step as int
    };
    let up = a <= b;
    let delta: i128 = if up || step < 0 {
        step
    } else {
        -step
    };
    let ghost gap = if up {
        b - a
    } else {
        a - b
    };
    let mut out: Vec<i128> = Vec::new();
    let mut v: i128 = a;
    proof {
        lemma_division(gap, d, 0);
    }
    while (up && v <= b) || (!up && v >= b)
        invariant
            d > 0,
            up == (a <= b),
            d == (if step < 0 {
                -step
            } else {
                step as int
            }),
            delta == (if up {
                d
            } else {
                -d
            }),
            step != 0,
            up ==> step > 0,
            gap == (if up {
                b - a
            } else {
                a - b
            }),
            v == (if up {
                a + out@.len() * d
            } else {
                a - out@.len() * d
            }),
            out@.len() <= MAX_ITEMS,
            out@.len() <= gap / d + 1,
            forall|k: int|
                0 <= k < out@.len() ==> #[trigger] out@[k] == (if up {
                    a + k * d
                } else {
                    a - k * d
                }),
        decreases MAX_ITEMS - out@.len(),
    {
        proof {
            lemma_division(gap, d, out@.len() as int);
        }
        if out.len() >= MAX_ITEMS {
            return None;
        }
        out.push(v);
        proof {
            lemma_division(gap, d, out@.len() as int);
        }
        match v.checked_add(delta) {
            Some(w) => {
                v = w;
            },
            None => {
                proof {
                    let n = gap / d + 1;
                    assert(n * d >= out@.len() * d) by (nonlinear_arith)
                        requires
                            n >= out@.len(),
                            d > 0,
                    ;
                }
                return None;
            },
        }
    }
    proof {
        lemma_division(gap, d, out@.len() as int);
    }
    Some(out)
}

/// The number that follows `c`, and whether 32 bits were too few for it.
fn step_number(c: u32, step: i64) -> (r: (u32, bool))
    ensures
        r.0 == stepped(c as int, step as int),
        r.1 == (c + step as int % 0x1_0000_0000 > u32::MAX),
{
    // The step modulo 2^32, computed without a negative operand.
    let stride: u64 = ((step as i128 + 0x8000_0000_0000_0000i128) as u64) % 0x1_0000_0000u64;
    let next: u64 = c as u64 + stride;
    ((next % 0x1_0000_0000u64) as u32, next > u32::MAX as u64)
}

/// The characters of a range, each as a text.
fn char_range(a: char, b: char, step: i64) -> (r: Option<Vec<String>>)
    ensures
        match r {
            Some(v) => characters(
                a as int,
                b as int,
                step as int,
                a <= b,
                MAX_ITEMS as nat,
            ) == Some(text::texts(v@)),
            None => characters(
                a as int,
                b as int,
                step as int,
                a <= b,
                MAX_ITEMS as nat,
            ) is None,
        },
{
    let up = a <= b;
    let ghost whole = characters(a as int, b as int, step as int, up, MAX_ITEMS as nat);
    let mut out: Vec<String> = Vec::new();
    let mut c: u32 = a as u32;
    loop
        invariant
            up == (a <= b),
            out@.len() <= MAX_ITEMS,
            whole == characters(a as int, b as int, step as int, up, MAX_ITEMS as nat),
            ({
                let rest = characters(
                    c as int,
                    b as int,
                    step as int,
                    up,
                    (MAX_ITEMS - out@.len()) as nat,
                );
                match rest {
                    Some(more) => whole == Some(text::texts(out@) + more),
                    None => whole is None,
                }
            }),
        decreases MAX_ITEMS - out@.len(),
    {
        broadcast use text::texts_push;
        let ghost before = text::texts(out@);
        let ch = match char::from_u32(c) {
            Some(ch) => ch,
            None => {
                assert(before + Seq::empty() =~= before);
                return Some(out);
            },
        };
        proof {
            vstd::utf8::char_is_scalar(ch);
        }
        assert(c as char == ch);
        if (up && ch > b) || (!up && ch < b) {
            assert(before + Seq::empty() =~= before);
            return Some(out);
        }
        if out.len() >= MAX_ITEMS {
            return None;
        }
        let (next, over) = step_number(c, step);
        if up && over {
            return None;
        }
        out.push(char_text(ch));
        let ghost rest = characters(
            stepped(c as int, step as int),
            b as int,
            step as int,
            up,
            (MAX_ITEMS - out@.len()) as nat,
        );
        proof {
            if let Some(more) = rest {
                assert(text::texts(out@) + more =~= before + (seq![seq![ch]] + more));
            }
        }
        c = next;
    }
}

/// The items of the range from `start` to `end`, if it is one.
pub fn seq_range(start: &str, end: &str, step: Option<&str>) -> (r: Option<Vec<String>>)
    ensures
        match r {
            Some(v) => range(
                start@,
                end@,
                (match step {
                    Some(t) => Some(t@),
                    None => None,
                }),
            ) == Some(text::texts(v@)),
            None => range(
                start@,
                end@,
                (match step {
                    Some(t) => Some(t@),
                    None => None,
                }),
            ) is None,
        },
{
    let first = parse_i128(start);
    let last = parse_i128(end);
    match (first, last) {
        (Some(a), Some(b)) => {
            let by = parse_step_i128(step);
            let ghost ns = integers(a as int, b as int, by as int);
            match integer_range(a, b, by) {
                None => None,
                Some(values) => {
                    let zeros = starts_with_char(start, '0') || starts_with_char(end, '0');
                    let m: usize = start.unicode_len();
                    let n: usize = end.unicode_len();
                    let width: usize = if m >= n {
                        m
                    } else {
                        n
                    };
                    let mut out: Vec<String> = Vec::new();
                    let mut i: usize = 0;
                    while i < values.len()
                        invariant
                            i <= values@.len(),
                            out@.len() == i,
                            width == longer(start@.len(), end@.len()),
                            zeros == ((start@.len() > 0 && start@[0] == '0') || (end@.len() > 0
                                && end@[0] == '0')),
                            forall|k: int|
                                0 <= k < i ==> (#[trigger] out@[k])@ == item(
                                    values@[k] as int,
                                    start@,
                                    end@,
                                ),
                        decreases values@.len() - i,
                    {
                        let s = i128_to_string(values[i]);
                        if zeros {
                            out.push(pad(s.as_str(), width, '0'));
                        } else {
                            out.push(s);
                        }
                        i += 1;
                    }
                    assert(text::texts(out@) =~= ns->0.map_values(|n: int| item(n, start@, end@)));
                    Some(out)
                },
            }
        },
        _ => {
            let x = to_chars(start);
            let y = to_chars(end);
            if x.len() == 1 && y.len() == 1 {
                let n = parse_step_i64(step);
                if n == 0 || (x[0] <= y[0] && n < 0) {
                    return None;
                }
                let d = if x[0] > y[0] && n > 0 {
                    -n
                } else {
                    n
                };
                char_range(x[0], y[0], d)
            } else {
                None
            }
        },
    }
}

/// The items of the range that the content of a group stands for, if it is one.
pub fn brace_sequence(content: &str) -> (r: Option<Vec<String>>)
    ensures
        match r {
            Some(v) => sequence(content@) == Some(text::texts(v@)),
            None => sequence(content@) is None,
        },
{
    proof {
        reveal_strlit("..");
    }
    let parts = crate::text::split_on(content, "..");
    assert(text::texts(parts@).len() == parts@.len());
    if parts.len() == 2 {
        assert(text::texts(parts@)[0] == parts@[0]@ && text::texts(parts@)[1] == parts@[1]@);
        seq_range(parts[0].as_str(), parts[1].as_str(), None)
    } else if parts.len() == 3 {
        assert(text::texts(parts@)[0] == parts@[0]@ && text::texts(parts@)[1] == parts@[1]@
            && text::texts(parts@)[2] == parts@[2]@);
        seq_range(parts[0].as_str(), parts[1].as_str(), Some(parts[2].as_str()))
    } else {
        None
    }
}

// ---------------------------------------------------------------------------
// Expansion
// ---------------------------------------------------------------------------

/// What the content of a group can be replaced with: the items of a range, or
/// the parts, two or more, that commas separate.
pub open spec fn alternatives(content: Seq<char>) -> Option<Seq<Seq<char>>> {
    match sequence(content) {
        Some(items) => Some(items),
        None => {
            let parts = parts_of(content, ',');
            if parts.len() >= 2 {
                Some(parts)
            } else {
                None
            }
        },
    }
}

/// The words that `s` expands to. Its first group is replaced with each of its
/// alternatives in turn, and the words that come of this are expanded in turn.
/// A brace that starts no group stays, and expansion goes on behind it.
pub open spec fn expansions(s: Seq<char>) -> Seq<Seq<char>>
    decreases s.len(), 0nat,
{
    proof {
        lemma_open_from(s, 0, unquoted());
        if let Some(open) = open_from(s, 0, unquoted()) {
            lemma_close_from(s, open + 1, 1, unquoted());
        }
    }
    match open_from(s, 0, unquoted()) {
        None => seq![s],
        Some(open) => match close_from(s, open + 1, 1, unquoted()) {
            None => seq![s],
            Some(close) => match alternatives(s.subrange(open + 1, close)) {
                Some(parts) => expanded_parts(
                    s.take(open),
                    parts,
                    s.skip(close + 1),
                    (s.len() - 1) as nat,
                ),
                None => expansions(s.skip(open + 1)).map_values(
                    |rest: Seq<char>| s.take(open).push('{') + rest,
                ),
            },
        },
    }
}

/// The words that each part expands to between `prefix` and `suffix`. No such
/// word is longer than `bound`, since a part is never longer than the group it
/// comes from (`lemma_alternatives_short`).
pub open spec fn expanded_parts(
    prefix: Seq<char>,
    parts: Seq<Seq<char>>,
    suffix: Seq<char>,
    bound: nat,
) -> Seq<Seq<char>>
    decreases bound, parts.len(),
{
    if parts.len() == 0 {
        Seq::empty()
    } else {
        let word = prefix + parts[0] + suffix;
        let here = if word.len() <= bound {
            expansions(word)
        } else {
            seq![word]
        };
        here + expanded_parts(prefix, parts.drop_first(), suffix, bound)
    }
}

proof fn lemma_joined_first(parts: Seq<Seq<char>>, sep: Seq<char>)
    requires
        parts.len() >= 2,
    ensures
        text::joined(parts, sep) == parts[0] + sep + text::joined(parts.drop_first(), sep),
    decreases parts.len(),
{
    if parts.len() == 2 {
        assert(text::joined(parts.drop_last(), sep) == parts[0]);
        assert(text::joined(parts.drop_first(), sep) == parts[1]);
    } else {
        lemma_joined_first(parts.drop_last(), sep);
        assert(parts.drop_last().drop_first() =~= parts.drop_first().drop_last());
        assert(text::joined(parts, sep) =~= parts[0] + sep + text::joined(
            parts.drop_first(),
            sep,
        ));
    }
}

proof fn lemma_joined_part(parts: Seq<Seq<char>>, sep: Seq<char>, k: int)
    requires
        0 <= k < parts.len(),
    ensures
        parts[k].len() <= text::joined(parts, sep).len(),
    decreases parts.len(),
{
    if parts.len() > 1 && k < parts.len() - 1 {
        lemma_joined_part(parts.drop_last(), sep, k);
    }
}

proof fn lemma_parts_joined(
    s: Seq<char>,
    i: int,
    delim: char,
    depth: nat,
    q: Scan,
    part: Seq<char>,
)
    requires
        0 <= i <= s.len(),
    ensures
        parts_from(s, i, delim, depth, q, part).len() >= 1,
        text::joined(parts_from(s, i, delim, depth, q, part), seq![delim]) == part + s.skip(i),
    decreases s.len() - i,
{
    let parts = parts_from(s, i, delim, depth, q, part);
    if i >= s.len() {
        assert(part + s.skip(i) =~= part);
    } else {
        let c = s[i];
        assert(part.push(c) + s.skip(i + 1) =~= part + s.skip(i));
        if q != unquoted() || c == '\\' || c == '\'' || c == '"' {
            lemma_parts_joined(s, i + 1, delim, depth, scanned(q, c), part.push(c));
        } else if c == '{' {
            lemma_parts_joined(s, i + 1, delim, depth + 1, q, part.push(c));
        } else if c == '}' {
            let left = if depth > 0 {
                (depth - 1) as nat
            } else {
                0
            };
            lemma_parts_joined(s, i + 1, delim, left, q, part.push(c));
        } else if c == delim && depth == 0 {
            lemma_parts_joined(s, i + 1, delim, depth, q, Seq::empty());
            lemma_joined_first(parts, seq![delim]);
            assert(parts.drop_first() =~= parts_from(s, i + 1, delim, depth, q, Seq::empty()));
            assert(part + seq![delim] + (Seq::empty() + s.skip(i + 1)) =~= part + s.skip(i));
        } else {
            lemma_parts_joined(s, i + 1, delim, depth, q, part.push(c));
        }
    }
}

/// Splitting loses nothing: the parts, joined with the delimiter, are the text
/// that was split.
pub proof fn law_parts_join_back(s: Seq<char>, delim: char)
    ensures
        parts_of(s, delim).len() >= 1,
        text::joined(parts_of(s, delim), seq![delim]) == s,
{
    lemma_parts_joined(s, 0, delim, 0, unquoted(), Seq::empty());
    assert(Seq::empty() + s.skip(0) =~= s);
}

proof fn lemma_pieces_joined(s: Seq<char>, sep: Seq<char>)
    requires
        sep.len() > 0,
    ensures
        text::pieces(s, sep).len() >= 1,
        text::joined(text::pieces(s, sep), sep) == s,
    decreases s.len(),
{
    text::lemma_found_from(s, sep, 0);
    if let Some(k) = text::found(s, sep) {
        let rest = s.skip(k + sep.len());
        let all = text::pieces(s, sep);
        lemma_pieces_joined(rest, sep);
        lemma_joined_first(all, sep);
        assert(all.drop_first() =~= text::pieces(rest, sep));
        assert(s.subrange(k, k + sep.len()) == sep);
        assert(s.take(k) + sep + rest =~= s);
    }
}

proof fn lemma_digits_len(n: nat, m: nat)
    requires
        n <= m,
    ensures
        1 <= numbers::digits(n).len() <= numbers::digits(m).len(),
    decreases m,
{
    if m >= 10 {
        if n >= 10 {
            lemma_digits_len(n / 10, m / 10);
        } else {
            lemma_digits_len(0, m / 10);
        }
    }
}

proof fn lemma_value_len(d: Seq<char>)
    requires
        d.len() > 0,
        numbers::all_digits(d),
    ensures
        numbers::digits_value(d) >= 0,
        numbers::digits(numbers::digits_value(d) as nat).len() <= d.len(),
    decreases d.len(),
{
    assert(text::ascii_digit(d[d.len() - 1]));
    if d.len() == 1 {
        assert(d.drop_last() =~= Seq::empty());
        assert(numbers::digits_value(d.drop_last()) == 0);
    } else {
        lemma_value_len(d.drop_last());
        let v = numbers::digits_value(d);
        if v >= 10 {
            assert(v / 10 == numbers::digits_value(d.drop_last()));
        }
    }
}

proof fn lemma_bound_len(s: Seq<char>)
    requires
        numbers::signed_value(s) is Some,
    ensures
        1 <= numbers::decimal(numbers::signed_value(s)->0).len() <= s.len(),
{
    let v = numbers::signed_value(s)->0;
    if s[0] == '-' || s[0] == '+' {
        lemma_value_len(s.drop_first());
        lemma_digits_len(0, 0);
    } else {
        lemma_value_len(s);
    }
    if v < 0 {
        lemma_digits_len((-v) as nat, (-v) as nat);
    } else {
        lemma_digits_len(v as nat, v as nat);
    }
}

/// A number between two others is not longer than the longer of them.
proof fn lemma_between_len(a: int, b: int, v: int)
    requires
        a <= v <= b || b <= v <= a,
    ensures
        numbers::decimal(v).len() <= longer(numbers::decimal(a).len(), numbers::decimal(b).len()),
{
    let low = if a <= b {
        a
    } else {
        b
    };
    let high = if a <= b {
        b
    } else {
        a
    };
    if v < 0 {
        lemma_digits_len((-v) as nat, (-low) as nat);
    } else {
        lemma_digits_len(v as nat, high as nat);
    }
}

/// The integers of a range lie between its ends.
pub proof fn law_integers_lie_between(a: int, b: int, step: int, k: int)
    requires
        integers(a, b, step) matches Some(ns) && 0 <= k < ns.len(),
    ensures
        ({
            let n = integers(a, b, step)->0[k];
            a <= n <= b || b <= n <= a
        }),
{
    let d = if step < 0 {
        -step
    } else {
        step
    };
    if a <= b {
        lemma_division(b - a, d, k);
    } else {
        lemma_division(a - b, d, k);
    }
}

proof fn lemma_characters_len(c: int, b: int, step: int, up: bool, room: nat)
    ensures
        characters(c, b, step, up, room) matches Some(items) ==> forall|k: int|
            0 <= k < items.len() ==> (#[trigger] items[k]).len() == 1,
        characters(c, b, step, up, room) matches Some(items) ==> (scalar(c) && (if up {
            c <= b
        } else {
            c >= b
        }) ==> items.len() >= 1),
    decreases room,
{
    if !scalar(c) || (up && c > b) || (!up && c < b) {
    } else if room == 0 || (up && c + step % 0x1_0000_0000 > u32::MAX) {
    } else {
        lemma_characters_len(stepped(c, step), b, step, up, (room - 1) as nat);
    }
}

proof fn lemma_scalar(c: char)
    ensures
        scalar(c as int),
{
    vstd::utf8::char_is_scalar(c);
}

proof fn lemma_range_short(start: Seq<char>, end: Seq<char>, step: Option<Seq<char>>)
    ensures
        range(start, end, step) matches Some(items) ==> items.len() >= 1 && forall|k: int|
            0 <= k < items.len() ==> (#[trigger] items[k]).len() <= longer(start.len(), end.len()),
{
    if let Some(items) = range(start, end, step) {
        if bound_of(start) is Some && bound_of(end) is Some {
            let a = bound_of(start)->0;
            let b = bound_of(end)->0;
            let by = step_of(step, i128::MIN as int, i128::MAX as int);
            let ns = integers(a, b, by)->0;
            lemma_bound_len(start);
            lemma_bound_len(end);
            assert forall|k: int| 0 <= k < items.len() implies (#[trigger] items[k]).len()
                <= longer(start.len(), end.len()) by {
                law_integers_lie_between(a, b, by, k);
                lemma_between_len(a, b, ns[k]);
                assert(items[k] == item(ns[k], start, end));
            }
            let d = if by < 0 {
                -by
            } else {
                by
            };
            if a <= b {
                vstd::arithmetic::div_mod::lemma_div_pos_is_pos(b - a, d);
            } else {
                vstd::arithmetic::div_mod::lemma_div_pos_is_pos(a - b, d);
            }
            assert(items.len() >= 1);
        } else {
            let n = step_of(step, i64::MIN as int, i64::MAX as int);
            let d = if start[0] > end[0] && n > 0 {
                -n
            } else {
                n
            };
            lemma_scalar(start[0]);
            lemma_characters_len(
                start[0] as int,
                end[0] as int,
                d,
                start[0] <= end[0],
                MAX_ITEMS as nat,
            );
        }
    }
}

/// There is at least one alternative, and none is longer than the content of
/// the group.
pub proof fn lemma_alternatives_short(content: Seq<char>)
    ensures
        alternatives(content) matches Some(parts) ==> parts.len() >= 1 && forall|k: int|
            0 <= k < parts.len() ==> (#[trigger] parts[k]).len() <= content.len(),
{
    reveal_strlit("..");
    let p = text::pieces(content, ".."@);
    lemma_pieces_joined(content, ".."@);
    if let Some(items) = sequence(content) {
        lemma_joined_part(p, ".."@, 0);
        lemma_joined_part(p, ".."@, 1);
        if p.len() == 2 {
            lemma_range_short(p[0], p[1], None);
        } else {
            lemma_range_short(p[0], p[1], Some(p[2]));
        }
    } else {
        let parts = parts_of(content, ',');
        law_parts_join_back(content, ',');
        assert forall|k: int| 0 <= k < parts.len() implies (#[trigger] parts[k]).len()
            <= content.len() by {
            lemma_joined_part(parts, seq![','], k);
        }
    }
}

/// The words that `s` expands to.
pub fn brace_expand_rec(s: &str) -> (r: Vec<String>)
    ensures
        text::texts(r@) == expansions(s@),
    decreases s@.len(),
{
    let v = to_chars(s);
    proof {
        lemma_open_from(s@, 0, unquoted());
    }
    let open = match open_index(&v) {
        Some(i) => i,
        None => {
            return one(s);
        },
    };
    assert(open < v.len());
    proof {
        lemma_close_from(s@, open + 1, 1, unquoted());
    }
    let close = match close_index(&v, open + 1) {
        Some(j) => j,
        None => {
            return one(s);
        },
    };
    assert(close < v.len());
    let content = from_range(&v, open + 1, close);
    let prefix = from_range(&v, 0, open);
    assert(prefix@ =~= s@.take(open as int));
    proof {
        lemma_alternatives_short(content@);
    }
    let mut alts: Option<Vec<String>> = brace_sequence(content.as_str());
    if alts.is_none() {
        let parts = split_top_level(content.as_str(), ',');
        assert(text::texts(parts@).len() == parts@.len());
        if parts.len() >= 2 {
            alts = Some(parts);
        }
    }
    let mut results: Vec<String> = Vec::new();
    match alts {
        Some(parts) => {
            let suffix = from_range(&v, close + 1, v.len());
            assert(suffix@ =~= s@.skip(close + 1));
            let ghost all = text::texts(parts@);
            let ghost bound = (s@.len() - 1) as nat;
            let mut i: usize = 0;
            assert(all.skip(0) =~= all);
            assert(text::texts(results@) + expanded_parts(prefix@, all.skip(0), suffix@, bound)
                =~= expansions(s@));
            while i < parts.len()
                invariant
                    i <= parts@.len(),
                    all == text::texts(parts@),
                    bound == s@.len() - 1,
                    s@.len() > 0,
                    prefix@.len() + suffix@.len() + content@.len() < s@.len(),
                    forall|k: int|
                        0 <= k < all.len() ==> (#[trigger] all[k]).len() <= content@.len(),
                    text::texts(results@) + expanded_parts(
                        prefix@,
                        all.skip(i as int),
                        suffix@,
                        bound,
                    ) == expansions(s@),
                decreases parts@.len() - i,
            {
                broadcast use text::texts_add;
                let ghost before = results@;
                let ghost rest = all.skip(i as int);
                assert(all[i as int] == parts@[i as int]@);
                let mut word = prefix.clone();
                word.append(parts[i].as_str());
                word.append(suffix.as_str());
                assert(rest[0] == parts@[i as int]@);
                assert(rest.drop_first() =~= all.skip(i + 1));
                let mut words = brace_expand_rec(word.as_str());
                results.append(&mut words);
                i += 1;
                assert(text::texts(results@) + expanded_parts(
                    prefix@,
                    all.skip(i as int),
                    suffix@,
                    bound,
                ) =~= text::texts(before) + expanded_parts(prefix@, rest, suffix@, bound));
            }
            assert(text::texts(results@) =~= expansions(s@));
        },
        None => {
            let tail = from_range(&v, open + 1, v.len());
            assert(tail@ =~= s@.skip(open + 1));
            let rests = brace_expand_rec(tail.as_str());
            let mut i: usize = 0;
            while i < rests.len()
                invariant
                    i <= rests@.len(),
                    results@.len() == i,
                    prefix@ == s@.take(open as int),
                    forall|k: int|
                        0 <= k < i ==> (#[trigger] results@[k])@ == s@.take(open as int).push('{')
                            + rests@[k]@,
                decreases rests@.len() - i,
            {
                let mut word = prefix.clone();
                word.push('{');
                word.append(rests[i].as_str());
                results.push(word);
                i += 1;
            }
            assert(text::texts(results@) =~= text::texts(rests@).map_values(
                |rest: Seq<char>| s@.take(open as int).push('{') + rest,
            ));
        },
    }
    results
}

fn one(s: &str) -> (r: Vec<String>)
    ensures
        text::texts(r@) == seq![s@],
{
    let mut r: Vec<String> = Vec::new();
    r.push(owned(s));
    assert(text::texts(r@) =~= seq![s@]);
    r
}

/// The words that `input` expands to.
pub fn brace_expand(input: &str) -> (r: Vec<String>)
    ensures
        text::texts(r@) == expansions(input@),
{
    brace_expand_rec(input)
}

// ---------------------------------------------------------------------------
// What holds of all words
// ---------------------------------------------------------------------------

/// A word expands to at least one word.
pub proof fn law_expansion_is_not_empty(s: Seq<char>)
    ensures
        expansions(s).len() >= 1,
    decreases s.len(), 0nat,
{
    lemma_open_from(s, 0, unquoted());
    if let Some(open) = open_from(s, 0, unquoted()) {
        lemma_close_from(s, open + 1, 1, unquoted());
        if let Some(close) = close_from(s, open + 1, 1, unquoted()) {
            let content = s.subrange(open + 1, close);
            lemma_alternatives_short(content);
            if let Some(parts) = alternatives(content) {
                let word = s.take(open) + parts[0] + s.skip(close + 1);
                law_expansion_is_not_empty(word);
                let bound = (s.len() - 1) as nat;
                assert(expanded_parts(s.take(open), parts, s.skip(close + 1), bound) == expansions(
                    word,
                ) + expanded_parts(s.take(open), parts.drop_first(), s.skip(close + 1), bound));
            } else {
                law_expansion_is_not_empty(s.skip(open + 1));
            }
        }
    }
}

/// A word without a brace that is not quoted stays as it is.
pub proof fn law_without_braces_unchanged(s: Seq<char>)
    requires
        open_from(s, 0, unquoted()) is None,
    ensures
        expansions(s) == seq![s],
{
}

/// A group that is neither a range nor a list stays, with its braces, and what
/// follows its opening brace is expanded.
pub proof fn law_invalid_group_stays(s: Seq<char>, open: int, close: int)
    requires
        open_from(s, 0, unquoted()) == Some(open),
        close_from(s, open + 1, 1, unquoted()) == Some(close),
        alternatives(s.subrange(open + 1, close)) is None,
    ensures
        expansions(s).len() == expansions(s.skip(open + 1)).len(),
        forall|k: int|
            0 <= k < expansions(s).len() ==> #[trigger] expansions(s)[k] == s.take(open).push('{')
                + expansions(s.skip(open + 1))[k],
{
    lemma_open_from(s, 0, unquoted());
    lemma_close_from(s, open + 1, 1, unquoted());
}

/// Counting up in steps of one from `a` to `b` gives every integer from `a` to
/// `b` once, in order.
pub proof fn law_integers_count(a: int, b: int)
    requires
        i128::MIN <= a <= b < i128::MAX,
        b - a < MAX_ITEMS,
    ensures
        integers(a, b, 1) == Some(Seq::new((b - a + 1) as nat, |k: int| a + k)),
{
    assert(integers(a, b, 1)->0 =~= Seq::new((b - a + 1) as nat, |k: int| a + k));
}

/// Counting down in steps of one from `a` to `b` gives every integer from `a` to
/// `b` once, in order.
pub proof fn law_integers_count_down(a: int, b: int)
    requires
        i128::MIN < b < a <= i128::MAX,
        a - b < MAX_ITEMS,
    ensures
        integers(a, b, 1) == Some(Seq::new((a - b + 1) as nat, |k: int| a - k)),
{
    assert(integers(a, b, 1)->0 =~= Seq::new((a - b + 1) as nat, |k: int| a - k));
}

proof fn lemma_quoted_to_end(s: Seq<char>, i: int, q: Scan)
    requires
        q.single && !q.escaped && !q.double,
        0 <= i < s.len(),
        s.last() == '\'',
        forall|k: int| i <= k < s.len() - 1 ==> #[trigger] s[k] != '\'',
    ensures
        open_from(s, i, q) is None,
    decreases s.len() - i,
{
    if i < s.len() - 1 {
        assert(s[i] != '\'');
        lemma_quoted_to_end(s, i + 1, scanned(q, s[i]));
    } else {
        assert(open_from(s, i + 1, scanned(q, s[i])) is None);
    }
}

/// What stands between single quotes is not expanded.
pub proof fn law_quoted_braces_stay(t: Seq<char>)
    requires
        !t.contains('\''),
    ensures
        expansions(seq!['\''] + t + seq!['\'']) == seq![seq!['\''] + t + seq!['\'']],
{
    let s = seq!['\''] + t + seq!['\''];
    assert forall|k: int| 1 <= k < s.len() - 1 implies #[trigger] s[k] != '\'' by {
        assert(s[k] == t[k - 1]);
    }
    lemma_quoted_to_end(s, 1, scanned(unquoted(), '\''));
    assert(open_from(s, 0, unquoted()) == open_from(s, 1, scanned(unquoted(), '\'')));
    law_without_braces_unchanged(s);
}

} // verus!
