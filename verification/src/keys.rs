//! The keys that a terminal sends, read off the bytes it sends for them.

use vstd::prelude::*;
use vstd::utf8::*;

use crate::numbers;
use crate::numbers::parse_usize;
use crate::text;

verus! {

#[derive(Debug, PartialEq, Eq, Clone, Copy)]
pub enum Key {
    Char(char),
    Enter,
    Tab,
    Backspace,
    Delete,
    Left,
    Right,
    Up,
    Down,
    Home,
    End,
    CtrlC,
    CtrlD,
    CtrlL,
    /// The terminal's answer to a question for the place of the cursor, with
    /// the row. It is read here, like every other key, so that it is never
    /// taken for typed text.
    CursorReport(usize),
    Unknown,
}

/// What the bytes so far amount to.
#[derive(Debug, PartialEq, Eq, Clone, Copy)]
pub enum KeyRead {
    Key(Key),
    /// A key has begun, and needs another byte.
    More,
    /// The input ended.
    End,
}

/// What is to be said where a byte is missing.
pub open spec fn missing(at_end: bool) -> KeyRead {
    if at_end {
        KeyRead::End
    } else {
        KeyRead::More
    }
}

pub open spec fn digit_byte(b: u8) -> bool {
    0x30 <= b <= 0x39
}

/// Where the digits that go on at `i` end.
pub open spec fn digits_end(bytes: Seq<u8>, i: int) -> int
    decreases bytes.len() - i,
{
    if 0 <= i < bytes.len() && digit_byte(bytes[i]) {
        digits_end(bytes, i + 1)
    } else {
        i
    }
}

/// Where the parameters, digits and `;`, that go on at `i` end.
pub open spec fn parameters_end(bytes: Seq<u8>, i: int) -> int
    decreases bytes.len() - i,
{
    if 0 <= i < bytes.len() && (digit_byte(bytes[i]) || bytes[i] == 0x3b) {
        parameters_end(bytes, i + 1)
    } else {
        i
    }
}

/// ASCII bytes as a text.
pub open spec fn as_text(bytes: Seq<u8>) -> Seq<char> {
    Seq::new(bytes.len(), |k: int| bytes[k] as char)
}

/// The key of a sequence with these digits as its first parameter and this last
/// byte.
pub open spec fn sequence_key(first: Seq<u8>, last: u8) -> Key {
    if last == 0x7e {
        if first == seq![0x33u8] {
            Key::Delete
        } else if first == seq![0x31u8] || first == seq![0x37u8] {
            Key::Home
        } else if first == seq![0x34u8] || first == seq![0x38u8] {
            Key::End
        } else {
            Key::Unknown
        }
    } else if last == 0x52 {
        match numbers::within(numbers::unsigned_value(as_text(first)), 0, usize::MAX as int) {
            Some(row) => Key::CursorReport(row as usize),
            None => Key::Unknown,
        }
    } else {
        Key::Unknown
    }
}

/// What the bytes amount to, where the first one is an escape.
pub open spec fn escape_read(bytes: Seq<u8>, at_end: bool) -> KeyRead {
    if bytes.len() < 2 {
        missing(at_end)
    } else if bytes[1] != 0x5b {
        KeyRead::Key(Key::Unknown)
    } else if bytes.len() < 3 {
        missing(at_end)
    } else if digit_byte(bytes[2]) {
        let first = bytes.subrange(2, digits_end(bytes, 3));
        let e = parameters_end(bytes, 3);
        if e < bytes.len() {
            KeyRead::Key(sequence_key(first, bytes[e]))
        } else if at_end {
            KeyRead::Key(sequence_key(first, 0x7e))
        } else {
            KeyRead::More
        }
    } else {
        KeyRead::Key(
            if bytes[2] == 0x41 {
                Key::Up
            } else if bytes[2] == 0x42 {
                Key::Down
            } else if bytes[2] == 0x43 {
                Key::Right
            } else if bytes[2] == 0x44 {
                Key::Left
            } else if bytes[2] == 0x48 {
                Key::Home
            } else if bytes[2] == 0x46 {
                Key::End
            } else {
                Key::Unknown
            },
        )
    }
}

/// How many bytes a character takes, going by its first byte.
pub open spec fn char_width(b: u8) -> int {
    if 0xc0 <= b <= 0xdf {
        2
    } else if 0xe0 <= b <= 0xef {
        3
    } else if 0xf0 <= b <= 0xf7 {
        4
    } else {
        1
    }
}

/// What the bytes amount to, where the first one is not ASCII.
pub open spec fn wide_read(bytes: Seq<u8>, at_end: bool) -> KeyRead {
    let n = char_width(bytes[0]);
    if bytes.len() < n {
        missing(at_end)
    } else if valid_utf8(bytes.take(n)) {
        KeyRead::Key(Key::Char(decode_utf8(bytes.take(n))[0]))
    } else {
        KeyRead::Key(Key::Unknown)
    }
}

/// What the bytes amount to. `at_end` says that no byte follows.
pub open spec fn key_of(bytes: Seq<u8>, at_end: bool) -> KeyRead {
    if bytes.len() == 0 {
        missing(at_end)
    } else {
        let b = bytes[0];
        if b == 0x1b {
            escape_read(bytes, at_end)
        } else if b >= 0x80 {
            wide_read(bytes, at_end)
        } else {
            KeyRead::Key(
                if b == 0x03 {
                    Key::CtrlC
                } else if b == 0x04 {
                    Key::CtrlD
                } else if b == 0x0c {
                    Key::CtrlL
                } else if b == 0x09 {
                    Key::Tab
                } else if b == 0x0a || b == 0x0d {
                    Key::Enter
                } else if b == 0x7f {
                    Key::Backspace
                } else {
                    Key::Char(b as char)
                },
            )
        }
    }
}

fn is_digit_byte(b: u8) -> (r: bool)
    ensures
        r == digit_byte(b),
{
    0x30 <= b && b <= 0x39
}

fn none_left(at_end: bool) -> (r: KeyRead)
    ensures
        r == missing(at_end),
{
    if at_end {
        KeyRead::End
    } else {
        KeyRead::More
    }
}

fn digits_text(bytes: &Vec<u8>, from: usize, to: usize) -> (r: String)
    requires
        from <= to <= bytes.len(),
        forall|k: int| from <= k < to ==> digit_byte(#[trigger] bytes@[k]),
    ensures
        r@ == as_text(bytes@.subrange(from as int, to as int)),
{
    let mut r = String::new();
    let mut i: usize = from;
    assert(r@ =~= as_text(bytes@.subrange(from as int, from as int)));
    while i < to
        invariant
            from <= i <= to <= bytes.len(),
            r@ == as_text(bytes@.subrange(from as int, i as int)),
        decreases to - i,
    {
        r.push(bytes[i] as char);
        assert(as_text(bytes@.subrange(from as int, i + 1)) =~= as_text(
            bytes@.subrange(from as int, i as int),
        ).push(bytes@[i as int] as char));
        i += 1;
    }
    r
}

fn key_of_sequence(bytes: &Vec<u8>, end: usize, last: u8) -> (r: Key)
    requires
        3 <= end <= bytes.len(),
        forall|k: int| 2 <= k < end ==> digit_byte(#[trigger] bytes@[k]),
    ensures
        r == sequence_key(bytes@.subrange(2, end as int), last),
{
    let ghost first = bytes@.subrange(2, end as int);
    if last == 0x7e {
        if end == 3 {
            let d = bytes[2];
            assert(first =~= seq![d]);
            assert(seq![d][0] == d);
            assert(seq![0x33u8][0] == 0x33u8 && seq![0x31u8][0] == 0x31u8 && seq![0x37u8][0]
                == 0x37u8 && seq![0x34u8][0] == 0x34u8 && seq![0x38u8][0] == 0x38u8);
            if d == 0x33 {
                Key::Delete
            } else if d == 0x31 || d == 0x37 {
                Key::Home
            } else if d == 0x34 || d == 0x38 {
                Key::End
            } else {
                Key::Unknown
            }
        } else {
            assert(first.len() != 1);
            Key::Unknown
        }
    } else if last == 0x52 {
        let t = digits_text(bytes, 2, end);
        match parse_usize(t.as_str()) {
            Some(row) => Key::CursorReport(row),
            None => Key::Unknown,
        }
    } else {
        Key::Unknown
    }
}

fn read_escape(bytes: &Vec<u8>, at_end: bool) -> (r: KeyRead)
    requires
        bytes.len() > 0,
    ensures
        r == escape_read(bytes@, at_end),
{
    if bytes.len() < 2 {
        return none_left(at_end);
    }
    if bytes[1] != 0x5b {
        return KeyRead::Key(Key::Unknown);
    }
    if bytes.len() < 3 {
        return none_left(at_end);
    }
    let b = bytes[2];
    if is_digit_byte(b) {
        let mut d: usize = 3;
        while d < bytes.len() && is_digit_byte(bytes[d])
            invariant
                3 <= d <= bytes.len(),
                forall|k: int| 2 <= k < d ==> digit_byte(#[trigger] bytes@[k]),
                digits_end(bytes@, 3) == digits_end(bytes@, d as int),
                parameters_end(bytes@, 3) == parameters_end(bytes@, d as int),
            decreases bytes.len() - d,
        {
            d += 1;
        }
        let mut e: usize = d;
        while e < bytes.len() && (is_digit_byte(bytes[e]) || bytes[e] == 0x3b)
            invariant
                d <= e <= bytes.len(),
                parameters_end(bytes@, 3) == parameters_end(bytes@, e as int),
            decreases bytes.len() - e,
        {
            e += 1;
        }
        if e < bytes.len() {
            KeyRead::Key(key_of_sequence(bytes, d, bytes[e]))
        } else if at_end {
            KeyRead::Key(key_of_sequence(bytes, d, 0x7e))
        } else {
            KeyRead::More
        }
    } else {
        KeyRead::Key(
            if b == 0x41 {
                Key::Up
            } else if b == 0x42 {
                Key::Down
            } else if b == 0x43 {
                Key::Right
            } else if b == 0x44 {
                Key::Left
            } else if b == 0x48 {
                Key::Home
            } else if b == 0x46 {
                Key::End
            } else {
                Key::Unknown
            },
        )
    }
}

/// Bytes that hold one character hold nothing else.
proof fn lemma_one_scalar(bytes: Seq<u8>, n: int)
    requires
        bytes.len() == n,
        n >= 1,
        bytes[0] >= 0x80,
        n == char_width(bytes[0]),
    ensures
        valid_utf8(bytes) == valid_first_scalar(bytes),
        valid_utf8(bytes) ==> decode_utf8(bytes)[0] == decode_first_scalar(bytes) as char,
{
    if valid_first_scalar(bytes) {
        assert(length_of_first_scalar(bytes) == n);
        assert(pop_first_scalar(bytes).len() == 0);
        assert(valid_utf8(pop_first_scalar(bytes)));
        assert(valid_utf8(bytes));
    }
}

fn is_continuation(b: u8) -> (r: bool)
    ensures
        r == is_continuation_byte(b),
{
    0x80 <= b && b <= 0xbf
}

fn read_wide(bytes: &Vec<u8>, at_end: bool) -> (r: KeyRead)
    requires
        bytes.len() > 0,
        bytes@[0] >= 0x80,
    ensures
        r == wide_read(bytes@, at_end),
{
    let b = bytes[0];
    let n: usize = if 0xc0 <= b && b <= 0xdf {
        2
    } else if 0xe0 <= b && b <= 0xef {
        3
    } else if 0xf0 <= b && b <= 0xf7 {
        4
    } else {
        1
    };
    if bytes.len() < n {
        return none_left(at_end);
    }
    let ghost these = bytes@.take(n as int);
    proof {
        lemma_one_scalar(these, n as int);
    }
    let code: u32 = if n == 2 && is_continuation(bytes[1]) {
        (((b & 0x1f) as u32) << 6) | ((bytes[1] & 0x3f) as u32)
    } else if n == 3 && is_continuation(bytes[1]) && is_continuation(bytes[2]) {
        (((b & 0x0f) as u32) << 12) | (((bytes[1] & 0x3f) as u32) << 6) | ((bytes[2]
            & 0x3f) as u32)
    } else if n == 4 && is_continuation(bytes[1]) && is_continuation(bytes[2]) && is_continuation(
        bytes[3],
    ) {
        (((b & 0x07) as u32) << 18) | (((bytes[1] & 0x3f) as u32) << 12) | (((bytes[2]
            & 0x3f) as u32) << 6) | ((bytes[3] & 0x3f) as u32)
    } else {
        return KeyRead::Key(Key::Unknown);
    };
    assert(code == decode_first_codepoint(these));
    assert(forall|x: u8, y: u8|
        #![auto]
        (((x & 0x1f) as u32) << 6) | ((y & 0x3f) as u32) < 0x800) by (bit_vector);
    assert(forall|x: u8, y: u8, z: u8|
        #![auto]
        (((x & 0x0f) as u32) << 12) | (((y & 0x3f) as u32) << 6) | ((z & 0x3f) as u32) < 0x10000)
        by (bit_vector);
    assert(n == 2 ==> code < 0x800);
    assert(n == 3 ==> code < 0x10000);
    if (n == 2 && code < 0x80) || (n == 3 && code < 0x800) || (n == 4 && code < 0x10000) {
        return KeyRead::Key(Key::Unknown);
    }
    match char::from_u32(code) {
        Some(c) => {
            proof {
                char_is_scalar(c);
            }
            assert(c == code as char);
            assert(valid_first_scalar(these));
            KeyRead::Key(Key::Char(c))
        },
        None => {
            KeyRead::Key(Key::Unknown)
        },
    }
}

/// Reads a key off the bytes that came since the last one.
pub fn read_key(bytes: &Vec<u8>, at_end: bool) -> (r: KeyRead)
    ensures
        r == key_of(bytes@, at_end),
{
    if bytes.len() == 0 {
        return none_left(at_end);
    }
    let b = bytes[0];
    if b == 0x1b {
        read_escape(bytes, at_end)
    } else if b >= 0x80 {
        read_wide(bytes, at_end)
    } else {
        KeyRead::Key(
            if b == 0x03 {
                Key::CtrlC
            } else if b == 0x04 {
                Key::CtrlD
            } else if b == 0x0c {
                Key::CtrlL
            } else if b == 0x09 {
                Key::Tab
            } else if b == 0x0a || b == 0x0d {
                Key::Enter
            } else if b == 0x7f {
                Key::Backspace
            } else {
                Key::Char(b as char)
            },
        )
    }
}

// ---------------------------------------------------------------------------
// What holds of all input
// ---------------------------------------------------------------------------

proof fn lemma_ends_extend(a: Seq<u8>, more: Seq<u8>, i: int)
    requires
        0 <= i <= a.len(),
    ensures
        i <= parameters_end(a, i) <= a.len(),
        i <= digits_end(a, i) <= parameters_end(a, i),
        parameters_end(a, i) < a.len() ==> parameters_end(a + more, i) == parameters_end(a, i)
            && digits_end(a + more, i) == digits_end(a, i),
    decreases a.len() - i,
{
    if i < a.len() {
        assert((a + more)[i] == a[i]);
        if digit_byte(a[i]) || a[i] == 0x3b {
            lemma_ends_extend(a, more, i + 1);
        }
    }
}

/// Bytes that amount to a key amount to it whatever follows, so no byte of the
/// next key is taken for a part of this one.
pub proof fn law_keys_end_by_themselves(bytes: Seq<u8>, more: Seq<u8>, at_end: bool)
    requires
        key_of(bytes, false) is Key,
    ensures
        key_of(bytes + more, at_end) == key_of(bytes, false),
{
    let all = bytes + more;
    assert(all[0] == bytes[0]);
    if bytes[0] == 0x1b {
        assert(all[1] == bytes[1]);
        if bytes.len() >= 3 {
            assert(all[2] == bytes[2]);
            lemma_ends_extend(bytes, more, 3);
            if digit_byte(bytes[2]) && bytes[1] == 0x5b {
                let e = parameters_end(bytes, 3);
                assert(all[e] == bytes[e]);
                assert(all.subrange(2, digits_end(all, 3)) =~= bytes.subrange(
                    2,
                    digits_end(bytes, 3),
                ));
            }
        }
    } else if bytes[0] >= 0x80 {
        let n = char_width(bytes[0]);
        assert(all.take(n) =~= bytes.take(n));
    }
}

/// Whether a character is typed as itself, and not the code of another key.
pub open spec fn typed(c: char) -> bool {
    c as int != 0x03 && c as int != 0x04 && c as int != 0x09 && c as int != 0x0a && c as int != 0x0c
        && c as int != 0x0d && c as int != 0x1b && c as int != 0x7f
}

/// The bytes of a character are read as that character.
pub proof fn law_characters_are_read(c: char)
    requires
        typed(c),
    ensures
        key_of(encode_utf8(seq![c]), false) == KeyRead::Key(Key::Char(c)),
{
    let chars = seq![c];
    let bytes = encode_utf8(chars);
    char_is_scalar(c);
    encode_utf8_valid_utf8(chars);
    encode_utf8_decode_utf8(chars);
    encode_utf8_first_scalar(chars);
    assert(chars.drop_first() =~= Seq::empty());
    assert(encode_utf8(chars.drop_first()) =~= Seq::<u8>::empty());
    assert(bytes =~= encode_scalar(c as u32));
    let b = bytes[0];
    assert(valid_first_scalar(bytes));
    assert(bytes.len() == length_of_first_scalar(bytes));
    if b >= 0x80 {
        assert(char_width(b) == bytes.len());
        assert(bytes.take(bytes.len() as int) =~= bytes);
        assert(chars[0] == c);
    } else {
        assert(decode_utf8(bytes)[0] == c);
        assert(b & 0x7f == b) by (bit_vector)
            requires
                b < 0x80,
        ;
        assert(b as char == c);
    }
}

/// The bytes of the terminal's answer to a question for the place of the cursor.
pub open spec fn report(row: Seq<u8>, column: Seq<u8>) -> Seq<u8> {
    seq![0x1bu8, 0x5bu8] + row + seq![0x3bu8] + column + seq![0x52u8]
}

proof fn lemma_digits_end(bytes: Seq<u8>, i: int, e: int)
    requires
        0 <= i <= e < bytes.len(),
        forall|k: int| i <= k < e ==> digit_byte(#[trigger] bytes[k]),
        !digit_byte(bytes[e]),
    ensures
        digits_end(bytes, i) == e,
    decreases e - i,
{
    if i < e {
        assert(digit_byte(bytes[i]));
        lemma_digits_end(bytes, i + 1, e);
    }
}

proof fn lemma_parameters_end(bytes: Seq<u8>, i: int, e: int)
    requires
        0 <= i <= e < bytes.len(),
        forall|k: int| i <= k < e ==> digit_byte(#[trigger] bytes[k]) || bytes[k] == 0x3b,
        !digit_byte(bytes[e]) && bytes[e] != 0x3b,
    ensures
        parameters_end(bytes, i) == e,
    decreases e - i,
{
    if i < e {
        assert(digit_byte(bytes[i]) || bytes[i] == 0x3b);
        lemma_parameters_end(bytes, i + 1, e);
    }
}

/// The terminal's answer to a question for the place of the cursor is read as
/// such, whatever follows it, and never as typed text.
pub proof fn law_cursor_reports_are_read(
    row: Seq<u8>,
    column: Seq<u8>,
    n: usize,
    more: Seq<u8>,
    at_end: bool,
)
    requires
        row.len() > 0,
        forall|k: int| 0 <= k < row.len() ==> digit_byte(#[trigger] row[k]),
        forall|k: int| 0 <= k < column.len() ==> digit_byte(#[trigger] column[k]),
        numbers::unsigned_value(as_text(row)) == Some(n as int),
    ensures
        key_of(report(row, column) + more, at_end) == KeyRead::Key(Key::CursorReport(n)),
{
    let bytes = report(row, column);
    let semicolon = 2 + row.len() as int;
    let last = bytes.len() - 1;
    assert forall|k: int| 2 <= k < semicolon implies digit_byte(#[trigger] bytes[k]) by {
        assert(bytes[k] == row[k - 2]);
    }
    assert(bytes[semicolon] == 0x3b);
    assert forall|k: int| 3 <= k < last implies digit_byte(#[trigger] bytes[k]) || bytes[k]
        == 0x3b by {
        if k < semicolon {
            assert(bytes[k] == row[k - 2]);
        } else if k > semicolon {
            assert(bytes[k] == column[k - 1 - semicolon]);
        }
    }
    assert(bytes[last] == 0x52);
    assert(digit_byte(bytes[2]));
    lemma_digits_end(bytes, 3, semicolon);
    lemma_parameters_end(bytes, 3, last);
    assert(bytes.subrange(2, semicolon) =~= row);
    law_keys_end_by_themselves(bytes, more, at_end);
}

} // verus!
