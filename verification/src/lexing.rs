//! Writing tokens down as a line, and what the tokenizer makes of that.

use vstd::prelude::*;
use vstd::string::*;

use crate::meaning::{at, balanced, lemma_at_add, lemma_parens};
use crate::text;
use crate::token;
use crate::token::Tok;

verus! {

// ---------------------------------------------------------------------------
// Lines of tokens
// ---------------------------------------------------------------------------

/// What can stand between double quotes.
pub enum Inner {
    Text(Seq<char>),
    /// A character with a backslash before it.
    Escaped(char),
    /// A command in `$(` and `)`.
    Command(Seq<char>),
}

/// What a word can be made of.
pub enum Chunk {
    Text(Seq<char>),
    /// A character with a backslash before it.
    Escaped(char),
    /// What stands between single quotes.
    Single(Seq<char>),
    /// What stands between double quotes.
    Double(Seq<Inner>),
    /// A command in `$(` and `)`.
    Command(Seq<char>),
}

/// A word, or an operator.
pub enum Item {
    Word(Seq<Chunk>),
    Operator(Tok),
}

pub open spec fn inner_text(p: Inner) -> Seq<char> {
    match p {
        Inner::Text(t) => t,
        Inner::Escaped(c) => seq!['\\', c],
        Inner::Command(c) => seq!['$', '('] + c + seq![')'],
    }
}

pub open spec fn inners_text(ps: Seq<Inner>) -> Seq<char>
    decreases ps.len(),
{
    if ps.len() == 0 {
        Seq::empty()
    } else {
        inner_text(ps[0]) + inners_text(ps.drop_first())
    }
}

pub open spec fn chunk_text(c: Chunk) -> Seq<char> {
    match c {
        Chunk::Text(t) => t,
        Chunk::Escaped(c) => seq!['\\', c],
        Chunk::Single(t) => seq!['\''] + t + seq!['\''],
        Chunk::Double(ps) => seq!['"'] + inners_text(ps) + seq!['"'],
        Chunk::Command(c) => seq!['$', '('] + c + seq![')'],
    }
}

/// A word as it is written.
pub open spec fn word_text(cs: Seq<Chunk>) -> Seq<char>
    decreases cs.len(),
{
    if cs.len() == 0 {
        Seq::empty()
    } else {
        chunk_text(cs[0]) + word_text(cs.drop_first())
    }
}

/// An operator as it is written.
pub open spec fn operator_text(t: Tok) -> Seq<char> {
    match t {
        Tok::Word(_) => Seq::empty(),
        Tok::Pipe => seq!['|'],
        Tok::Semicolon => seq![';'],
        Tok::And => seq!['&', '&'],
        Tok::Or => seq!['|', '|'],
        Tok::Background => seq!['&'],
        Tok::Less => seq!['<'],
        Tok::Great => seq!['>'],
        Tok::DoubleGreat => seq!['>', '>'],
        Tok::LessGreat => seq!['<', '>'],
        Tok::GreatAnd => seq!['>', '&'],
        Tok::LessAnd => seq!['<', '&'],
        Tok::BothGreat => seq!['&', '>'],
        Tok::BothDoubleGreat => seq!['&', '>', '>'],
    }
}

pub open spec fn item_text(i: Item) -> Seq<char> {
    match i {
        Item::Word(cs) => word_text(cs),
        Item::Operator(t) => operator_text(t),
    }
}

/// The token that an item is.
pub open spec fn item_token(i: Item) -> Tok {
    match i {
        Item::Word(cs) => Tok::Word(word_text(cs)),
        Item::Operator(t) => t,
    }
}

/// The items one behind the other, each with a gap before it.
pub open spec fn line_of(items: Seq<(Seq<char>, Item)>) -> Seq<char>
    decreases items.len(),
{
    if items.len() == 0 {
        Seq::empty()
    } else {
        items[0].0 + item_text(items[0].1) + line_of(items.drop_first())
    }
}

pub open spec fn tokens(items: Seq<(Seq<char>, Item)>) -> Seq<Tok> {
    Seq::new(items.len(), |k: int| item_token(items[k].1))
}

// ---------------------------------------------------------------------------
// Which can be written
// ---------------------------------------------------------------------------

pub open spec fn is_blank(c: char) -> bool {
    c == ' ' || c == '\t' || c == '\n' || c == '\x0c' || c == '\r'
}

/// The characters that operators are made of.
pub open spec fn in_operators(c: char) -> bool {
    c == '|' || c == ';' || c == '&' || c == '<' || c == '>'
}

/// The text of a word outside quotes.
pub open spec fn plain(t: Seq<char>) -> bool {
    forall|k: int|
        0 <= k < t.len() ==> !is_blank(#[trigger] t[k]) && !in_operators(t[k]) && t[k] != '\\'
            && t[k] != '\'' && t[k] != '"' && t[k] != '$' && t[k] != '#'
}

/// The text of a word inside double quotes.
pub open spec fn plain_inside(t: Seq<char>) -> bool {
    forall|k: int| 0 <= k < t.len() ==> #[trigger] t[k] != '"' && t[k] != '\\' && t[k] != '$'
}

pub open spec fn inner_ok(p: Inner) -> bool {
    match p {
        Inner::Text(t) => plain_inside(t),
        Inner::Escaped(c) => c != '\n',
        Inner::Command(c) => balanced(c),
    }
}

pub open spec fn chunk_ok(c: Chunk) -> bool {
    match c {
        Chunk::Text(t) => plain(t),
        Chunk::Escaped(_) => true,
        Chunk::Single(t) => !t.contains('\''),
        Chunk::Double(ps) => forall|k: int| 0 <= k < ps.len() ==> inner_ok(#[trigger] ps[k]),
        Chunk::Command(c) => balanced(c),
    }
}

/// A word is not empty, and does not start a comment.
pub open spec fn item_ok(i: Item) -> bool {
    match i {
        Item::Word(cs) => {
            &&& forall|k: int| 0 <= k < cs.len() ==> chunk_ok(#[trigger] cs[k])
            &&& word_text(cs).len() > 0
            &&& word_text(cs)[0] != '#'
        },
        Item::Operator(t) => !(t is Word),
    }
}

/// Items can be written with blanks before them; between two words and between
/// two operators there has to be one.
pub open spec fn items_ok(items: Seq<(Seq<char>, Item)>) -> bool {
    forall|k: int|
        0 <= k < items.len() ==> {
            &&& item_ok((#[trigger] items[k]).1)
            &&& forall|j: int| 0 <= j < items[k].0.len() ==> is_blank(#[trigger] items[k].0[j])
            &&& k > 0 && items[k].0.len() == 0 ==> (items[k].1 is Word) != (items[k - 1].1 is Word)
        }
}

// ---------------------------------------------------------------------------
// Reading them
// ---------------------------------------------------------------------------

proof fn lemma_plain(s: Seq<char>, i: int, t: Seq<char>, acc: Seq<char>)
    requires
        at(s, i, t),
        plain(t),
    ensures
        token::word_from(s, i, acc) == token::word_from(s, i + t.len(), acc + t),
    decreases t.len(),
{
    if t.len() == 0 {
        assert(acc + t =~= acc);
    } else {
        let rest = t.drop_first();
        assert(s[i + 0] == t[0]);
        assert(!is_blank(t[0]));
        assert forall|k: int| 0 <= k < rest.len() implies s[i + 1 + k] == #[trigger] rest[k] by {
            assert(s[i + (k + 1)] == t[k + 1]);
        }
        assert forall|k: int| 0 <= k < rest.len() implies !is_blank(#[trigger] rest[k])
            && !in_operators(rest[k]) && rest[k] != '\\' && rest[k] != '\'' && rest[k] != '"'
            && rest[k] != '$' && rest[k] != '#' by {
            assert(rest[k] == t[k + 1]);
        }
        lemma_plain(s, i + 1, rest, acc.push(t[0]));
        assert(acc.push(t[0]) + rest =~= acc + t);
    }
}

proof fn lemma_inner_plain(s: Seq<char>, i: int, t: Seq<char>, acc: Seq<char>)
    requires
        at(s, i, t),
        plain_inside(t),
    ensures
        token::double_quoted(s, i, acc) == token::double_quoted(s, i + t.len(), acc + t),
    decreases t.len(),
{
    if t.len() == 0 {
        assert(acc + t =~= acc);
    } else {
        let rest = t.drop_first();
        assert(s[i + 0] == t[0]);
        assert forall|k: int| 0 <= k < rest.len() implies s[i + 1 + k] == #[trigger] rest[k] by {
            assert(s[i + (k + 1)] == t[k + 1]);
        }
        assert forall|k: int| 0 <= k < rest.len() implies #[trigger] rest[k] != '"' && rest[k]
            != '\\' && rest[k] != '$' by {
            assert(rest[k] == t[k + 1]);
        }
        lemma_inner_plain(s, i + 1, rest, acc.push(t[0]));
        assert(acc.push(t[0]) + rest =~= acc + t);
    }
}

proof fn lemma_command(s: Seq<char>, i: int, c: Seq<char>)
    requires
        at(s, i, seq!['$', '('] + c + seq![')']),
        balanced(c),
    ensures
        s[i] == '$',
        token::char_at(s, i + 1) == Some('('),
        token::paren_end(s, i + 2, 1) == Some(i + c.len() + 3),
        s.subrange(i, i + c.len() + 3) == seq!['$', '('] + c + seq![')'],
{
    let w = seq!['$', '('] + c + seq![')'];
    assert(s[i + 0] == w[0]);
    assert(s[i + 1] == w[1]);
    assert(w =~= seq!['$', '('] + (c + seq![')']));
    lemma_at_add(s, i, seq!['$', '('], c + seq![')']);
    lemma_parens(s, i + 2, c, 0);
    assert(s.subrange(i, i + w.len()) =~= w) by {
        assert forall|k: int| 0 <= k < w.len() implies s[i + k] == w[k] by {
        }
    }
}

proof fn lemma_inners(s: Seq<char>, i: int, ps: Seq<Inner>, acc: Seq<char>)
    requires
        at(s, i, inners_text(ps) + seq!['"']),
        forall|k: int| 0 <= k < ps.len() ==> inner_ok(#[trigger] ps[k]),
    ensures
        token::double_quoted(s, i, acc) == (
            Ok::<Seq<char>, Seq<char>>(acc + inners_text(ps)),
            i + inners_text(ps).len() + 1,
        ),
    decreases ps.len(),
{
    if ps.len() == 0 {
        assert(s[i + 0] == (inners_text(ps) + seq!['"'])[0]);
        assert(acc + inners_text(ps) =~= acc);
    } else {
        let rest = ps.drop_first();
        let w = inner_text(ps[0]);
        let more = inners_text(rest) + seq!['"'];
        assert(inner_ok(ps[0]));
        assert(inners_text(ps) + seq!['"'] =~= w + more);
        lemma_at_add(s, i, w, more);
        match ps[0] {
            Inner::Text(t) => {
                lemma_inner_plain(s, i, t, acc);
            },
            Inner::Escaped(c) => {
                assert(s[i + 0] == w[0]);
                assert(s[i + 1] == w[1]);
                assert(acc.push('\\').push(c) =~= acc + w);
            },
            Inner::Command(c) => {
                lemma_command(s, i, c);
            },
        }
        assert(token::double_quoted(s, i, acc) == token::double_quoted(
            s,
            i + w.len(),
            acc + w,
        ));
        assert forall|k: int| 0 <= k < rest.len() implies inner_ok(#[trigger] rest[k]) by {
            assert(rest[k] == ps[k + 1]);
        }
        lemma_inners(s, i + w.len(), rest, acc + w);
        assert(acc + w + inners_text(rest) =~= acc + inners_text(ps));
    }
}

proof fn lemma_chunk(s: Seq<char>, i: int, c: Chunk, acc: Seq<char>)
    requires
        at(s, i, chunk_text(c)),
        chunk_ok(c),
    ensures
        token::word_from(s, i, acc) == token::word_from(
            s,
            i + chunk_text(c).len(),
            acc + chunk_text(c),
        ),
{
    let w = chunk_text(c);
    match c {
        Chunk::Text(t) => {
            lemma_plain(s, i, t, acc);
        },
        Chunk::Escaped(x) => {
            assert(s[i + 0] == w[0]);
            assert(s[i + 1] == w[1]);
            assert(acc.push('\\').push(x) =~= acc + w);
        },
        Chunk::Single(t) => {
            assert(w =~= seq!['\''] + (t + seq!['\'']));
            lemma_at_add(s, i, seq!['\''], t + seq!['\'']);
            assert(s[i + 0] == w[0]);
            let rest = s.skip(i + 1);
            text::lemma_until(rest, '\'');
            let u = text::until(rest, '\'') as int;
            let m = t + seq!['\''];
            assert(s[i + 1 + t.len()] == m[t.len() as int]);
            assert(rest[t.len() as int] == '\'');
            if u < t.len() {
                assert(s[i + 1 + u] == m[u]);
                assert(t.contains(t[u]));
            }
            assert(s.subrange(i + 1, i + 1 + t.len()) =~= t) by {
                assert forall|k: int| 0 <= k < t.len() implies s[i + 1 + k] == t[k] by {
                    assert(s[i + 1 + k] == m[k]);
                }
            }
            assert((acc.push('\'') + t).push('\'') =~= acc + w);
        },
        Chunk::Double(ps) => {
            assert(w =~= seq!['"'] + (inners_text(ps) + seq!['"']));
            lemma_at_add(s, i, seq!['"'], inners_text(ps) + seq!['"']);
            assert(s[i + 0] == w[0]);
            lemma_inners(s, i + 1, ps, Seq::empty());
            let t = Seq::<char>::empty() + inners_text(ps);
            assert(t =~= inners_text(ps));
            assert((acc.push('"') + t).push('"') =~= acc + w);
        },
        Chunk::Command(x) => {
            lemma_command(s, i, x);
        },
    }
}

proof fn lemma_word(s: Seq<char>, i: int, cs: Seq<Chunk>, acc: Seq<char>)
    requires
        at(s, i, word_text(cs)),
        forall|k: int| 0 <= k < cs.len() ==> chunk_ok(#[trigger] cs[k]),
        (acc + word_text(cs)).len() > 0,
        token::char_at(s, i + word_text(cs).len()) matches Some(c) ==> is_blank(c)
            || in_operators(c) || c == '#',
    ensures
        token::word_from(s, i, acc) == (
            Ok::<Seq<char>, Seq<char>>(acc + word_text(cs)),
            i + word_text(cs).len(),
        ),
    decreases cs.len(),
{
    if cs.len() == 0 {
        assert(acc + word_text(cs) =~= acc);
    } else {
        let rest = cs.drop_first();
        let w = chunk_text(cs[0]);
        assert(chunk_ok(cs[0]));
        lemma_at_add(s, i, w, word_text(rest));
        lemma_chunk(s, i, cs[0], acc);
        assert(acc + w + word_text(rest) =~= acc + word_text(cs));
        assert forall|k: int| 0 <= k < rest.len() implies chunk_ok(#[trigger] rest[k]) by {
            assert(rest[k] == cs[k + 1]);
        }
        lemma_word(s, i + w.len(), rest, acc + w);
    }
}

proof fn lemma_gap(s: Seq<char>, i: int, gap: Seq<char>)
    requires
        at(s, i, gap),
        forall|j: int| 0 <= j < gap.len() ==> is_blank(#[trigger] gap[j]),
        token::char_at(s, i + gap.len()) matches Some(c) ==> !is_blank(c),
    ensures
        token::spaces_end(s, i) == i + gap.len(),
    decreases gap.len(),
{
    if gap.len() > 0 {
        let rest = gap.drop_first();
        assert(s[i + 0] == gap[0]);
        assert(is_blank(gap[0]));
        assert forall|k: int| 0 <= k < rest.len() implies s[i + 1 + k] == #[trigger] rest[k] by {
            assert(s[i + (k + 1)] == gap[k + 1]);
        }
        assert forall|k: int| 0 <= k < rest.len() implies is_blank(#[trigger] rest[k]) by {
            assert(is_blank(gap[k + 1]));
        }
        lemma_gap(s, i + 1, rest);
    }
}

/// How an item starts.
proof fn lemma_item_start(item: Item)
    requires
        item_ok(item),
    ensures
        item_text(item).len() > 0,
        !is_blank(item_text(item)[0]),
        item_text(item)[0] != '#',
        item is Word ==> !in_operators(item_text(item)[0]),
        item is Operator ==> in_operators(item_text(item)[0]),
{
    if let Item::Word(cs) = item {
        lemma_word_start(cs);
    }
}

proof fn lemma_word_start(cs: Seq<Chunk>)
    requires
        forall|k: int| 0 <= k < cs.len() ==> chunk_ok(#[trigger] cs[k]),
        word_text(cs).len() > 0,
    ensures
        !is_blank(word_text(cs)[0]),
        !in_operators(word_text(cs)[0]),
    decreases cs.len(),
{
    let w = chunk_text(cs[0]);
    assert(chunk_ok(cs[0]));
    if w.len() > 0 {
        assert(word_text(cs)[0] == w[0]);
        if let Chunk::Text(t) = cs[0] {
            assert(!is_blank(t[0]));
        }
    } else {
        let rest = cs.drop_first();
        assert(word_text(cs) =~= word_text(rest));
        assert forall|k: int| 0 <= k < rest.len() implies chunk_ok(#[trigger] rest[k]) by {
            assert(rest[k] == cs[k + 1]);
        }
        lemma_word_start(rest);
    }
}

proof fn lemma_operator(s: Seq<char>, i: int, t: Tok)
    requires
        at(s, i, operator_text(t)),
        !(t is Word),
        token::char_at(s, i + operator_text(t).len()) matches Some(c) ==> !in_operators(c),
    ensures
        token::operator_at(s, i) == Some((t, operator_text(t).len() as int)),
{
    let w = operator_text(t);
    assert(s[i + 0] == w[0]);
    if w.len() > 1 {
        assert(s[i + 1] == w[1]);
    }
    if w.len() > 2 {
        assert(s[i + 2] == w[2]);
    }
}

proof fn lemma_items(s: Seq<char>, i: int, items: Seq<(Seq<char>, Item)>, acc: Seq<Tok>)
    requires
        at(s, i, line_of(items)),
        i + line_of(items).len() < s.len() ==> s[i + line_of(items).len()] == '#',
        items_ok(items),
    ensures
        token::tokens_from(s, i, acc).0 == Ok::<Seq<Tok>, Seq<char>>(acc + tokens(items)),
    decreases items.len(),
{
    if items.len() == 0 {
        assert(acc + tokens(items) =~= acc);
    } else {
        let (gap, item) = items[0];
        let rest = items.drop_first();
        let w = item_text(item);
        assert(item_ok(items[0].1));
        assert(line_of(items) =~= gap + (w + line_of(rest)));
        lemma_at_add(s, i, gap, w + line_of(rest));
        let k = i + gap.len();
        lemma_at_add(s, k, w, line_of(rest));
        let j = k + w.len();
        lemma_item_start(item);
        assert(s[k + 0] == w[0]);
        assert forall|n: int| 0 <= n < gap.len() implies is_blank(#[trigger] gap[n]) by {
            assert(is_blank(items[0].0[n]));
        }
        lemma_gap(s, i, gap);
        assert(items_ok(rest)) by {
            assert forall|n: int| 0 <= n < rest.len() implies {
                &&& item_ok((#[trigger] rest[n]).1)
                &&& forall|m: int| 0 <= m < rest[n].0.len() ==> is_blank(#[trigger] rest[n].0[m])
                &&& n > 0 && rest[n].0.len() == 0 ==> (rest[n].1 is Word) != (rest[n - 1].1 is Word)
            } by {
                assert(rest[n] == items[n + 1]);
                if n > 0 {
                    assert(rest[n - 1] == items[n]);
                }
            }
        }
        // What stands behind the item.
        if rest.len() > 0 {
            let (g, next) = rest[0];
            assert(rest[0] == items[1]);
            assert(item_ok(items[1].1));
            lemma_item_start(next);
            assert(line_of(rest) =~= g + (item_text(next) + line_of(rest.drop_first())));
            assert(s[j + 0] == line_of(rest)[0]);
            if g.len() > 0 {
                assert(line_of(rest)[0] == g[0]);
                assert(is_blank(items[1].0[0]));
            } else {
                assert(line_of(rest)[0] == item_text(next)[0]);
            }
        }
        let t = item_token(item);
        match item {
            Item::Word(cs) => {
                assert(Seq::<char>::empty() + word_text(cs) =~= word_text(cs));
                lemma_word(s, k, cs, Seq::empty());
                assert(token::operator_at(s, k) is None);
            },
            Item::Operator(op) => {
                lemma_operator(s, k, op);
            },
        }
        assert(token::tokens_from(s, i, acc) == token::tokens_from(s, j, acc.push(t))) by {
            token::lemma_spaces_end(s, i);
            if item is Word {
                token::lemma_word_from(s, k, Seq::empty());
            }
        }
        assert(i + line_of(items).len() == j + line_of(rest).len());
        lemma_items(s, j, rest, acc.push(t));
        assert(acc.push(t) + tokens(rest) =~= acc + tokens(items));
    }
}

/// A line of words and operators is read into these. Quotes, backslashes and
/// commands in parentheses stay in a word as they are written, and so do blanks and
/// operators inside them. Blanks outside part words, and an operator needs none
/// around it.
pub proof fn law_written_tokens_are_read_back(items: Seq<(Seq<char>, Item)>)
    requires
        items_ok(items),
    ensures
        token::tokens_of(line_of(items)) == Ok::<Seq<Tok>, Seq<char>>(tokens(items)),
{
    lemma_items(line_of(items), 0, items, Seq::empty());
    assert(Seq::<Tok>::empty() + tokens(items) =~= tokens(items));
}

/// What follows a `#` outside quotes is not read, also where it stands directly
/// behind a word.
pub proof fn law_comment_ends_the_line(items: Seq<(Seq<char>, Item)>, comment: Seq<char>)
    requires
        items_ok(items),
    ensures
        token::tokens_of(line_of(items) + (seq!['#'] + comment)) == Ok::<Seq<Tok>, Seq<char>>(
            tokens(items),
        ),
{
    let s = line_of(items) + (seq!['#'] + comment);
    assert(at(s, 0, line_of(items)));
    assert(s[line_of(items).len() as int] == '#');
    lemma_items(s, 0, items, Seq::empty());
    assert(Seq::<Tok>::empty() + tokens(items) =~= tokens(items));
}

/// A single quote that is not closed is an error, and so is a double one.
pub proof fn law_open_quotes_are_refused(t: Seq<char>)
    ensures
        !t.contains('\'') ==> token::tokens_of(seq!['\''] + t) == Err::<Seq<Tok>, Seq<char>>(
            "unterminated single quote"@,
        ),
        plain_inside(t) ==> token::tokens_of(seq!['"'] + t) == Err::<
            Seq<Tok>,
            Seq<char>,
        >("unterminated double quote"@),
{
    let a = seq!['\''] + t;
    let b = seq!['"'] + t;
    assert(token::spaces_end(a, 0) == 0);
    assert(token::spaces_end(b, 0) == 0);
    if !t.contains('\'') {
        assert(a.skip(1) =~= t);
        text::lemma_until(a.skip(1), '\'');
        assert(token::word_from(a, 0, Seq::empty()).0 == Err::<Seq<char>, Seq<char>>(
            "unterminated single quote"@,
        ));
    }
    if plain_inside(t) {
        assert(at(b, 1, t)) by {
            assert forall|k: int| 0 <= k < t.len() implies b[1 + k] == #[trigger] t[k] by {
            }
        }
        lemma_inner_plain(b, 1, t, Seq::empty());
        assert(token::double_quoted(b, 1, Seq::empty()).0 == Err::<Seq<char>, Seq<char>>(
            "unterminated double quote"@,
        ));
        assert(token::word_from(b, 0, Seq::empty()).0 == Err::<Seq<char>, Seq<char>>(
            "unterminated double quote"@,
        ));
    }
}

/// A line goes on where it ends in an odd number of backslashes.
pub proof fn law_line_goes_on_behind_a_backslash(s: Seq<char>)
    requires
        s.len() > 0 ==> s.last() != '\\',
    ensures
        !token::goes_on(s),
        token::goes_on(s.push('\\')),
        !token::goes_on(s.push('\\').push('\\')),
        token::goes_on(s.push('\\').push('\\').push('\\')),
{
    let a = s.push('\\');
    let b = a.push('\\');
    let c = b.push('\\');
    assert(a.drop_last() =~= s);
    assert(b.drop_last() =~= a);
    assert(c.drop_last() =~= b);
    assert(token::trailing(s, '\\') == 0);
    assert(token::trailing(a, '\\') == 1);
    assert(token::trailing(b, '\\') == 2);
    assert(token::trailing(c, '\\') == 3);
}

} // verus!
