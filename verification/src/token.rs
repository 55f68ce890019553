//! The tokens of a command line, and the tokenizer that finds them.

use vstd::prelude::*;
use vstd::string::*;

use crate::text;
use crate::text::{contains, from_range, is_ascii_space, owned, to_chars};

verus! {

#[derive(Debug, PartialEq)]
pub enum Token {
    Word(String),
    Pipe,
    Semicolon,
    And,
    Or,
    Background,
    Less,
    Great,
    DoubleGreat,
    LessGreat,
    GreatAnd,
    LessAnd,
    BothGreat,
    BothDoubleGreat,
}

/// What a token is, with the text of a word as a sequence of characters.
#[verifier::ext_equal]
pub enum Tok {
    Word(Seq<char>),
    Pipe,
    Semicolon,
    And,
    Or,
    Background,
    Less,
    Great,
    DoubleGreat,
    LessGreat,
    GreatAnd,
    LessAnd,
    BothGreat,
    BothDoubleGreat,
}

impl View for Token {
    type V = Tok;

    open spec fn view(&self) -> Tok {
        match *self {
            Token::Word(w) => Tok::Word(w@),
            Token::Pipe => Tok::Pipe,
            Token::Semicolon => Tok::Semicolon,
            Token::And => Tok::And,
            Token::Or => Tok::Or,
            Token::Background => Tok::Background,
            Token::Less => Tok::Less,
            Token::Great => Tok::Great,
            Token::DoubleGreat => Tok::DoubleGreat,
            Token::LessGreat => Tok::LessGreat,
            Token::GreatAnd => Tok::GreatAnd,
            Token::LessAnd => Tok::LessAnd,
            Token::BothGreat => Tok::BothGreat,
            Token::BothDoubleGreat => Tok::BothDoubleGreat,
        }
    }
}

impl Clone for Token {
    fn clone(&self) -> (r: Token)
        ensures
            r@ == self@,
    {
        match self {
            Token::Word(w) => Token::Word(w.clone()),
            Token::Pipe => Token::Pipe,
            Token::Semicolon => Token::Semicolon,
            Token::And => Token::And,
            Token::Or => Token::Or,
            Token::Background => Token::Background,
            Token::Less => Token::Less,
            Token::Great => Token::Great,
            Token::DoubleGreat => Token::DoubleGreat,
            Token::LessGreat => Token::LessGreat,
            Token::GreatAnd => Token::GreatAnd,
            Token::LessAnd => Token::LessAnd,
            Token::BothGreat => Token::BothGreat,
            Token::BothDoubleGreat => Token::BothDoubleGreat,
        }
    }
}

pub open spec fn toks(v: Seq<Token>) -> Seq<Tok> {
    v.map_values(|t: Token| t@)
}

pub broadcast proof fn toks_push(v: Seq<Token>, t: Token)
    ensures
        #[trigger] toks(v.push(t)) == toks(v).push(t@),
{
    assert(toks(v.push(t)) =~= toks(v).push(t@));
}

// ---------------------------------------------------------------------------
// The grammar
// ---------------------------------------------------------------------------

/// What reading gave, a text or a message, and where reading stopped.
pub type Reading = (Result<Seq<char>, Seq<char>>, int);

/// The characters that end a word, besides white space.
pub open spec fn breaks_word(c: char) -> bool {
    c == '|' || c == ';' || c == '&' || c == '<' || c == '>' || c == '#'
}

/// The character at `i`, if there is one.
pub open spec fn char_at(s: Seq<char>, i: int) -> Option<char> {
    if 0 <= i < s.len() {
        Some(s[i])
    } else {
        None
    }
}

/// The text from `i` up to the closing single quote.
pub open spec fn single_quoted(s: Seq<char>, i: int) -> Reading {
    let n = text::until(s.skip(i), '\'') as int;
    if i + n < s.len() {
        (Ok(s.subrange(i, i + n)), i + n + 1)
    } else {
        (Err("unterminated single quote"@), s.len() as int)
    }
}

/// The place just after the parenthesis that closes the `depth` open ones.
pub open spec fn paren_end(s: Seq<char>, i: int, depth: nat) -> Option<int>
    decreases s.len() - i,
{
    if i < 0 || i >= s.len() {
        None
    } else if s[i] == '(' {
        paren_end(s, i + 1, depth + 1)
    } else if s[i] == ')' {
        if depth <= 1 {
            Some(i + 1)
        } else {
            paren_end(s, i + 1, (depth - 1) as nat)
        }
    } else {
        paren_end(s, i + 1, depth)
    }
}

pub proof fn lemma_paren_end(s: Seq<char>, i: int, depth: nat)
    ensures
        paren_end(s, i, depth) matches Some(j) ==> i < j <= s.len(),
    decreases s.len() - i,
{
    if 0 <= i < s.len() {
        if s[i] == '(' {
            lemma_paren_end(s, i + 1, depth + 1);
        } else if s[i] == ')' {
            if depth > 1 {
                lemma_paren_end(s, i + 1, (depth - 1) as nat);
            }
        } else {
            lemma_paren_end(s, i + 1, depth);
        }
    }
}

/// The text from `i` up to the closing double quote, put behind `acc`. A
/// backslash keeps the character after it from ending the text; before a line
/// feed it goes with it. A command substitution is kept whole.
pub open spec fn double_quoted(s: Seq<char>, i: int, acc: Seq<char>) -> Reading
    decreases s.len() - i,
{
    if i < 0 || i >= s.len() {
        (Err("unterminated double quote"@), s.len() as int)
    } else if s[i] == '"' {
        (Ok(acc), i + 1)
    } else if s[i] == '\\' {
        match char_at(s, i + 1) {
            None => double_quoted(s, i + 1, acc.push('\\')),
            Some('\n') => double_quoted(s, i + 2, acc),
            Some(c) => double_quoted(s, i + 2, acc.push('\\').push(c)),
        }
    } else if s[i] == '$' && char_at(s, i + 1) == Some('(') {
        proof {
            lemma_paren_end(s, i + 2, 1);
        }
        match paren_end(s, i + 2, 1) {
            Some(j) => double_quoted(s, j, acc + s.subrange(i, j)),
            None => (
                Err("unterminated command substitution inside double quotes"@),
                s.len() as int,
            ),
        }
    } else {
        double_quoted(s, i + 1, acc.push(s[i]))
    }
}

pub proof fn lemma_double_quoted(s: Seq<char>, i: int, acc: Seq<char>)
    requires
        0 <= i <= s.len(),
    ensures
        double_quoted(s, i, acc).0 is Ok ==> i < double_quoted(s, i, acc).1,
        double_quoted(s, i, acc).1 <= s.len(),
        double_quoted(s, i, acc).0 is Err ==> double_quoted(s, i, acc).1 == s.len(),
    decreases s.len() - i,
{
    if i < s.len() {
        if s[i] == '"' {
        } else if s[i] == '\\' {
            match char_at(s, i + 1) {
                None => lemma_double_quoted(s, i + 1, acc.push('\\')),
                Some('\n') => lemma_double_quoted(s, i + 2, acc),
                Some(c) => lemma_double_quoted(s, i + 2, acc.push('\\').push(c)),
            }
        } else if s[i] == '$' && char_at(s, i + 1) == Some('(') {
            lemma_paren_end(s, i + 2, 1);
            if let Some(j) = paren_end(s, i + 2, 1) {
                lemma_double_quoted(s, j, acc + s.subrange(i, j));
            }
        } else {
            lemma_double_quoted(s, i + 1, acc.push(s[i]));
        }
    }
}

/// Where the command substitution whose text starts at `i` ends: after its
/// closing parenthesis, or at the end of the input.
pub open spec fn substitution_end(s: Seq<char>, i: int) -> int {
    match paren_end(s, i, 1) {
        Some(j) => j,
        None => s.len() as int,
    }
}

/// The word that goes on at `i`, put behind `acc`. Quotes, backslashes and
/// command substitutions stay in the word as they were written.
pub open spec fn word_from(s: Seq<char>, i: int, acc: Seq<char>) -> Reading
    decreases s.len() - i,
{
    if i < 0 || i >= s.len() || text::ascii_space(s[i]) || breaks_word(s[i]) {
        if acc.len() == 0 {
            (Err("expected word"@), i)
        } else {
            (Ok(acc), i)
        }
    } else if s[i] == '\'' {
        proof {
            text::lemma_until(s.skip(i + 1), '\'');
        }
        match single_quoted(s, i + 1) {
            (Ok(t), j) => word_from(s, j, (acc.push('\'') + t).push('\'')),
            (Err(e), j) => (Err(e), j),
        }
    } else if s[i] == '"' {
        proof {
            lemma_double_quoted(s, i + 1, Seq::empty());
        }
        match double_quoted(s, i + 1, Seq::empty()) {
            (Ok(t), j) => word_from(s, j, (acc.push('"') + t).push('"')),
            (Err(e), j) => (Err(e), j),
        }
    } else if s[i] == '\\' {
        match char_at(s, i + 1) {
            None => word_from(s, i + 1, acc.push('\\')),
            Some(c) => word_from(s, i + 2, acc.push('\\').push(c)),
        }
    } else if s[i] == '$' && char_at(s, i + 1) == Some('(') {
        proof {
            lemma_paren_end(s, i + 2, 1);
        }
        let j = substitution_end(s, i + 2);
        word_from(s, j, acc + s.subrange(i, j))
    } else {
        word_from(s, i + 1, acc.push(s[i]))
    }
}

/// The operator at `i`, if there is one, and its length.
pub open spec fn operator_at(s: Seq<char>, i: int) -> Option<(Tok, int)> {
    match char_at(s, i) {
        Some(';') => Some((Tok::Semicolon, 1)),
        Some('|') => if char_at(s, i + 1) == Some('|') {
            Some((Tok::Or, 2))
        } else {
            Some((Tok::Pipe, 1))
        },
        Some('&') => if char_at(s, i + 1) == Some('>') {
            if char_at(s, i + 2) == Some('>') {
                Some((Tok::BothDoubleGreat, 3))
            } else {
                Some((Tok::BothGreat, 2))
            }
        } else if char_at(s, i + 1) == Some('&') {
            Some((Tok::And, 2))
        } else {
            Some((Tok::Background, 1))
        },
        Some('<') => if char_at(s, i + 1) == Some('>') {
            Some((Tok::LessGreat, 2))
        } else if char_at(s, i + 1) == Some('&') {
            Some((Tok::LessAnd, 2))
        } else {
            Some((Tok::Less, 1))
        },
        Some('>') => if char_at(s, i + 1) == Some('>') {
            Some((Tok::DoubleGreat, 2))
        } else if char_at(s, i + 1) == Some('&') {
            Some((Tok::GreatAnd, 2))
        } else {
            Some((Tok::Great, 1))
        },
        _ => None,
    }
}

/// The first place at or after `i` that holds no ASCII white space.
pub open spec fn spaces_end(s: Seq<char>, i: int) -> int
    decreases s.len() - i,
{
    if 0 <= i < s.len() && text::ascii_space(s[i]) {
        spaces_end(s, i + 1)
    } else {
        i
    }
}

pub proof fn lemma_spaces_end(s: Seq<char>, i: int)
    ensures
        i <= spaces_end(s, i),
        i <= s.len() ==> spaces_end(s, i) <= s.len(),
        0 <= spaces_end(s, i) < s.len() ==> !text::ascii_space(s[spaces_end(s, i)]),
    decreases s.len() - i,
{
    if 0 <= i < s.len() && text::ascii_space(s[i]) {
        lemma_spaces_end(s, i + 1);
    }
}

/// A word that is read ends after the place where it starts.
pub proof fn lemma_word_from(s: Seq<char>, i: int, acc: Seq<char>)
    requires
        0 <= i <= s.len(),
    ensures
        i <= word_from(s, i, acc).1 <= s.len(),
        i < s.len() && !text::ascii_space(s[i]) && !breaks_word(s[i]) ==> i < word_from(
            s,
            i,
            acc,
        ).1,
        word_from(s, i, acc).0 matches Ok(w) ==> w.len() > 0,
    decreases s.len() - i,
{
    if i >= s.len() || text::ascii_space(s[i]) || breaks_word(s[i]) {
    } else if s[i] == '\'' {
        text::lemma_until(s.skip(i + 1), '\'');
        if let (Ok(t), j) = single_quoted(s, i + 1) {
            lemma_word_from(s, j, (acc.push('\'') + t).push('\''));
        }
    } else if s[i] == '"' {
        lemma_double_quoted(s, i + 1, Seq::empty());
        if let (Ok(t), j) = double_quoted(s, i + 1, Seq::empty()) {
            lemma_word_from(s, j, (acc.push('"') + t).push('"'));
        }
    } else if s[i] == '\\' {
        match char_at(s, i + 1) {
            None => lemma_word_from(s, i + 1, acc.push('\\')),
            Some(c) => lemma_word_from(s, i + 2, acc.push('\\').push(c)),
        }
    } else if s[i] == '$' && char_at(s, i + 1) == Some('(') {
        lemma_paren_end(s, i + 2, 1);
        let j = substitution_end(s, i + 2);
        lemma_word_from(s, j, acc + s.subrange(i, j));
    } else {
        lemma_word_from(s, i + 1, acc.push(s[i]));
    }
}

/// The tokens from `i` on, put behind `acc`, or the message that says what is
/// wrong, and where reading stopped. A `#` where a token could start ends the
/// input.
pub open spec fn tokens_from(s: Seq<char>, i: int, acc: Seq<Tok>) -> (
    Result<Seq<Tok>, Seq<char>>,
    int,
)
    decreases s.len() - i,
{
    proof {
        lemma_spaces_end(s, i);
    }
    let k = spaces_end(s, i);
    if k < 0 || k >= s.len() || s[k] == '#' {
        (Ok(acc), k)
    } else {
        match operator_at(s, k) {
            Some((t, n)) => tokens_from(s, k + n, acc.push(t)),
            None => {
                proof {
                    lemma_word_from(s, k, Seq::empty());
                }
                match word_from(s, k, Seq::empty()) {
                    (Ok(w), j) => tokens_from(s, j, acc.push(Tok::Word(w))),
                    (Err(e), j) => (Err(e), j),
                }
            },
        }
    }
}

/// The tokens of a command line.
pub open spec fn tokens_of(s: Seq<char>) -> Result<Seq<Tok>, Seq<char>> {
    tokens_from(s, 0, Seq::empty()).0
}

/// Whether a result holds the tokens or the message that `want` does.
pub open spec fn gives_tokens(
    r: Result<Vec<Token>, String>,
    want: Result<Seq<Tok>, Seq<char>>,
) -> bool {
    match r {
        Ok(v) => want == Ok::<Seq<Tok>, Seq<char>>(toks(v@)),
        Err(e) => want == Err::<Seq<Tok>, Seq<char>>(e@),
    }
}

/// Whether a result holds the text or the message that `want` does.
pub open spec fn gives_text(r: Result<String, String>, want: Result<Seq<char>, Seq<char>>) -> bool {
    match r {
        Ok(v) => want == Ok::<Seq<char>, Seq<char>>(v@),
        Err(e) => want == Err::<Seq<char>, Seq<char>>(e@),
    }
}

// ---------------------------------------------------------------------------
// The tokenizer
// ---------------------------------------------------------------------------

/// Reads tokens off a text, from a place in it onwards.
pub struct Tokenizer {
    chars: Vec<char>,
    pos: usize,
}

impl Tokenizer {
    /// The text that is read.
    pub closed spec fn input(self) -> Seq<char> {
        self.chars@
    }

    /// How many characters have been read.
    pub closed spec fn place(self) -> int {
        self.pos as int
    }

    pub closed spec fn wf(self) -> bool {
        self.pos <= self.chars.len()
    }

    pub fn new(input: &str) -> (t: Tokenizer)
        ensures
            t.wf(),
            t.input() == input@,
            t.place() == 0,
    {
        Tokenizer { chars: to_chars(input), pos: 0 }
    }

    /// The character that comes next.
    pub fn peek(&self) -> (c: Option<char>)
        requires
            self.wf(),
        ensures
            c == char_at(self.input(), self.place()),
    {
        if self.pos < self.chars.len() {
            Some(self.chars[self.pos])
        } else {
            None
        }
    }

    /// Reads the character that comes next.
    pub fn next(&mut self) -> (c: Option<char>)
        requires
            old(self).wf(),
        ensures
            final(self).wf(),
            final(self).input() == old(self).input(),
            c == char_at(old(self).input(), old(self).place()),
            final(self).place() == old(self).place() + (if c is Some {
                1int
            } else {
                0int
            }),
    {
        let c = self.peek();
        if c.is_some() {
            self.pos += 1;
        }
        c
    }

    pub fn skip_whitespace(&mut self)
        requires
            old(self).wf(),
        ensures
            final(self).wf(),
            final(self).input() == old(self).input(),
            final(self).place() == spaces_end(old(self).input(), old(self).place()),
    {
        while self.pos < self.chars.len() && is_ascii_space(self.chars[self.pos])
            invariant
                self.wf(),
                self.input() == old(self).input(),
                spaces_end(self.input(), self.place()) == spaces_end(
                    old(self).input(),
                    old(self).place(),
                ),
            decreases self.chars@.len() - self.pos,
        {
            self.pos += 1;
        }
    }

    /// Reads on to the closing single quote.
    pub fn read_single_quote(&mut self) -> (r: Result<String, String>)
        requires
            old(self).wf(),
        ensures
            final(self).wf(),
            final(self).input() == old(self).input(),
            gives_text(r, single_quoted(old(self).input(), old(self).place()).0),
            final(self).place() == single_quoted(old(self).input(), old(self).place()).1,
    {
        let start = self.pos;
        let ghost s = self.chars@;
        let ghost tail = s.skip(start as int);
        proof {
            text::lemma_until(tail, '\'');
        }
        while self.pos < self.chars.len() && self.chars[self.pos] != '\''
            invariant
                self.chars@ == s,
                tail == s.skip(start as int),
                start <= self.pos <= s.len(),
                forall|k: int| start <= k < self.pos ==> s[k] != '\'',
            decreases s.len() - self.pos,
        {
            self.pos += 1;
        }
        proof {
            text::lemma_until(tail, '\'');
            let n = text::until(tail, '\'') as int;
            if start + n < self.pos {
                assert(tail[n] == s[start + n]);
            }
            if start + n > self.pos {
                assert(tail[self.pos - start] == s[self.pos as int]);
            }
        }
        if self.pos < self.chars.len() {
            let end = self.pos;
            self.pos += 1;
            Ok(from_range(&self.chars, start, end))
        } else {
            Err(owned("unterminated single quote"))
        }
    }

    /// Reads on to where the substitution whose text starts here ends; whether
    /// it was closed.
    fn read_substitution(&mut self) -> (closed: bool)
        requires
            old(self).wf(),
            old(self).place() > 0,
        ensures
            final(self).wf(),
            final(self).input() == old(self).input(),
            closed == (paren_end(old(self).input(), old(self).place(), 1) is Some),
            final(self).place() == substitution_end(old(self).input(), old(self).place()),
    {
        let mut depth: usize = 1;
        let ghost start = self.pos;
        while self.pos < self.chars.len()
            invariant
                self.wf(),
                self.input() == old(self).input(),
                0 < start <= self.pos,
                1 <= depth <= 1 + self.pos - start,
                paren_end(self.input(), self.place(), depth as nat) == paren_end(
                    old(self).input(),
                    old(self).place(),
                    1,
                ),
            decreases self.chars@.len() - self.pos,
        {
            let c = self.chars[self.pos];
            self.pos += 1;
            if c == '(' {
                depth += 1;
            } else if c == ')' {
                depth -= 1;
                if depth == 0 {
                    return true;
                }
            }
        }
        false
    }

    /// Reads on to the closing double quote.
    pub fn read_double_quote(&mut self) -> (r: Result<String, String>)
        requires
            old(self).wf(),
        ensures
            final(self).wf(),
            final(self).input() == old(self).input(),
            gives_text(r, double_quoted(old(self).input(), old(self).place(), Seq::empty()).0),
            final(self).place() == double_quoted(
                old(self).input(),
                old(self).place(),
                Seq::empty(),
            ).1,
    {
        let mut s = String::new();
        loop
            invariant
                self.wf(),
                self.input() == old(self).input(),
                double_quoted(self.input(), self.place(), s@) == double_quoted(
                    old(self).input(),
                    old(self).place(),
                    Seq::empty(),
                ),
            decreases self.chars@.len() - self.pos,
        {
            let i = self.pos;
            match self.next() {
                Some('"') => {
                    return Ok(s);
                },
                Some('\\') => match self.next() {
                    Some('\n') => {},
                    Some(c) => {
                        s.push('\\');
                        s.push(c);
                    },
                    None => {
                        s.push('\\');
                    },
                },
                Some('$') => {
                    if self.peek() == Some('(') {
                        self.pos += 1;
                        proof {
                            lemma_paren_end(self.chars@, self.pos as int, 1);
                        }
                        if !self.read_substitution() {
                            return Err(
                                owned("unterminated command substitution inside double quotes"),
                            );
                        }
                        let t = from_range(&self.chars, i, self.pos);
                        s.append(t.as_str());
                    } else {
                        s.push('$');
                    }
                },
                Some(c) => {
                    s.push(c);
                },
                None => {
                    return Err(owned("unterminated double quote"));
                },
            }
        }
    }

    /// Reads a word.
    pub fn read_word(&mut self) -> (r: Result<String, String>)
        requires
            old(self).wf(),
        ensures
            final(self).wf(),
            final(self).input() == old(self).input(),
            gives_text(r, word_from(old(self).input(), old(self).place(), Seq::empty()).0),
            final(self).place() == word_from(
                old(self).input(),
                old(self).place(),
                Seq::empty(),
            ).1,
    {
        let mut word = String::new();
        loop
            invariant
                self.wf(),
                self.input() == old(self).input(),
                word_from(self.input(), self.place(), word@) == word_from(
                    old(self).input(),
                    old(self).place(),
                    Seq::empty(),
                ),
            decreases self.chars@.len() - self.pos,
        {
            let i = self.pos;
            let ghost s = self.chars@;
            let stop = match self.peek() {
                Some(c) => is_ascii_space(c) || c == '|' || c == ';' || c == '&' || c == '<' || c
                    == '>' || c == '#',
                None => true,
            };
            if stop {
                if word.as_str().is_empty() {
                    return Err(owned("expected word"));
                }
                return Ok(word);
            }
            match self.next() {
                Some('\'') => {
                    proof {
                        text::lemma_until(s.skip(i + 1), '\'');
                    }
                    let content = self.read_single_quote()?;
                    word.push('\'');
                    word.append(content.as_str());
                    word.push('\'');
                },
                Some('"') => {
                    proof {
                        lemma_double_quoted(s, i + 1, Seq::empty());
                    }
                    let content = self.read_double_quote()?;
                    word.push('"');
                    word.append(content.as_str());
                    word.push('"');
                },
                Some('\\') => {
                    word.push('\\');
                    match self.next() {
                        Some(c) => {
                            word.push(c);
                        },
                        None => {},
                    }
                },
                Some('$') => {
                    if self.peek() == Some('(') {
                        self.pos += 1;
                        proof {
                            lemma_paren_end(self.chars@, self.pos as int, 1);
                        }
                        self.read_substitution();
                        let t = from_range(&self.chars, i, self.pos);
                        word.append(t.as_str());
                    } else {
                        word.push('$');
                    }
                },
                Some(c) => {
                    word.push(c);
                },
                None => {},
            }
        }
    }

    /// Reads the operator that comes next, if one does.
    fn read_operator(&mut self) -> (r: Option<Token>)
        requires
            old(self).wf(),
        ensures
            final(self).wf(),
            final(self).input() == old(self).input(),
            match r {
                Some(t) => operator_at(old(self).input(), old(self).place()) == Some(
                    (t@, final(self).place() - old(self).place()),
                ),
                None => operator_at(old(self).input(), old(self).place()) is None
                    && final(self).place() == old(self).place(),
            },
    {
        match self.peek() {
            Some(';') => {
                self.next();
                Some(Token::Semicolon)
            },
            Some('|') => {
                self.next();
                if self.peek() == Some('|') {
                    self.next();
                    Some(Token::Or)
                } else {
                    Some(Token::Pipe)
                }
            },
            Some('&') => {
                self.next();
                if self.peek() == Some('>') {
                    self.next();
                    if self.peek() == Some('>') {
                        self.next();
                        Some(Token::BothDoubleGreat)
                    } else {
                        Some(Token::BothGreat)
                    }
                } else if self.peek() == Some('&') {
                    self.next();
                    Some(Token::And)
                } else {
                    Some(Token::Background)
                }
            },
            Some('<') => {
                self.next();
                if self.peek() == Some('>') {
                    self.next();
                    Some(Token::LessGreat)
                } else if self.peek() == Some('&') {
                    self.next();
                    Some(Token::LessAnd)
                } else {
                    Some(Token::Less)
                }
            },
            Some('>') => {
                self.next();
                if self.peek() == Some('>') {
                    self.next();
                    Some(Token::DoubleGreat)
                } else if self.peek() == Some('&') {
                    self.next();
                    Some(Token::GreatAnd)
                } else {
                    Some(Token::Great)
                }
            },
            _ => None,
        }
    }

    /// Reads all the tokens that are left.
    pub fn tokenize(&mut self) -> (r: Result<Vec<Token>, String>)
        requires
            old(self).wf(),
        ensures
            final(self).wf(),
            final(self).input() == old(self).input(),
            gives_tokens(r, tokens_from(old(self).input(), old(self).place(), Seq::empty()).0),
            final(self).place() == tokens_from(
                old(self).input(),
                old(self).place(),
                Seq::empty(),
            ).1,
    {
        let mut tokens: Vec<Token> = Vec::new();
        assert(toks(tokens@) =~= Seq::empty());
        loop
            invariant
                self.wf(),
                self.input() == old(self).input(),
                tokens_from(self.input(), self.place(), toks(tokens@)) == tokens_from(
                    old(self).input(),
                    old(self).place(),
                    Seq::empty(),
                ),
            decreases self.chars@.len() - self.pos,
        {
            broadcast use toks_push;
            let ghost s = self.chars@;
            proof {
                lemma_spaces_end(s, self.pos as int);
            }
            self.skip_whitespace();
            let c = self.peek();
            if c.is_none() || c == Some('#') {
                return Ok(tokens);
            }
            match self.read_operator() {
                Some(t) => {
                    tokens.push(t);
                },
                None => {
                    proof {
                        lemma_word_from(s, self.pos as int, Seq::empty());
                    }
                    let word = self.read_word()?;
                    tokens.push(Token::Word(word));
                },
            }
        }
    }
}

// ---------------------------------------------------------------------------
// Lines that go on
// ---------------------------------------------------------------------------

/// How many characters `c` stand at the end of `s`.
pub open spec fn trailing(s: Seq<char>, c: char) -> nat
    decreases s.len(),
{
    if s.len() > 0 && s.last() == c {
        1 + trailing(s.drop_last(), c)
    } else {
        0
    }
}

/// Whether the last character of a line is a backslash that no other escapes.
pub open spec fn goes_on(s: Seq<char>) -> bool {
    trailing(s, '\\') % 2 == 1
}

/// Whether a line is a command that needs no further line to be read.
pub open spec fn line_complete(s: Seq<char>) -> bool {
    !goes_on(s) && match tokens_of(s) {
        Ok(_) => true,
        Err(e) => !text::mentions(e, "unterminated"@),
    }
}

/// True if `line` ends in an odd number of backslashes: the last of them is
/// not escaped, so it marks that the line goes on.
pub fn ends_in_unescaped_backslash(line: &str) -> (r: bool)
    ensures
        r == goes_on(line@),
{
    let v = to_chars(line);
    let mut n: usize = v.len();
    let mut odd = false;
    assert(v@.take(n as int) =~= v@);
    while n > 0 && v[n - 1] == '\\'
        invariant
            v@ == line@,
            n <= v.len(),
            goes_on(line@) == ((trailing(v@.take(n as int), '\\') + (if odd {
                1nat
            } else {
                0nat
            })) % 2 == 1),
        decreases n,
    {
        assert(v@.take(n as int).drop_last() =~= v@.take(n - 1));
        n -= 1;
        odd = !odd;
    }
    odd
}

/// Whether `line` is complete: it does not end in a lone backslash, and the
/// tokenizer does not need more input to finish a quotation.
pub fn is_line_complete(line: &str) -> (r: bool)
    ensures
        r == line_complete(line@),
{
    if ends_in_unescaped_backslash(line) {
        return false;
    }
    let mut t = Tokenizer::new(line);
    match t.tokenize() {
        Ok(_) => true,
        Err(e) => !contains(e.as_str(), "unterminated"),
    }
}

// ---------------------------------------------------------------------------
// What holds of all lines
// ---------------------------------------------------------------------------

/// The messages for a quotation that does not end.
pub open spec fn unterminated(e: Seq<char>) -> bool {
    ||| e == "unterminated single quote"@
    ||| e == "unterminated double quote"@
    ||| e == "unterminated command substitution inside double quotes"@
}

proof fn lemma_double_quoted_message(s: Seq<char>, i: int, acc: Seq<char>)
    requires
        0 <= i <= s.len(),
    ensures
        double_quoted(s, i, acc).0 matches Err(e) ==> unterminated(e),
    decreases s.len() - i,
{
    if i < s.len() {
        if s[i] == '"' {
        } else if s[i] == '\\' {
            match char_at(s, i + 1) {
                None => lemma_double_quoted_message(s, i + 1, acc.push('\\')),
                Some('\n') => lemma_double_quoted_message(s, i + 2, acc),
                Some(c) => lemma_double_quoted_message(s, i + 2, acc.push('\\').push(c)),
            }
        } else if s[i] == '$' && char_at(s, i + 1) == Some('(') {
            lemma_paren_end(s, i + 2, 1);
            if let Some(j) = paren_end(s, i + 2, 1) {
                lemma_double_quoted_message(s, j, acc + s.subrange(i, j));
            }
        } else {
            lemma_double_quoted_message(s, i + 1, acc.push(s[i]));
        }
    }
}

proof fn lemma_word_message(s: Seq<char>, i: int, acc: Seq<char>)
    requires
        0 <= i <= s.len(),
        acc.len() > 0 || (i < s.len() && !text::ascii_space(s[i]) && !breaks_word(s[i])),
    ensures
        word_from(s, i, acc).0 matches Err(e) ==> unterminated(e),
    decreases s.len() - i,
{
    if i >= s.len() || text::ascii_space(s[i]) || breaks_word(s[i]) {
    } else if s[i] == '\'' {
        text::lemma_until(s.skip(i + 1), '\'');
        if let (Ok(t), j) = single_quoted(s, i + 1) {
            lemma_word_message(s, j, (acc.push('\'') + t).push('\''));
        }
    } else if s[i] == '"' {
        lemma_double_quoted(s, i + 1, Seq::empty());
        lemma_double_quoted_message(s, i + 1, Seq::empty());
        if let (Ok(t), j) = double_quoted(s, i + 1, Seq::empty()) {
            lemma_word_message(s, j, (acc.push('"') + t).push('"'));
        }
    } else if s[i] == '\\' {
        match char_at(s, i + 1) {
            None => lemma_word_message(s, i + 1, acc.push('\\')),
            Some(c) => lemma_word_message(s, i + 2, acc.push('\\').push(c)),
        }
    } else if s[i] == '$' && char_at(s, i + 1) == Some('(') {
        lemma_paren_end(s, i + 2, 1);
        let j = substitution_end(s, i + 2);
        lemma_word_message(s, j, acc + s.subrange(i, j));
    } else {
        lemma_word_message(s, i + 1, acc.push(s[i]));
    }
}

proof fn lemma_tokens_message(s: Seq<char>, i: int, acc: Seq<Tok>)
    requires
        0 <= i <= s.len(),
    ensures
        tokens_from(s, i, acc).0 matches Err(e) ==> unterminated(e),
        tokens_from(s, i, acc).0 matches Ok(ts) ==> acc.len() <= ts.len() && (forall|k: int|
            acc.len() <= k < ts.len() ==> (#[trigger] ts[k] matches Tok::Word(w) ==> w.len() > 0))
            && ts.take(acc.len() as int) == acc,
    decreases s.len() - i,
{
    lemma_spaces_end(s, i);
    let k = spaces_end(s, i);
    if k >= s.len() || s[k] == '#' {
        assert(acc.take(acc.len() as int) =~= acc);
    } else {
        match operator_at(s, k) {
            Some((t, n)) => {
                lemma_tokens_message(s, k + n, acc.push(t));
                if let Ok(ts) = tokens_from(s, k + n, acc.push(t)).0 {
                    assert(ts[acc.len() as int] == ts.take(acc.len() as int + 1)[acc.len() as int]);
                    assert(ts.take(acc.len() as int) =~= acc.push(t).take(acc.len() as int)) by {
                        assert(ts.take(acc.len() as int) =~= ts.take(acc.len() as int + 1).take(
                            acc.len() as int,
                        ));
                    }
                    assert(acc.push(t).take(acc.len() as int) =~= acc);
                }
            },
            None => {
                lemma_word_from(s, k, Seq::empty());
                lemma_word_message(s, k, Seq::empty());
                if let (Ok(w), j) = word_from(s, k, Seq::empty()) {
                    let t = Tok::Word(w);
                    lemma_tokens_message(s, j, acc.push(t));
                    if let Ok(ts) = tokens_from(s, j, acc.push(t)).0 {
                        assert(ts[acc.len() as int] == ts.take(acc.len() as int + 1)[acc.len() as int]);
                        assert(ts.take(acc.len() as int) =~= acc.push(t).take(
                            acc.len() as int,
                        )) by {
                            assert(ts.take(acc.len() as int) =~= ts.take(acc.len() as int + 1).take(
                                acc.len() as int,
                            ));
                        }
                        assert(acc.push(t).take(acc.len() as int) =~= acc);
                    }
                }
            },
        }
    }
}

/// The only thing that keeps a line from being read into tokens is a quotation,
/// or a substitution in double quotes, that does not end.
pub proof fn law_only_open_quotes_fail(s: Seq<char>)
    ensures
        tokens_of(s) matches Err(e) ==> unterminated(e),
{
    lemma_tokens_message(s, 0, Seq::empty());
}

/// No word among the tokens of a line is empty.
pub proof fn law_words_are_not_empty(s: Seq<char>, k: int)
    requires
        tokens_of(s) matches Ok(ts) && 0 <= k < ts.len() && ts[k] is Word,
    ensures
        tokens_of(s)->Ok_0[k]->Word_0.len() > 0,
{
    lemma_tokens_message(s, 0, Seq::empty());
    let ts = tokens_of(s)->Ok_0;
    assert(ts[k] matches Tok::Word(w) ==> w.len() > 0);
}

/// A line is complete exactly if it does not end in a lone backslash and can
/// be read into tokens.
pub proof fn law_complete_lines_tokenize(s: Seq<char>)
    ensures
        line_complete(s) <==> !goes_on(s) && tokens_of(s) is Ok,
{
    law_only_open_quotes_fail(s);
    if let Err(e) = tokens_of(s) {
        reveal_strlit("unterminated");
        reveal_strlit("unterminated single quote");
        reveal_strlit("unterminated double quote");
        reveal_strlit("unterminated command substitution inside double quotes");
        assert(e.subrange(0, 12) =~= "unterminated"@);
        assert(text::occurs_at(e, "unterminated"@, 0));
    }
}

/// Text behind a `#` that stands where a token could start is not read: a line
/// that holds nothing but white space before it has no tokens.
pub proof fn law_comments_have_no_tokens(blank: Seq<char>, comment: Seq<char>)
    requires
        forall|k: int| 0 <= k < blank.len() ==> text::ascii_space(#[trigger] blank[k]),
    ensures
        tokens_of(blank.push('#') + comment) == Ok::<Seq<Tok>, Seq<char>>(Seq::empty()),
{
    let s = blank.push('#') + comment;
    lemma_blank(s, 0, blank.len() as int);
}

proof fn lemma_blank(s: Seq<char>, i: int, n: int)
    requires
        0 <= i <= n < s.len(),
        forall|k: int| i <= k < n ==> text::ascii_space(#[trigger] s[k]),
        !text::ascii_space(s[n]),
    ensures
        spaces_end(s, i) == n,
    decreases n - i,
{
    if i < n {
        lemma_blank(s, i + 1, n);
    }
}

} // verus!
