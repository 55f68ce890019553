//! Aliases, put in before tokens are parsed, so that operators in the value of
//! an alias become operators of the command line.

use vstd::prelude::*;

use crate::shell::{Shell, StringMap};
use crate::text;
use crate::text::holds;
use crate::token;
use crate::token::{Tok, Token, Tokenizer};

verus! {

/// Whether a command may start behind `t`.
pub open spec fn starts_command(t: Tok) -> bool {
    t is Semicolon || t is And || t is Or || t is Pipe || t is Background
}

/// What stands in for an alias with this value. One that is no token sequence
/// stands for nothing.
pub open spec fn replacement(value: Seq<char>) -> Seq<Tok> {
    match token::tokens_of(value) {
        Ok(ts) => ts,
        Err(_) => Seq::empty(),
    }
}

/// The name and the value of the alias that `t` is to be replaced for, if it
/// is to be replaced: a word where a command starts that has a value, and that
/// has not been replaced on the way here.
pub open spec fn alias_for(
    t: Tok,
    at_start: bool,
    visited: Seq<Seq<char>>,
    aliases: Map<Seq<char>, Seq<char>>,
) -> Option<(Seq<char>, Seq<char>)> {
    match t {
        Tok::Word(w) => if at_start && !visited.contains(w) && aliases.dom().contains(w) {
            Some((w, aliases[w]))
        } else {
            None
        },
        _ => None,
    }
}

/// The tokens of `pending` with aliases put in, behind `done`, if `steps` steps
/// are enough for it. `visited` are the aliases replaced since the last token
/// that stayed.
pub open spec fn aliased_from(
    pending: Seq<Tok>,
    at_start: bool,
    visited: Seq<Seq<char>>,
    done: Seq<Tok>,
    aliases: Map<Seq<char>, Seq<char>>,
    steps: nat,
) -> Option<Seq<Tok>>
    decreases steps,
{
    if pending.len() == 0 {
        Some(done)
    } else if steps == 0 {
        None
    } else {
        let t = pending[0];
        let rest = pending.drop_first();
        match alias_for(t, at_start, visited, aliases) {
            Some((w, value)) => aliased_from(
                replacement(value) + rest,
                at_start,
                visited.push(w),
                done,
                aliases,
                (steps - 1) as nat,
            ),
            None => aliased_from(
                rest,
                starts_command(t),
                Seq::empty(),
                done.push(t),
                aliases,
                (steps - 1) as nat,
            ),
        }
    }
}

/// The tokens with aliases put in, if `steps` steps are enough for it.
pub open spec fn aliased_within(
    ts: Seq<Tok>,
    aliases: Map<Seq<char>, Seq<char>>,
    steps: nat,
) -> Option<Seq<Tok>> {
    aliased_from(ts, true, Seq::empty(), Seq::empty(), aliases, steps)
}

/// Whether putting aliases in comes to an end. It does not where the value of
/// an alias names the alias again behind an operator.
pub open spec fn settles(ts: Seq<Tok>, aliases: Map<Seq<char>, Seq<char>>) -> bool {
    exists|steps: nat| #[trigger] aliased_within(ts, aliases, steps) is Some
}

/// The tokens with aliases put in, where that comes to an end.
pub open spec fn aliased(ts: Seq<Tok>, aliases: Map<Seq<char>, Seq<char>>) -> Seq<Tok> {
    aliased_within(
        ts,
        aliases,
        choose|steps: nat| #[trigger] aliased_within(ts, aliases, steps) is Some,
    )->0
}

proof fn lemma_more_steps(
    pending: Seq<Tok>,
    at_start: bool,
    visited: Seq<Seq<char>>,
    done: Seq<Tok>,
    aliases: Map<Seq<char>, Seq<char>>,
    n: nat,
    m: nat,
)
    requires
        aliased_from(pending, at_start, visited, done, aliases, n) is Some,
        n <= m,
    ensures
        aliased_from(pending, at_start, visited, done, aliases, m) == aliased_from(
            pending,
            at_start,
            visited,
            done,
            aliases,
            n,
        ),
    decreases n,
{
    if pending.len() > 0 {
        let t = pending[0];
        let rest = pending.drop_first();
        match alias_for(t, at_start, visited, aliases) {
            Some((w, value)) => lemma_more_steps(
                replacement(value) + rest,
                at_start,
                visited.push(w),
                done,
                aliases,
                (n - 1) as nat,
                (m - 1) as nat,
            ),
            None => lemma_more_steps(
                rest,
                starts_command(t),
                Seq::empty(),
                done.push(t),
                aliases,
                (n - 1) as nat,
                (m - 1) as nat,
            ),
        }
    }
}

/// The number of steps does not matter once it is enough.
pub proof fn law_enough_steps(
    ts: Seq<Tok>,
    aliases: Map<Seq<char>, Seq<char>>,
    steps: nat,
)
    requires
        aliased_within(ts, aliases, steps) is Some,
    ensures
        settles(ts, aliases),
        aliased_within(ts, aliases, steps) == Some(aliased(ts, aliases)),
{
    let n = choose|n: nat| #[trigger] aliased_within(ts, aliases, n) is Some;
    if n <= steps {
        lemma_more_steps(ts, true, Seq::empty(), Seq::empty(), aliases, n, steps);
    } else {
        lemma_more_steps(ts, true, Seq::empty(), Seq::empty(), aliases, steps, n);
    }
}

/// The tokens still to come, the next one last, as the loops keep them.
pub open spec fn stacked(v: Seq<Token>) -> Seq<Tok> {
    token::toks(v).reverse()
}

/// Puts the tokens of `from` on the stack, so that its first one is on top.
#[verifier::loop_isolation(false)]
fn stack(mut from: Vec<Token>, onto: &mut Vec<Token>)
    ensures
        stacked(final(onto)@) == token::toks(from@) + stacked(old(onto)@),
{
    let ghost all = token::toks(from@);
    let ghost below = stacked(onto@);
    loop
        invariant
            token::toks(from@) + stacked(onto@) == all + below,
        decreases from.len(),
    {
        let ghost front = token::toks(from@);
        let ghost before = onto@;
        match from.pop() {
            Some(t) => {
                onto.push(t);
                assert(front =~= token::toks(from@).push(t@));
                assert(stacked(onto@) =~= seq![t@] + stacked(before));
                assert(token::toks(from@) + stacked(onto@) =~= front + stacked(before));
            },
            None => {
                assert(token::toks(from@) + stacked(onto@) =~= stacked(onto@));
                return;
            },
        }
    }
}

/// Takes the alias that `t` is to be replaced for, and returns what stands in
/// for it.
fn replace(
    t: &Token,
    at_start: bool,
    visited: &mut Vec<String>,
    aliases: &StringMap,
) -> (r: Option<Vec<Token>>)
    ensures
        match r {
            Some(v) => {
                &&& alias_for(t@, at_start, text::texts(old(visited)@), aliases@) matches Some(
                    (w, value),
                )
                &&& token::toks(v@) == replacement(value)
                &&& text::texts(final(visited)@) == text::texts(old(visited)@).push(w)
            },
            None => alias_for(t@, at_start, text::texts(old(visited)@), aliases@) is None
                && final(visited)@ == old(visited)@,
        },
{
    broadcast use text::texts_push;

    if !at_start {
        return None;
    }
    match t {
        Token::Word(w) => {
            if holds(visited, w.as_str()) {
                return None;
            }
            match aliases.get(w.as_str()) {
                Some(value) => {
                    visited.push(w.clone());
                    let mut sub = Tokenizer::new(value.as_str());
                    match sub.tokenize() {
                        Ok(v) => Some(v),
                        Err(_) => {
                            let v: Vec<Token> = Vec::new();
                            assert(token::toks(v@) =~= Seq::empty());
                            Some(v)
                        },
                    }
                },
                None => None,
            }
        },
        _ => None,
    }
}

fn is_command_start(t: &Token) -> (r: bool)
    ensures
        r == starts_command(t@),
{
    match t {
        Token::Semicolon | Token::And | Token::Or | Token::Pipe | Token::Background => true,
        _ => false,
    }
}

/// Puts aliases in, where that comes to an end.
#[verifier::loop_isolation(false)]
pub fn expand_alias_tokens(tokens: Vec<Token>, shell: &Shell) -> (r: Vec<Token>)
    requires
        settles(token::toks(tokens@), shell@.aliases),
    ensures
        token::toks(r@) == aliased(token::toks(tokens@), shell@.aliases),
{
    let ghost ts = token::toks(tokens@);
    let ghost all = shell@.aliases;
    let ghost mut steps: nat = choose|n: nat| #[trigger] aliased_within(ts, all, n) is Some;
    let mut result: Vec<Token> = Vec::new();
    let mut pending: Vec<Token> = Vec::new();
    let mut at_start = true;
    let mut visited: Vec<String> = Vec::new();
    assert(token::toks(tokens@) + stacked(pending@) =~= ts);
    stack(tokens, &mut pending);
    assert(token::toks(result@) =~= Seq::empty());
    assert(text::texts(visited@) =~= Seq::empty());
    loop
        invariant
            all == shell@.aliases,
            aliased_from(
                stacked(pending@),
                at_start,
                text::texts(visited@),
                token::toks(result@),
                all,
                steps,
            ) == Some(aliased(ts, all)),
        decreases steps,
    {
        broadcast use token::toks_push;

        let ghost here = stacked(pending@);
        let tok = match pending.pop() {
            Some(t) => t,
            None => {
                assert(here.len() == 0);
                return result;
            },
        };
        assert(here[0] == tok@);
        assert(here.drop_first() =~= stacked(pending@));
        assert(here.len() > 0);
        match replace(&tok, at_start, &mut visited, &shell.aliases) {
            Some(sub) => {
                stack(sub, &mut pending);
            },
            None => {
                visited = Vec::new();
                assert(text::texts(visited@) =~= Seq::empty());
                at_start = is_command_start(&tok);
                result.push(tok);
            },
        }
        proof {
            steps = (steps - 1) as nat;
        }
    }
}

/// Puts aliases in, if that takes no more than `limit` steps.
#[verifier::loop_isolation(false)]
pub fn expand_alias_tokens_within(tokens: Vec<Token>, aliases: &StringMap, limit: usize) -> (r:
    Option<Vec<Token>>)
    ensures
        match r {
            Some(v) => aliased_within(token::toks(tokens@), aliases@, limit as nat) == Some(
                token::toks(v@),
            ),
            None => aliased_within(token::toks(tokens@), aliases@, limit as nat) is None,
        },
{
    let ghost ts = token::toks(tokens@);
    let mut steps: usize = limit;
    let mut result: Vec<Token> = Vec::new();
    let mut pending: Vec<Token> = Vec::new();
    let mut at_start = true;
    let mut visited: Vec<String> = Vec::new();
    assert(token::toks(tokens@) + stacked(pending@) =~= ts);
    stack(tokens, &mut pending);
    assert(token::toks(result@) =~= Seq::empty());
    assert(text::texts(visited@) =~= Seq::empty());
    loop
        invariant
            aliased_from(
                stacked(pending@),
                at_start,
                text::texts(visited@),
                token::toks(result@),
                aliases@,
                steps as nat,
            ) == aliased_within(ts, aliases@, limit as nat),
        decreases steps,
    {
        broadcast use token::toks_push;

        let ghost here = stacked(pending@);
        let tok = match pending.pop() {
            Some(t) => t,
            None => {
                assert(here.len() == 0);
                return Some(result);
            },
        };
        assert(here[0] == tok@);
        assert(here.drop_first() =~= stacked(pending@));
        assert(here.len() > 0);
        if steps == 0 {
            return None;
        }
        match replace(&tok, at_start, &mut visited, aliases) {
            Some(sub) => {
                stack(sub, &mut pending);
            },
            None => {
                visited = Vec::new();
                assert(text::texts(visited@) =~= Seq::empty());
                at_start = is_command_start(&tok);
                result.push(tok);
            },
        }
        steps -= 1;
    }
}

// ---------------------------------------------------------------------------
// What holds of all token sequences
// ---------------------------------------------------------------------------

/// Whether a command may start at place `k`.
pub open spec fn command_position(ts: Seq<Tok>, k: int) -> bool {
    k == 0 || starts_command(ts[k - 1])
}

proof fn lemma_untouched(
    ts: Seq<Tok>,
    k: int,
    at_start: bool,
    visited: Seq<Seq<char>>,
    done: Seq<Tok>,
    aliases: Map<Seq<char>, Seq<char>>,
)
    requires
        0 <= k <= ts.len(),
        k < ts.len() ==> alias_for(ts[k], at_start, visited, aliases) is None,
        forall|i: int|
            k < i < ts.len() ==> alias_for(
                #[trigger] ts[i],
                starts_command(ts[i - 1]),
                Seq::empty(),
                aliases,
            ) is None,
    ensures
        aliased_from(ts.skip(k), at_start, visited, done, aliases, (ts.len() - k) as nat) == Some(
            done + ts.skip(k),
        ),
    decreases ts.len() - k,
{
    if k == ts.len() {
        assert(done + ts.skip(k) =~= done);
    } else {
        assert(ts.skip(k).drop_first() =~= ts.skip(k + 1));
        lemma_untouched(ts, k + 1, starts_command(ts[k]), Seq::empty(), done.push(ts[k]), aliases);
        assert(done.push(ts[k]) + ts.skip(k + 1) =~= done + ts.skip(k));
    }
}

/// Tokens among which no alias stands where a command starts stay as they are.
pub proof fn law_without_aliases_unchanged(ts: Seq<Tok>, aliases: Map<Seq<char>, Seq<char>>)
    requires
        forall|k: int|
            0 <= k < ts.len() && command_position(ts, k) ==> !(#[trigger] ts[k] matches Tok::Word(w)
                && aliases.dom().contains(w)),
    ensures
        settles(ts, aliases),
        aliased(ts, aliases) == ts,
        forall|steps: nat|
            steps >= ts.len() ==> #[trigger] aliased_within(ts, aliases, steps) == Some(ts),
{
    assert forall|i: int| 0 < i < ts.len() implies alias_for(
        #[trigger] ts[i],
        starts_command(ts[i - 1]),
        Seq::empty(),
        aliases,
    ) is None by {
        assert(command_position(ts, i) == starts_command(ts[i - 1]));
    }
    if ts.len() > 0 {
        assert(command_position(ts, 0));
        assert(alias_for(ts[0], true, Seq::empty(), aliases) is None);
    }
    lemma_untouched(ts, 0, true, Seq::empty(), Seq::empty(), aliases);
    assert(ts.skip(0) =~= ts);
    assert(Seq::<Tok>::empty() + ts =~= ts);
    law_enough_steps(ts, aliases, ts.len());
    assert forall|steps: nat| steps >= ts.len() implies #[trigger] aliased_within(
        ts,
        aliases,
        steps,
    ) == Some(ts) by {
        lemma_more_steps(ts, true, Seq::empty(), Seq::empty(), aliases, ts.len(), steps);
    }
}

/// An alias whose value names the alias again, as its command, is replaced
/// once.
pub proof fn law_alias_is_replaced_once(
    w: Seq<char>,
    args: Seq<Tok>,
    rest: Seq<Tok>,
    aliases: Map<Seq<char>, Seq<char>>,
)
    requires
        aliases.dom().contains(w),
        token::tokens_of(aliases[w]) == Ok::<Seq<Tok>, Seq<char>>(seq![Tok::Word(w)] + args),
        forall|k: int| 0 <= k < args.len() ==> !starts_command(#[trigger] args[k]),
        forall|k: int| 0 <= k < rest.len() ==> !starts_command(#[trigger] rest[k]),
    ensures
        settles(seq![Tok::Word(w)] + rest, aliases),
        aliased(seq![Tok::Word(w)] + rest, aliases) == seq![Tok::Word(w)] + args + rest,
{
    let ts = seq![Tok::Word(w)] + rest;
    let us = seq![Tok::Word(w)] + args + rest;
    let seen = Seq::<Seq<char>>::empty().push(w);
    assert(ts.drop_first() =~= rest);
    assert(replacement(aliases[w]) + rest =~= us);
    assert(!Seq::<Seq<char>>::empty().contains(w));
    assert(seen[0] == w);
    assert(seen.contains(w));
    assert forall|i: int| 0 < i < us.len() implies alias_for(
        #[trigger] us[i],
        starts_command(us[i - 1]),
        Seq::empty(),
        aliases,
    ) is None by {
        if i - 1 > args.len() {
            assert(us[i - 1] == rest[i - 2 - args.len()]);
        } else if i - 1 > 0 {
            assert(us[i - 1] == args[i - 2]);
        }
    }
    lemma_untouched(us, 0, true, seen, Seq::empty(), aliases);
    assert(us.skip(0) =~= us);
    assert(Seq::<Tok>::empty() + us =~= us);
    let n = us.len() + 1;
    assert(aliased_within(ts, aliases, n) == aliased_from(
        us,
        true,
        seen,
        Seq::empty(),
        aliases,
        us.len(),
    ));
    law_enough_steps(ts, aliases, n);
}

/// An alias at the start of a command is replaced by the tokens of its value, also
/// behind `;`, `|`, `&&`, `||` and `&`, and what stands around it stays. A value that
/// can not be read gives none.
pub proof fn law_alias_is_replaced(
    before: Seq<Tok>,
    w: Seq<char>,
    value: Seq<Tok>,
    rest: Seq<Tok>,
    aliases: Map<Seq<char>, Seq<char>>,
)
    requires
        aliases.dom().contains(w),
        token::tokens_of(aliases[w]) == Ok::<Seq<Tok>, Seq<char>>(value),
        value.len() > 0,
        forall|k: int|
            0 <= k < before.len() && command_position(before, k) ==> !(#[trigger] before[k] matches Tok::Word(v)
                && aliases.dom().contains(v)),
        before.len() == 0 || before.last() == Tok::Semicolon || before.last() == Tok::Pipe
            || before.last() == Tok::And || before.last() == Tok::Or || before.last()
            == Tok::Background,
        value[0] matches Tok::Word(v) && !aliases.dom().contains(v),
        forall|k: int|
            0 <= k < value.len() ==> !((#[trigger] value[k]) is Semicolon || value[k] is Pipe || value[k] is And
                || value[k] is Or || value[k] is Background),
        forall|k: int|
            0 <= k < rest.len() ==> !((#[trigger] rest[k]) is Semicolon || rest[k] is Pipe || rest[k] is And
                || rest[k] is Or || rest[k] is Background),
    ensures
        settles(before + seq![Tok::Word(w)] + rest, aliases),
        aliased(before + seq![Tok::Word(w)] + rest, aliases) == before + value + rest,
{
    let ts = before + seq![Tok::Word(w)] + rest;
    let tail = value + rest;
    let n = tail.len() + 1;
    lemma_passed_over(before, seq![Tok::Word(w)] + rest, 0, true, aliases, n);
    assert(before + (seq![Tok::Word(w)] + rest) =~= ts);
    assert(before.skip(0) =~= before);
    assert(before.take(0) =~= Seq::empty());
    let now = seq![Tok::Word(w)] + rest;
    assert(now.drop_first() =~= rest);
    assert(replacement(aliases[w]) + rest =~= tail);
    assert(!Seq::<Seq<char>>::empty().contains(w));
    let seen = Seq::<Seq<char>>::empty().push(w);
    assert(aliased_from(now, true, Seq::empty(), before, aliases, n) == aliased_from(
        tail,
        true,
        seen,
        before,
        aliases,
        tail.len(),
    ));
    assert(tail[0] == value[0]);
    assert forall|i: int| 0 < i < tail.len() implies alias_for(
        #[trigger] tail[i],
        starts_command(tail[i - 1]),
        Seq::empty(),
        aliases,
    ) is None by {
        if i - 1 < value.len() {
            assert(tail[i - 1] == value[i - 1]);
        } else {
            assert(tail[i - 1] == rest[i - 1 - value.len()]);
        }
    }
    lemma_untouched(tail, 0, true, seen, before, aliases);
    assert(tail.skip(0) =~= tail);
    assert(before + tail =~= before + value + rest);
    law_enough_steps(ts, aliases, before.len() + n);
}

proof fn lemma_passed_over(
    before: Seq<Tok>,
    rest: Seq<Tok>,
    k: int,
    at_start: bool,
    aliases: Map<Seq<char>, Seq<char>>,
    n: nat,
)
    requires
        0 <= k <= before.len(),
        forall|j: int|
            0 <= j < before.len() && command_position(before, j) ==> !(#[trigger] before[j] matches Tok::Word(v)
                && aliases.dom().contains(v)),
        at_start == command_position(before, k),
        before.len() == 0 || starts_command(before.last()),
    ensures
        aliased_from(
            before.skip(k) + rest,
            at_start,
            Seq::empty(),
            before.take(k),
            aliases,
            (before.len() - k + n) as nat,
        ) == aliased_from(rest, true, Seq::empty(), before, aliases, n),
    decreases before.len() - k,
{
    let pending = before.skip(k) + rest;
    if k < before.len() {
        assert(pending[0] == before[k]);
        assert(pending.drop_first() =~= before.skip(k + 1) + rest);
        assert(before.take(k).push(before[k]) =~= before.take(k + 1));
        assert(alias_for(before[k], at_start, Seq::empty(), aliases) is None);
        lemma_passed_over(before, rest, k + 1, starts_command(before[k]), aliases, n);
    } else {
        assert(pending =~= rest);
        assert(before.take(k) =~= before);
        if before.len() > 0 {
            assert(before[k - 1] == before.last());
        }
    }
}

} // verus!
