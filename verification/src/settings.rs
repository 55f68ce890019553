//! What holds of settings that are written to a file and read again.

use vstd::prelude::*;

use crate::config;
use crate::config::{Block, ConfigV, PatternV};
use crate::expand;
use crate::expand::EnvironmentV;
use crate::shell::ShellV;
use crate::text;
use crate::token;
use crate::token::Tok;

verus! {

// ---------------------------------------------------------------------------
// Lines and files
// ---------------------------------------------------------------------------

proof fn lemma_trimmed_start_push(s: Seq<char>, c: char)
    ensures
        text::trimmed_start(s).len() > 0 ==> text::trimmed_start(s.push(c)) == text::trimmed_start(
            s,
        ).push(c),
        text::trimmed_start(s).len() == 0 ==> text::trimmed_start(s.push(c))
            == text::trimmed_start(seq![c]),
    decreases s.len(),
{
    if s.len() == 0 {
        assert(s.push(c) =~= seq![c]);
    } else if text::white_space(s[0]) {
        assert(s.push(c).drop_first() =~= s.drop_first().push(c));
        lemma_trimmed_start_push(s.drop_first(), c);
    }
}

/// White space at the end of a text does not matter once it is trimmed.
proof fn lemma_trimmed_push(s: Seq<char>, c: char)
    requires
        text::white_space(c),
    ensures
        text::trimmed(s.push(c)) == text::trimmed(s),
{
    lemma_trimmed_start_push(s, c);
    let t = text::trimmed_start(s);
    if t.len() > 0 {
        assert(t.push(c).drop_last() =~= t);
    } else {
        assert(seq![c].drop_first() =~= Seq::empty());
        assert(text::trimmed_start(seq![c].drop_first()) =~= Seq::<char>::empty());
        assert(t =~= Seq::empty());
    }
}

proof fn lemma_trimmed_without_return(s: Seq<char>)
    ensures
        text::trimmed(text::without_return(s)) == text::trimmed(s),
{
    if s.len() > 0 && s.last() == '\r' {
        lemma_trimmed_push(s.drop_last(), '\r');
        assert(s.drop_last().push('\r') =~= s);
    }
}

/// Lines that are the same but for white space around them give the same
/// settings.
proof fn lemma_same_lines(a: Seq<Seq<char>>, b: Seq<Seq<char>>)
    requires
        a.len() == b.len(),
        forall|k: int|
            0 <= k < a.len() ==> text::trimmed(#[trigger] a[k]) == text::trimmed(b[k]),
    ensures
        config::loaded_lines(a) == config::loaded_lines(b),
    decreases a.len(),
{
    if a.len() > 0 {
        assert forall|k: int| 0 <= k < a.drop_last().len() implies text::trimmed(
            #[trigger] a.drop_last()[k],
        ) == text::trimmed(b.drop_last()[k]) by {
            assert(text::trimmed(a[k]) == text::trimmed(b[k]));
        }
        lemma_same_lines(a.drop_last(), b.drop_last());
        assert(text::trimmed(a[a.len() - 1]) == text::trimmed(b[a.len() - 1]));
    }
}

/// The lines as they stand in a file.
spec fn filed(ls: Seq<Seq<char>>) -> Seq<char>
    decreases ls.len(),
{
    if ls.len() == 0 {
        Seq::empty()
    } else {
        filed(ls.drop_last()) + ls.last().push('\n')
    }
}

spec fn feedless(ls: Seq<Seq<char>>) -> bool {
    forall|k: int| 0 <= k < ls.len() ==> !(#[trigger] ls[k]).contains('\n')
}

proof fn lemma_filed_lines(ls: Seq<Seq<char>>)
    requires
        feedless(ls),
    ensures
        filed(ls).len() == 0 || filed(ls).last() == '\n',
        text::lines_of(filed(ls)).len() == ls.len(),
        forall|k: int|
            0 <= k < ls.len() ==> #[trigger] text::lines_of(filed(ls))[k] == text::without_return(
                ls[k],
            ),
    decreases ls.len(),
{
    if ls.len() > 0 {
        let front = ls.drop_last();
        let w = ls.last();
        assert(!ls[ls.len() - 1].contains('\n'));
        assert(feedless(front)) by {
            assert forall|k: int| 0 <= k < front.len() implies !(#[trigger] front[k]).contains(
                '\n',
            ) by {
                assert(!ls[k].contains('\n'));
            }
        }
        lemma_filed_lines(front);
        text::lemma_lines_append(filed(front), w.push('\n'));
        text::lemma_one_line(w);
        assert(text::lines_of(filed(ls)) == text::lines_of(filed(front)) + seq![
            text::without_return(w),
        ]);
        assert forall|k: int| 0 <= k < ls.len() implies #[trigger] text::lines_of(filed(ls))[k]
            == text::without_return(ls[k]) by {
            if k < front.len() {
                assert(text::lines_of(filed(front))[k] == text::without_return(front[k]));
            }
        }
    }
}

/// A file of these lines gives the settings that the lines give.
proof fn lemma_filed(ls: Seq<Seq<char>>)
    requires
        feedless(ls),
    ensures
        config::loaded_lines(text::lines_of(filed(ls))) == config::loaded_lines(ls),
{
    lemma_filed_lines(ls);
    let rs = text::lines_of(filed(ls));
    assert forall|k: int| 0 <= k < rs.len() implies text::trimmed(#[trigger] rs[k])
        == text::trimmed(ls[k]) by {
        lemma_trimmed_without_return(ls[k]);
    }
    lemma_same_lines(rs, ls);
}

/// A last line without a line feed counts as one with it.
proof fn lemma_last_feed(s: Seq<char>)
    ensures
        config::loaded_lines(text::lines_of(s.push('\n'))) == config::loaded_lines(
            text::lines_of(s),
        ),
        text::lines_of(s.push('\n')).len() >= text::lines_of(s).len(),
    decreases s.len(),
{
    let t = s.push('\n');
    if s.len() == 0 {
        text::lemma_one_line(s);
        assert(text::lines_of(t) == seq![text::without_return(s)]);
        assert(text::without_return(s) == s);
        assert(seq![s].drop_last() =~= Seq::empty());
        assert(text::trimmed(s).len() == 0) by {
            lemma_trimmed_empty();
            assert(s =~= Seq::empty());
        }
        assert(seq![s].last() == s);
        assert(config::loaded_lines(seq![s]) == config::loaded_lines(Seq::empty()));
    } else if s.last() == '\n' {
        // One more line, which is empty.
        let e = Seq::<char>::empty();
        assert(t =~= s + e.push('\n'));
        text::lemma_lines_append(s, e.push('\n'));
        text::lemma_one_line(e);
        let ls = text::lines_of(t);
        assert(ls == text::lines_of(s) + seq![text::without_return(e)]);
        assert(ls.drop_last() =~= text::lines_of(s));
        lemma_trimmed_empty();
    } else {
        let n = start_of_last(s);
        let front = s.take(n);
        let last = s.skip(n);
        lemma_start_of_last(s);
        assert(s =~= front + last);
        assert(t =~= front + last.push('\n'));
        text::lemma_lines_append(front, last);
        text::lemma_lines_append(front, last.push('\n'));
        text::lemma_one_line(last);
        assert(text::lines_of(last) == seq![last]);
        let a = text::lines_of(t);
        let b = text::lines_of(s);
        assert(a == text::lines_of(front) + seq![text::without_return(last)]);
        assert(b == text::lines_of(front) + seq![last]);
        assert forall|k: int| 0 <= k < a.len() implies text::trimmed(#[trigger] a[k])
            == text::trimmed(b[k]) by {
            if k == a.len() - 1 {
                lemma_trimmed_without_return(last);
            } else {
                assert(a[k] == b[k]);
            }
        }
        lemma_same_lines(a, b);
    }
}

proof fn lemma_trimmed_empty()
    ensures
        text::trimmed(Seq::empty()) == Seq::<char>::empty(),
{
}

/// Where the last line of a text starts.
spec fn start_of_last(s: Seq<char>) -> int
    decreases s.len(),
{
    if s.len() == 0 || s.last() == '\n' {
        s.len() as int
    } else {
        start_of_last(s.drop_last())
    }
}

proof fn lemma_start_of_last(s: Seq<char>)
    ensures
        0 <= start_of_last(s) <= s.len(),
        start_of_last(s) > 0 ==> s[start_of_last(s) - 1] == '\n',
        !s.skip(start_of_last(s)).contains('\n'),
    decreases s.len(),
{
    let n = start_of_last(s);
    if s.len() > 0 && s.last() != '\n' {
        let front = s.drop_last();
        lemma_start_of_last(front);
        if s.skip(n).contains('\n') {
            let k = s.skip(n).index_of('\n');
            assert(s[n + k] == '\n');
            assert(front.skip(n)[k] == '\n');
        }
    }
}

/// The lines of a text have no line feeds in them.
proof fn lemma_lines_feedless(s: Seq<char>)
    ensures
        feedless(text::lines_of(s)),
    decreases s.len(),
{
    let ls = text::lines_of(s);
    if s.len() > 0 && s.contains('\n') {
        text::lemma_until(s, '\n');
        let n = text::until(s, '\n') as int;
        let first = s.take(n);
        lemma_lines_feedless(s.skip(n + 1));
        lemma_until_first(s, '\n');
        assert(!text::without_return(first).contains('\n')) by {
            if text::without_return(first).contains('\n') {
                let k = text::without_return(first).index_of('\n');
                assert(s[k] == '\n');
            }
        }
        assert forall|k: int| 0 <= k < ls.len() implies !(#[trigger] ls[k]).contains('\n') by {
            if k > 0 {
                assert(ls[k] == text::lines_of(s.skip(n + 1))[k - 1]);
            }
        }
    }
}

proof fn lemma_until_first(s: Seq<char>, c: char)
    ensures
        forall|k: int| 0 <= k < text::until(s, c) ==> #[trigger] s[k] != c,
    decreases s.len(),
{
    if s.len() > 0 && s[0] != c {
        lemma_until_first(s.drop_first(), c);
        text::lemma_until(s.drop_first(), c);
        assert forall|k: int| 0 <= k < text::until(s, c) implies #[trigger] s[k] != c by {
            if k > 0 {
                assert(s.drop_first()[k - 1] != c);
            }
        }
    }
}

/// Lines that are joined make the file of these lines, but for the last line
/// feed.
proof fn lemma_joined_filed(ls: Seq<Seq<char>>)
    requires
        ls.len() > 0,
    ensures
        text::joined(ls, "\n"@).push('\n') == filed(ls),
    decreases ls.len(),
{
    reveal_strlit("\n");
    if ls.len() == 1 {
        assert(ls.drop_last() =~= Seq::empty());
        assert(filed(ls.drop_last()) =~= Seq::<char>::empty());
        assert(text::joined(ls, "\n"@).push('\n') =~= filed(ls));
    } else {
        lemma_joined_filed(ls.drop_last());
        assert("\n"@ =~= seq!['\n']);
        assert(text::joined(ls, "\n"@) =~= text::joined(ls.drop_last(), "\n"@).push('\n')
            + ls.last());
        assert(text::joined(ls, "\n"@).push('\n') =~= filed(ls));
    }
}

/// A file of lines that were joined gives the settings that the lines give,
/// whether it ends with a line feed or not.
proof fn lemma_joined_loaded(ls: Seq<Seq<char>>)
    requires
        feedless(ls),
    ensures
        config::loaded_lines(text::lines_of(text::joined(ls, "\n"@))) == config::loaded_lines(ls),
        config::loaded_lines(text::lines_of(config::terminated(text::joined(ls, "\n"@))))
            == config::loaded_lines(ls),
{
    let s = text::joined(ls, "\n"@);
    lemma_last_feed(s);
    if ls.len() > 0 {
        lemma_joined_filed(ls);
        lemma_filed(ls);
    } else {
        assert(s =~= Seq::empty());
        assert(ls =~= Seq::empty());
    }
}

// ---------------------------------------------------------------------------
// Lines that are added
// ---------------------------------------------------------------------------

/// A line that is added to a file takes effect: the file then gives the
/// settings that it gave before, with what the line sets. No block may be open
/// at the end of the file.
pub proof fn law_added_line_takes_effect(content: Seq<char>, line: Seq<char>)
    requires
        !line.contains('\n'),
        config::counts(text::trimmed(line)),
        config::loaded_lines(text::lines_of(content)).1 == Block::Outside,
    ensures
        config::loaded(config::with_line(content, line)) == config::after_line(
            config::loaded(content),
            Block::Outside,
            text::trimmed(line),
        ).0,
{
    let front = if content.len() == 0 {
        content
    } else {
        config::terminated(content)
    };
    if content.len() > 0 && content.last() != '\n' {
        lemma_last_feed(content);
    }
    let t = line.push('\n');
    assert(config::with_line(content, line) =~= front + t);
    text::lemma_lines_append(front, t);
    text::lemma_one_line(line);
    let ls = text::lines_of(front + t);
    assert(ls == text::lines_of(front) + seq![text::without_return(line)]);
    assert(ls.drop_last() =~= text::lines_of(front));
    lemma_trimmed_without_return(line);
    assert(ls.last() == text::without_return(line));
}

// ---------------------------------------------------------------------------
// Lines that are replaced
// ---------------------------------------------------------------------------

/// Whether a line opens or closes a block.
pub open spec fn bracket(line: Seq<char>) -> bool {
    line == "}"@ || line == "prompt {"@ || line == "function prompt {"@ || line
        == "if-interactive {"@ || line == "if-not-interactive {"@
}

/// Whether one of the lines that fit stands outside all blocks.
pub open spec fn fits_outside(p: PatternV, ls: Seq<Seq<char>>) -> bool {
    exists|k: int|
        0 <= k < ls.len() && config::fits(p, #[trigger] ls[k]) && config::loaded_lines(
            ls.take(k),
        ).1 == Block::Outside
}

/// A property of settings that the line `line` brings about, and that no line
/// in a block ends.
spec fn brought_about(holds: spec_fn(ConfigV) -> bool, line: Seq<char>) -> bool {
    &&& forall|c: ConfigV| holds(#[trigger] config::with_setting(c, line))
    &&& forall|c: ConfigV, b: Block, x: Seq<char>|
        b != Block::Outside && holds(c) ==> holds(#[trigger] config::after_line(c, b, x).0)
}

/// The line `x`, outside all blocks, does not end the property.
spec fn kept_by(holds: spec_fn(ConfigV) -> bool, x: Seq<char>) -> bool {
    forall|c: ConfigV| holds(c) ==> holds(#[trigger] config::with_setting(c, x))
}

proof fn lemma_replaced(
    ls: Seq<Seq<char>>,
    p: PatternV,
    line: Seq<char>,
    holds: spec_fn(ConfigV) -> bool,
)
    requires
        text::trimmed(line) == line,
        config::counts(line),
        !bracket(line),
        brought_about(holds, line),
        forall|k: int|
            0 <= k < ls.len() && config::fits(p, #[trigger] ls[k]) ==> !bracket(
                text::trimmed(ls[k]),
            ) && config::counts(text::trimmed(ls[k])),
        forall|k: int|
            0 <= k < ls.len() && !config::fits(p, #[trigger] ls[k]) ==> kept_by(
                holds,
                text::trimmed(ls[k]),
            ),
    ensures
        config::loaded_lines(config::replaced(ls, p, line)).1 == config::loaded_lines(ls).1,
        fits_outside(p, ls) ==> holds(config::loaded_lines(config::replaced(ls, p, line)).0),
    decreases ls.len(),
{
    if ls.len() > 0 {
        let front = ls.drop_last();
        let x = ls.last();
        let rs = config::replaced(ls, p, line);
        assert(rs.drop_last() =~= config::replaced(front, p, line));
        assert forall|k: int|
            0 <= k < front.len() && config::fits(p, #[trigger] front[k]) implies !bracket(
            text::trimmed(front[k]),
        ) && config::counts(text::trimmed(front[k])) by {
            assert(ls[k] == front[k]);
        }
        assert forall|k: int|
            0 <= k < front.len() && !config::fits(p, #[trigger] front[k]) implies kept_by(
            holds,
            text::trimmed(front[k]),
        ) by {
            assert(ls[k] == front[k]);
        }
        lemma_replaced(front, p, line, holds);
        assert(ls[ls.len() - 1] == x);
        let (c, b) = config::loaded_lines(front);
        let (d, e) = config::loaded_lines(rs.drop_last());
        assert(b == e);
        if fits_outside(p, ls) {
            let k = choose|k: int|
                0 <= k < ls.len() && config::fits(p, #[trigger] ls[k]) && config::loaded_lines(
                    ls.take(k),
                ).1 == Block::Outside;
            if k < front.len() {
                assert(front.take(k) =~= ls.take(k));
                assert(front[k] == ls[k]);
                assert(fits_outside(p, front));
                assert(holds(d));
            } else {
                assert(ls.take(k) =~= front);
                assert(rs.last() == line);
                assert(e == Block::Outside);
                assert(config::loaded_lines(rs).0 == config::with_setting(d, line));
            }
            if config::fits(p, x) {
                if e != Block::Outside {
                    assert(holds(config::after_line(d, e, line).0));
                } else {
                    assert(holds(config::with_setting(d, line)));
                }
            } else {
                assert(kept_by(holds, text::trimmed(x)));
                assert(rs.last() == x);
                if config::counts(text::trimmed(x)) {
                    if e != Block::Outside {
                        assert(holds(config::after_line(d, e, text::trimmed(x)).0));
                    } else {
                        assert(holds(config::with_setting(d, text::trimmed(x))));
                    }
                }
            }
        }
    } else {
        assert(config::replaced(ls, p, line) =~= ls);
    }
}

/// A file in which a line was set has the property that the line brings about.
proof fn lemma_set_takes_effect(
    content: Seq<char>,
    p: PatternV,
    line: Seq<char>,
    holds: spec_fn(ConfigV) -> bool,
)
    requires
        text::trimmed(line) == line,
        config::counts(line),
        !bracket(line),
        !line.contains('\n'),
        brought_about(holds, line),
        ({
            let ls = text::lines_of(content);
            &&& forall|k: int|
                0 <= k < ls.len() && config::fits(p, #[trigger] ls[k]) ==> !bracket(
                    text::trimmed(ls[k]),
                ) && config::counts(text::trimmed(ls[k]))
            &&& forall|k: int|
                0 <= k < ls.len() && !config::fits(p, #[trigger] ls[k]) ==> kept_by(
                    holds,
                    text::trimmed(ls[k]),
                )
            &&& if config::any_fits(p, ls) {
                fits_outside(p, ls)
            } else {
                config::loaded_lines(ls).1 == Block::Outside
            }
        }),
    ensures
        holds(config::loaded(config::with_line_set(content, p, line))),
{
    let ls = text::lines_of(content);
    if config::any_fits(p, ls) {
        let rs = config::replaced(ls, p, line);
        lemma_lines_feedless(content);
        assert(feedless(rs)) by {
            assert forall|k: int| 0 <= k < rs.len() implies !(#[trigger] rs[k]).contains('\n') by {
                assert(!ls[k].contains('\n'));
            }
        }
        lemma_joined_loaded(rs);
        lemma_replaced(ls, p, line, holds);
    } else {
        law_added_line_takes_effect(content, line);
        assert(holds(config::with_setting(config::loaded(content), line)));
    }
}

// ---------------------------------------------------------------------------
// Switches
// ---------------------------------------------------------------------------

/// The settings that can be switched on and off.
#[derive(PartialEq, Eq, Structural, Clone, Copy)]
pub enum Switch {
    Logging,
    Shit,
    History,
    Autosuggest,
    PromptOnFailure,
}

/// What a setting is called in the file.
pub open spec fn key_of(s: Switch) -> Seq<char> {
    match s {
        Switch::Logging => "log"@,
        Switch::Shit => "shit"@,
        Switch::History => "history"@,
        Switch::Autosuggest => "auto-suggestion"@,
        Switch::PromptOnFailure => "prompt-on-failure"@,
    }
}

/// Whether a setting is on.
pub open spec fn is_on(c: ConfigV, s: Switch) -> bool {
    match s {
        Switch::Logging => c.logging,
        Switch::Shit => c.shit,
        Switch::History => c.history,
        Switch::Autosuggest => c.autosuggest,
        Switch::PromptOnFailure => c.prompt_on_failure,
    }
}

/// The lines that a setting is written in.
pub open spec fn switch_lines(s: Switch) -> PatternV {
    PatternV::Either(
        config::switch_line(key_of(s), true),
        config::switch_line(key_of(s), false),
    )
}

/// What starts the line of a setting.
pub open spec fn switch_start(s: Switch) -> Seq<char> {
    match s {
        Switch::Logging => "log "@,
        Switch::Shit => "shit "@,
        Switch::History => "history "@,
        Switch::Autosuggest => "auto-suggestion "@,
        Switch::PromptOnFailure => "prompt-on-failure "@,
    }
}

proof fn lemma_first_chars()
    ensures
        "alias "@.len() == 6 && "alias "@[0] == 'a' && "alias "@[1] == 'l',
        "path "@.len() == 5 && "path "@[0] == 'p' && "path "@[1] == 'a',
        "log "@.len() == 4 && "log "@[0] == 'l',
        "shit "@.len() == 5 && "shit "@[0] == 's',
        "history "@.len() == 8 && "history "@[0] == 'h',
        "auto-suggestion "@.len() == 16 && "auto-suggestion "@[0] == 'a' && "auto-suggestion "@[1]
            == 'u',
        "prompt-on-failure "@.len() == 18 && "prompt-on-failure "@[0] == 'p'
            && "prompt-on-failure "@[1] == 'r' && "prompt-on-failure "@[6] == '-',
        "}"@.len() == 1 && "}"@[0] == '}',
        "prompt {"@.len() == 8 && "prompt {"@[0] == 'p' && "prompt {"@[1] == 'r' && "prompt {"@[6]
            == ' ',
        "function prompt {"@[0] == 'f' && "function prompt {"@.len() == 17,
        "if-interactive {"@[0] == 'i' && "if-interactive {"@.len() == 16,
        "if-not-interactive {"@[0] == 'i' && "if-not-interactive {"@.len() == 20,
{
    reveal_strlit("alias ");
    reveal_strlit("path ");
    reveal_strlit("log ");
    reveal_strlit("shit ");
    reveal_strlit("history ");
    reveal_strlit("auto-suggestion ");
    reveal_strlit("prompt-on-failure ");
    reveal_strlit("}");
    reveal_strlit("prompt {");
    reveal_strlit("function prompt {");
    reveal_strlit("if-interactive {");
    reveal_strlit("if-not-interactive {");
}

proof fn lemma_keys()
    ensures
        forall|s: Switch| #[trigger] key_of(s) + " "@ == switch_start(s),
{
    reveal_strlit("log ");
    reveal_strlit("shit ");
    reveal_strlit("history ");
    reveal_strlit("auto-suggestion ");
    reveal_strlit("prompt-on-failure ");
    reveal_strlit("log");
    reveal_strlit("shit");
    reveal_strlit("history");
    reveal_strlit("auto-suggestion");
    reveal_strlit("prompt-on-failure");
    reveal_strlit(" ");
    assert forall|s: Switch| #[trigger] key_of(s) + " "@ == switch_start(s) by {
        assert(key_of(s) + " "@ =~= switch_start(s));
    }
}

/// The start of a line of another setting is not the start of this one.
proof fn lemma_switch_starts(s: Switch, line: Seq<char>)
    requires
        text::begins(line, switch_start(s)),
    ensures
        !text::begins(line, "alias "@),
        !text::begins(line, "path "@),
        forall|o: Switch| o != s ==> !text::begins(line, #[trigger] switch_start(o)),
        !bracket(line),
        line.len() > 0 && line[0] != '#',
{
    lemma_first_chars();
    let start = switch_start(s);
    assert(line[0] == line.take(start.len() as int)[0]);
    assert(line[1] == line.take(start.len() as int)[1]);
    if text::begins(line, "alias "@) {
        assert(line[1] == line.take(6)[1]);
        assert(line[0] == line.take(6)[0]);
    }
    if text::begins(line, "path "@) {
        assert(line[1] == line.take(5)[1]);
        assert(line[0] == line.take(5)[0]);
    }
    if s == Switch::PromptOnFailure {
        assert(line[6] == line.take(18)[6]);
    }
    assert forall|o: Switch| o != s implies !text::begins(line, #[trigger] switch_start(o)) by {
        if text::begins(line, switch_start(o)) {
            let n = switch_start(o).len() as int;
            assert(line[0] == line.take(n)[0]);
            assert(line[1] == line.take(n)[1]);
        }
    }
}

proof fn lemma_switch_line(s: Switch, enabled: bool)
    ensures
        ({
            let line = config::switch_line(key_of(s), enabled);
            &&& text::begins(line, switch_start(s))
            &&& line.skip(switch_start(s).len() as int) == config::on_off(enabled)
            &&& config::says_on(config::on_off(enabled)) == enabled
            &&& text::trimmed(line) == line
            &&& !line.contains('\n')
        }),
{
    lemma_keys();
    lemma_first_chars();
    reveal_strlit("on");
    reveal_strlit("off");
    reveal_strlit("log ");
    reveal_strlit("shit ");
    reveal_strlit("history ");
    reveal_strlit("auto-suggestion ");
    reveal_strlit("prompt-on-failure ");
    let line = config::switch_line(key_of(s), enabled);
    let start = switch_start(s);
    assert(key_of(s) + " "@ == start);
    assert(line == start + config::on_off(enabled));
    assert(line.take(start.len() as int) =~= start);
    assert(line.skip(start.len() as int) =~= config::on_off(enabled));
    lemma_no_white_ends(line);
    lemma_no_white_ends(config::on_off(enabled));
    assert(line.last() == config::on_off(enabled).last());
    if line.contains('\n') {
        let k = line.index_of('\n');
        if k < start.len() {
            assert(line[k] == start[k]);
        } else {
            assert(line[k] == config::on_off(enabled)[k - start.len()]);
        }
    }
}

/// A text that neither starts nor ends with white space is trimmed already.
proof fn lemma_no_white_ends(s: Seq<char>)
    ensures
        s.len() > 0 && !text::white_space(s[0]) && !text::white_space(s.last()) ==> text::trimmed(s)
            == s,
{
}

/// A switch that is written to a file is read from it as it was set. Where the
/// file has a line for the setting already, one such line has to stand outside
/// all blocks, and the setting may stand in no other line; where it has none, no
/// block may be open at its end.
pub proof fn law_switch_is_read_back(content: Seq<char>, s: Switch, enabled: bool)
    requires
        ({
            let ls = text::lines_of(content);
            if config::any_fits(switch_lines(s), ls) {
                &&& fits_outside(switch_lines(s), ls)
                &&& forall|k: int|
                    0 <= k < ls.len() && !config::fits(switch_lines(s), #[trigger] ls[k])
                        ==> !text::begins(text::trimmed(ls[k]), switch_start(s))
            } else {
                config::loaded_lines(ls).1 == Block::Outside
            }
        }),
    ensures
        is_on(config::loaded(config::with_switch(content, key_of(s), enabled)), s) == enabled,
{
    let ls = text::lines_of(content);
    let p = switch_lines(s);
    let line = config::switch_line(key_of(s), enabled);
    let holds = |c: ConfigV| is_on(c, s) == enabled;
    lemma_switch_line(s, enabled);
    lemma_switch_starts(s, line);
    assert forall|c: ConfigV| holds(#[trigger] config::with_setting(c, line)) by {
        lemma_switch_set(c, s, line, enabled);
    }
    assert forall|k: int| 0 <= k < ls.len() && config::fits(p, #[trigger] ls[k]) implies !bracket(
        text::trimmed(ls[k]),
    ) && config::counts(text::trimmed(ls[k])) by {
        lemma_switch_line(s, true);
        lemma_switch_line(s, false);
        lemma_switch_starts(s, text::trimmed(ls[k]));
    }
    if config::any_fits(p, ls) {
        assert forall|k: int| 0 <= k < ls.len() && !config::fits(p, #[trigger] ls[k]) implies kept_by(
            holds,
            text::trimmed(ls[k]),
        ) by {
            assert forall|c: ConfigV| holds(c) implies holds(
                #[trigger] config::with_setting(c, text::trimmed(ls[k])),
            ) by {
                lemma_switch_kept(c, s, text::trimmed(ls[k]));
            }
        }
        lemma_set_takes_effect(content, p, line, holds);
    } else {
        law_added_line_takes_effect(content, line);
        assert(holds(config::with_setting(config::loaded(content), line)));
    }
}

proof fn lemma_switch_set(c: ConfigV, s: Switch, line: Seq<char>, enabled: bool)
    requires
        text::begins(line, switch_start(s)),
        config::says_on(line.skip(switch_start(s).len() as int)) == enabled,
    ensures
        is_on(config::with_setting(c, line), s) == enabled,
{
    lemma_switch_starts(s, line);
    assert(!text::begins(line, switch_start(Switch::Logging)) || s == Switch::Logging);
    assert(!text::begins(line, switch_start(Switch::Shit)) || s == Switch::Shit);
    assert(!text::begins(line, switch_start(Switch::History)) || s == Switch::History);
    assert(!text::begins(line, switch_start(Switch::Autosuggest)) || s == Switch::Autosuggest);
}

proof fn lemma_switch_kept(c: ConfigV, s: Switch, line: Seq<char>)
    requires
        !text::begins(line, switch_start(s)),
    ensures
        is_on(config::with_setting(c, line), s) == is_on(c, s),
{
}

// ---------------------------------------------------------------------------
// Directories
// ---------------------------------------------------------------------------

/// A directory that is added to a file without it is read from it, behind those
/// that were there.
pub proof fn law_added_path_is_read_back(content: Seq<char>, dir: Seq<char>)
    requires
        !dir.contains('\n'),
        dir.len() > 0,
        text::trimmed(dir) == dir,
        config::loaded_lines(text::lines_of(content)).1 == Block::Outside,
    ensures
        config::loaded(config::with_line(content, config::path_line(dir))).paths
            == config::loaded(content).paths.push(dir),
{
    let line = config::path_line(dir);
    lemma_first_chars();
    reveal_strlit("path ");
    lemma_trimmed_ends(dir);
    assert(line[0] == 'p' && line[1] == 'a');
    assert(line.last() == dir.last());
    lemma_no_white_ends(line);
    assert(!line.contains('\n')) by {
        if line.contains('\n') {
            let k = line.index_of('\n');
            if k >= 5 {
                assert(dir[k - 5] == '\n');
            }
        }
    }
    law_added_line_takes_effect(content, line);
    assert(line.take(5) =~= "path "@);
    assert(line.skip(5) =~= dir);
    if text::begins(line, "alias "@) {
        assert(line[0] == line.take(6)[0]);
    }
}

/// What a trimmed text that is not empty starts and ends with is no white
/// space.
proof fn lemma_trimmed_ends(s: Seq<char>)
    requires
        text::trimmed(s) == s,
        s.len() > 0,
    ensures
        !text::white_space(s[0]),
        !text::white_space(s.last()),
{
    let t = text::trimmed_start(s);
    lemma_start_shortens(s);
    lemma_end_shortens(t);
    assert(t.len() == s.len());
    lemma_end_is_not_white(t);
}

proof fn lemma_start_shortens(s: Seq<char>)
    ensures
        text::trimmed_start(s).len() <= s.len(),
        s.len() > 0 && text::white_space(s[0]) ==> text::trimmed_start(s).len() < s.len(),
        text::trimmed_start(s).len() == s.len() ==> text::trimmed_start(s) == s,
    decreases s.len(),
{
    if s.len() > 0 && text::white_space(s[0]) {
        lemma_start_shortens(s.drop_first());
    }
}

proof fn lemma_end_shortens(s: Seq<char>)
    ensures
        text::trimmed_end(s).len() <= s.len(),
    decreases s.len(),
{
    if s.len() > 0 && text::white_space(s.last()) {
        lemma_end_shortens(s.drop_last());
    }
}

proof fn lemma_end_is_not_white(s: Seq<char>)
    ensures
        text::trimmed_end(s).len() > 0 ==> !text::white_space(text::trimmed_end(s).last()),
    decreases s.len(),
{
    if s.len() > 0 && text::white_space(s.last()) {
        lemma_end_is_not_white(s.drop_last());
    }
}

// ---------------------------------------------------------------------------
// Aliases
// ---------------------------------------------------------------------------

/// Whether a line, without white space around it, sets the alias.
pub open spec fn sets_alias(line: Seq<char>, name: Seq<char>) -> bool {
    config::behind(line, "alias "@) matches Some(rest) && config::alias_in(rest) matches Some(
        (n, _),
    ) && n == name
}

/// Whether a name can be that of an alias in a file.
pub open spec fn alias_name(name: Seq<char>) -> bool {
    name.len() > 0 && text::trimmed(name) == name && !name.contains('=') && !name.contains('\n')
}

/// Whether a value of an alias is read as it was written: it has no line feed in
/// it, and no white space around it that is not quoted.
pub open spec fn alias_value(value: Seq<char>) -> bool {
    !value.contains('\n') && (config::any_needs_quotes(value) || text::trimmed(value) == value)
}

proof fn lemma_no_quotes(s: Seq<char>)
    requires
        !s.contains('\''),
    ensures
        config::quotes_escaped(s) == s,
    decreases s.len(),
{
    if s.len() > 0 {
        let front = s.drop_last();
        assert(s[s.len() - 1] != '\'');
        assert(!front.contains('\'')) by {
            if front.contains('\'') {
                let k = front.index_of('\'');
                assert(s[k] == '\'');
            }
        }
        lemma_no_quotes(front);
        assert(front + seq![s.last()] =~= s);
    } else {
        assert(s =~= Seq::empty());
    }
}

proof fn lemma_unescaped_quotes(s: Seq<char>)
    ensures
        config::quotes_unescaped(config::quotes_escaped(s)) == s,
    decreases s.len(),
{
    let e = config::quotes_escaped(s);
    if s.len() == 0 {
        assert(s =~= Seq::empty());
    } else {
        let tail = config::quotes_escaped(s.drop_first());
        lemma_quotes_first(s);
        lemma_unescaped_quotes(s.drop_first());
        if s[0] == '\'' {
            assert(config::starts_with_quote(e));
            assert(e.skip(4) =~= tail);
        } else {
            assert(e[0] == s[0]);
            assert(e.drop_first() =~= tail);
        }
        assert(seq![s[0]] + s.drop_first() =~= s);
    }
}

proof fn lemma_escaped_feeds(s: Seq<char>)
    requires
        !s.contains('\n'),
    ensures
        !config::quotes_escaped(s).contains('\n'),
    decreases s.len(),
{
    if s.len() > 0 {
        let front = s.drop_last();
        let e = config::quotes_escaped(front);
        assert(s[s.len() - 1] != '\n');
        assert(!front.contains('\n')) by {
            if front.contains('\n') {
                let k = front.index_of('\n');
                assert(s[k] == '\n');
            }
        }
        lemma_escaped_feeds(front);
        let all = config::quotes_escaped(s);
        if all.contains('\n') {
            let k = all.index_of('\n');
            if k < e.len() {
                assert(e[k] == '\n');
            }
        }
    }
}

/// Taking quotes away undoes quoting, whatever the text holds.
pub proof fn law_unquoting_undoes_quoting(v: Seq<char>)
    ensures
        config::unquoted(config::quoted(v)) == v,
{
    let q = config::quoted(v);
    if v.len() == 0 || config::any_needs_quotes(v) {
        lemma_unescaped_quotes(v);
        assert(q.subrange(1, q.len() - 1) =~= config::quotes_escaped(v));
    } else {
        assert(!config::needs_quotes(v[0]));
    }
}

/// The value that is read is the one that was written.
proof fn lemma_quoted_value(value: Seq<char>)
    requires
        alias_value(value),
    ensures
        text::trimmed(config::quoted(value)) == config::quoted(value),
        config::unquoted(config::quoted(value)) == value,
        config::quoted(value).len() > 0,
        !text::white_space(config::quoted(value).last()),
        !config::quoted(value).contains('\n'),
{
    let q = config::quoted(value);
    law_unquoting_undoes_quoting(value);
    if value.len() == 0 || config::any_needs_quotes(value) {
        let inner = config::quotes_escaped(value);
        lemma_no_white_ends(q);
        lemma_escaped_feeds(value);
        assert(!q.contains('\n')) by {
            if q.contains('\n') {
                let k = q.index_of('\n');
                assert(inner[k - 1] == '\n');
            }
        }
    } else {
        assert(!config::needs_quotes(value[0]));
        lemma_trimmed_ends(value);
    }
}

/// A text is parted at the first of these characters.
pub proof fn lemma_parted_first(a: Seq<char>, b: Seq<char>, c: char)
    requires
        !a.contains(c),
    ensures
        text::parted(a + seq![c] + b, c) == Some((a, b)),
{
    let s = a + seq![c] + b;
    assert(s[a.len() as int] == c);
    assert(s.contains(c));
    text::lemma_until(s, c);
    lemma_until_first(s, c);
    let n = text::until(s, c) as int;
    if n < a.len() {
        assert(a[n] == c);
    }
    if n > a.len() {
        assert(s[a.len() as int] != c);
    }
    assert(s.take(n) =~= a);
    assert(s.skip(n + 1) =~= b);
}

proof fn lemma_alias_line(name: Seq<char>, value: Seq<char>)
    requires
        alias_name(name),
        alias_value(value),
    ensures
        ({
            let line = config::alias_line(name, value);
            &&& text::begins(line, "alias "@)
            &&& config::alias_in(line.skip(6)) == Some((name, value))
            &&& text::trimmed(line) == line
            &&& !line.contains('\n')
            &&& config::counts(line)
            &&& !bracket(line)
        }),
{
    lemma_first_chars();
    reveal_strlit("alias ");
    reveal_strlit("=");
    let q = config::quoted(value);
    let line = config::alias_line(name, value);
    lemma_quoted_value(value);
    lemma_trimmed_ends(name);
    assert("="@ =~= seq!['=']);
    assert(line.take(6) =~= "alias "@);
    assert(line.skip(6) =~= name + seq!['='] + q);
    lemma_parted_first(name, q, '=');
    assert(line[0] == 'a');
    assert(line.last() == q.last());
    lemma_no_white_ends(line);
    if line.contains('\n') {
        let k = line.index_of('\n');
        if k < 6 {
            assert("alias "@[k] == '\n');
        } else if k < 6 + name.len() {
            assert(name[k - 6] == '\n');
        } else if k > 6 + name.len() {
            assert(q[k - 7 - name.len()] == '\n');
        }
    }
}

/// Lines that start as the line of an alias does.
proof fn lemma_alias_start(name: Seq<char>, t: Seq<char>)
    requires
        text::begins(t, config::alias_start(name)),
    ensures
        text::begins(t, "alias "@),
        !bracket(t),
        config::counts(t),
{
    lemma_first_chars();
    let start = config::alias_start(name);
    assert(start.take(6) =~= "alias "@);
    assert(t.take(6) =~= t.take(start.len() as int).take(6));
    assert(t[0] == t.take(6)[0]);
    assert(t[1] == t.take(6)[1]);
}

/// An alias that is written to a file is read from it with the value that it
/// was given. Where the file has a line for the alias already, one such line has
/// to stand outside all blocks, and the alias may be set in no line that is
/// written differently; where it has none, no block may be open at its end.
pub proof fn law_alias_is_read_back(content: Seq<char>, name: Seq<char>, value: Seq<char>)
    requires
        alias_name(name),
        alias_value(value),
        ({
            let ls = text::lines_of(content);
            let p = PatternV::Starts(config::alias_start(name));
            if config::any_fits(p, ls) {
                &&& fits_outside(p, ls)
                &&& forall|k: int|
                    0 <= k < ls.len() && !config::fits(p, #[trigger] ls[k]) ==> !sets_alias(
                        text::trimmed(ls[k]),
                        name,
                    )
            } else {
                config::loaded_lines(ls).1 == Block::Outside
            }
        }),
    ensures
        config::loaded(config::with_alias(content, name, value)).aliases.dom().contains(name),
        config::loaded(config::with_alias(content, name, value)).aliases[name] == value,
{
    let ls = text::lines_of(content);
    let p = PatternV::Starts(config::alias_start(name));
    let line = config::alias_line(name, value);
    let holds = |c: ConfigV| c.aliases.dom().contains(name) && c.aliases[name] == value;
    lemma_alias_line(name, value);
    lemma_first_chars();
    assert forall|c: ConfigV| holds(#[trigger] config::with_setting(c, line)) by {}
    assert forall|k: int| 0 <= k < ls.len() && config::fits(p, #[trigger] ls[k]) implies !bracket(
        text::trimmed(ls[k]),
    ) && config::counts(text::trimmed(ls[k])) by {
        lemma_alias_start(name, text::trimmed(ls[k]));
    }
    if config::any_fits(p, ls) {
        assert forall|k: int| 0 <= k < ls.len() && !config::fits(p, #[trigger] ls[k]) implies kept_by(
            holds,
            text::trimmed(ls[k]),
        ) by {
            let x = text::trimmed(ls[k]);
            assert(!sets_alias(x, name));
            assert forall|c: ConfigV| holds(c) implies holds(#[trigger] config::with_setting(c, x)) by {
                lemma_alias_kept(c, x, name);
            }
        }
        lemma_set_takes_effect(content, p, line, holds);
    } else {
        law_added_line_takes_effect(content, line);
        assert(holds(config::with_setting(config::loaded(content), line)));
    }
}

proof fn lemma_alias_kept(c: ConfigV, line: Seq<char>, name: Seq<char>)
    requires
        !sets_alias(line, name),
    ensures
        config::with_setting(c, line).aliases.dom().contains(name) == c.aliases.dom().contains(
            name,
        ),
        config::with_setting(c, line).aliases[name] == c.aliases[name],
{
}

proof fn lemma_unset(ls: Seq<Seq<char>>, p: PatternV, name: Seq<char>)
    requires
        forall|k: int|
            0 <= k < ls.len() && sets_alias(text::trimmed(#[trigger] ls[k]), name) ==> config::fits(
                p,
                ls[k],
            ),
    ensures
        !config::loaded_lines(config::not_fitting(ls, p)).0.aliases.dom().contains(name),
    decreases ls.len(),
{
    if ls.len() > 0 {
        let front = ls.drop_last();
        assert forall|k: int|
            0 <= k < front.len() && sets_alias(
                text::trimmed(#[trigger] front[k]),
                name,
            ) implies config::fits(p, front[k]) by {
            assert(ls[k] == front[k]);
        }
        lemma_unset(front, p, name);
        let x = ls.last();
        assert(ls[ls.len() - 1] == x);
        if !config::fits(p, x) {
            let kept = config::not_fitting(front, p);
            let all = kept.push(x);
            assert(all.drop_last() =~= kept);
            let (c, b) = config::loaded_lines(kept);
            lemma_alias_kept(c, text::trimmed(x), name);
        }
    }
}

proof fn lemma_not_fitting_feedless(ls: Seq<Seq<char>>, p: PatternV)
    requires
        feedless(ls),
    ensures
        feedless(config::not_fitting(ls, p)),
    decreases ls.len(),
{
    if ls.len() > 0 {
        let front = ls.drop_last();
        assert forall|k: int| 0 <= k < front.len() implies !(#[trigger] front[k]).contains('\n') by {
            assert(!ls[k].contains('\n'));
        }
        lemma_not_fitting_feedless(front, p);
        let kept = config::not_fitting(front, p);
        let all = config::not_fitting(ls, p);
        assert(!ls[ls.len() - 1].contains('\n'));
        assert forall|k: int| 0 <= k < all.len() implies !(#[trigger] all[k]).contains('\n') by {
            if k < kept.len() {
                assert(all[k] == kept[k]);
            }
        }
    }
}

/// An alias that is removed from a file is not read from it, if it was set in
/// no line that is written differently.
pub proof fn law_removed_alias_is_gone(content: Seq<char>, name: Seq<char>)
    requires
        forall|k: int|
            0 <= k < text::lines_of(content).len() && sets_alias(
                text::trimmed(#[trigger] text::lines_of(content)[k]),
                name,
            ) ==> config::fits(
                PatternV::Starts(config::alias_start(name)),
                text::lines_of(content)[k],
            ),
    ensures
        !config::loaded(
            config::without_lines(content, PatternV::Starts(config::alias_start(name))),
        ).aliases.dom().contains(name),
{
    let p = PatternV::Starts(config::alias_start(name));
    let ls = text::lines_of(content);
    lemma_unset(ls, p, name);
    lemma_lines_feedless(content);
    lemma_not_fitting_feedless(ls, p);
    lemma_joined_loaded(config::not_fitting(ls, p));
}

/// Where all aliases are removed from a file, none is read from it.
pub proof fn law_removed_aliases_are_gone(content: Seq<char>, name: Seq<char>)
    ensures
        !config::loaded(
            config::without_lines(content, PatternV::Starts("alias "@)),
        ).aliases.dom().contains(name),
{
    let p = PatternV::Starts("alias "@);
    let ls = text::lines_of(content);
    lemma_unset(ls, p, name);
    lemma_lines_feedless(content);
    lemma_not_fitting_feedless(ls, p);
    lemma_joined_loaded(config::not_fitting(ls, p));
}

// ---------------------------------------------------------------------------
// Quoted text
// ---------------------------------------------------------------------------

proof fn lemma_quotes_first(s: Seq<char>)
    requires
        s.len() > 0,
    ensures
        config::quotes_escaped(s) == (if s[0] == '\'' {
            seq!['\'', '\\', '\'', '\'']
        } else {
            seq![s[0]]
        }) + config::quotes_escaped(s.drop_first()),
    decreases s.len(),
{
    if s.len() == 1 {
        assert(s.drop_last() =~= Seq::empty());
        assert(s.drop_first() =~= Seq::empty());
        assert(config::quotes_escaped(s.drop_last()) =~= Seq::<char>::empty());
        assert(config::quotes_escaped(s) =~= (if s[0] == '\'' {
            seq!['\'', '\\', '\'', '\'']
        } else {
            seq![s[0]]
        }) + config::quotes_escaped(s.drop_first()));
    } else {
        lemma_quotes_first(s.drop_last());
        assert(s.drop_last().drop_first() =~= s.drop_first().drop_last());
        assert(config::quotes_escaped(s) =~= (if s[0] == '\'' {
            seq!['\'', '\\', '\'', '\'']
        } else {
            seq![s[0]]
        }) + config::quotes_escaped(s.drop_first()));
    }
}

proof fn lemma_quoted_parts(t: Seq<char>, i: int, s: Seq<char>, acc: Seq<expand::PartV>)
    requires
        0 <= i <= t.len(),
        t.skip(i) == config::quotes_escaped(s) + seq!['\''],
    ensures
        expand::parts_from(t, i, expand::Quote::Single, acc) == acc + expand::literals(s),
    decreases s.len(),
{
    let rest = t.skip(i);
    if s.len() == 0 {
        assert(rest =~= seq!['\'']);
        assert(t[i] == rest[0]);
        assert(t.len() == i + 1);
        assert(expand::parts_from(t, i + 1, expand::Quote::Plain, acc) == acc);
        assert(acc + expand::literals(s) =~= acc);
    } else {
        lemma_quotes_first(s);
        let tail = config::quotes_escaped(s.drop_first()) + seq!['\''];
        let p = expand::PartV::Literal(seq![s[0]]);
        if s[0] == '\'' {
            assert(rest =~= seq!['\'', '\\', '\'', '\''] + tail);
            assert(t[i] == rest[0] && t[i + 1] == rest[1] && t[i + 2] == rest[2] && t[i + 3]
                == rest[3]);
            assert(t.skip(i + 4) =~= rest.skip(4));
            assert(rest.skip(4) =~= tail);
            lemma_quoted_parts(t, i + 4, s.drop_first(), acc.push(p));
            assert(expand::parts_from(t, i + 3, expand::Quote::Plain, acc.push(p))
                == expand::parts_from(t, i + 4, expand::Quote::Single, acc.push(p)));
            assert(expand::parts_from(t, i + 1, expand::Quote::Plain, acc) == expand::parts_from(
                t,
                i + 3,
                expand::Quote::Plain,
                acc.push(p),
            ));
        } else {
            assert(rest =~= seq![s[0]] + tail);
            assert(t[i] == rest[0]);
            assert(t.skip(i + 1) =~= rest.skip(1));
            assert(rest.skip(1) =~= tail);
            lemma_quoted_parts(t, i + 1, s.drop_first(), acc.push(p));
        }
        assert(acc.push(p) + expand::literals(s.drop_first()) =~= acc + expand::literals(s));
    }
}

/// A text that is quoted is one word of a command line, and stands for the
/// text. One that needs no quotes may not start with a `~`.
pub proof fn law_quoted_text_is_one_word(
    s: Seq<char>,
    answers: Seq<Seq<char>>,
    state: ShellV,
    env: EnvironmentV,
)
    requires
        config::any_needs_quotes(s) || s.len() == 0 || s[0] != '~',
    ensures
        expand::fields_of(config::quoted(s), answers, state, env) == seq![s],
{
    let t = config::quoted(s);
    if s.len() == 0 || config::any_needs_quotes(s) {
        assert(t.skip(1) =~= config::quotes_escaped(s) + seq!['\'']);
        assert(t[0] == '\'');
        lemma_quoted_parts(t, 1, s, Seq::empty());
        assert(Seq::empty() + expand::literals(s) =~= expand::literals(s));
        expand::law_literals_are_one_word(t, s, answers, state, env);
    } else {
        assert forall|k: int| 0 <= k < s.len() implies expand::ordinary(#[trigger] s[k]) || (k > 0
            && s[k] == '~') by {
            assert(!config::needs_quotes(s[k]));
        }
        expand::law_ordinary_word_stays(s, answers, state, env);
    }
}

proof fn lemma_quotes_append(a: Seq<char>, b: Seq<char>)
    ensures
        config::quotes_escaped(a + b) == config::quotes_escaped(a) + config::quotes_escaped(b),
    decreases b.len(),
{
    if b.len() == 0 {
        assert(a + b =~= a);
        assert(config::quotes_escaped(a) + config::quotes_escaped(b) =~= config::quotes_escaped(a));
    } else {
        assert((a + b).drop_last() =~= a + b.drop_last());
        lemma_quotes_append(a, b.drop_last());
        assert(config::quotes_escaped(a + b) =~= config::quotes_escaped(a)
            + config::quotes_escaped(b));
    }
}

proof fn lemma_until_in(s: Seq<char>, tail: Seq<char>, c: char)
    requires
        !s.contains(c),
    ensures
        text::until(s + seq![c] + tail, c) == s.len(),
{
    let all = s + seq![c] + tail;
    text::lemma_until(all, c);
    lemma_until_first(all, c);
    assert(all[s.len() as int] == c);
    assert(all.contains(c));
    let n = text::until(all, c) as int;
    if n < s.len() {
        assert(s[n] == c);
    }
}

/// A text between single quotes that ends a word.
proof fn lemma_last_quotes(t: Seq<char>, i: int, s: Seq<char>, acc: Seq<char>)
    requires
        0 <= i <= t.len(),
        t.skip(i) == seq!['\''] + s + seq!['\''],
        !s.contains('\''),
    ensures
        token::word_from(t, i, acc) == (Ok::<Seq<char>, Seq<char>>(acc + t.skip(i)), t.len() as int),
{
    let rest = t.skip(i);
    assert(t[i] == rest[0]);
    assert(t.skip(i + 1) =~= rest.skip(1));
    assert(rest.skip(1) =~= s + seq!['\''] + Seq::empty());
    assert(t.len() == i + s.len() + 2);
    lemma_until_in(s, Seq::empty(), '\'');
    assert(t.subrange(i + 1, i + 1 + s.len()) =~= s);
    let now = (acc.push('\'') + s).push('\'');
    assert(token::single_quoted(t, i + 1) == (Ok::<Seq<char>, Seq<char>>(s), t.len() as int));
    assert(token::word_from(t, t.len() as int, now) == (
        Ok::<Seq<char>, Seq<char>>(now),
        t.len() as int,
    ));
    assert(now =~= acc + rest);
}

/// A text between single quotes, and an escaped quote behind it.
proof fn lemma_next_quotes(t: Seq<char>, i: int, first: Seq<char>, tail: Seq<char>, acc: Seq<char>)
    requires
        0 <= i <= t.len(),
        t.skip(i) == seq!['\''] + first + seq!['\'', '\\', '\''] + tail,
        !first.contains('\''),
    ensures
        t.skip(i + first.len() + 4) == tail,
        i + first.len() + 4 <= t.len(),
        token::word_from(t, i, acc) == token::word_from(
            t,
            i + first.len() + 4,
            acc + (seq!['\''] + first + seq!['\'', '\\', '\'']),
        ),
{
    let rest = t.skip(i);
    let n = first.len() as int;
    let j = i + 1 + n;
    assert(rest.len() == n + 4 + tail.len());
    assert(t[i] == rest[0]);
    assert(t[j + 1] == rest[n + 2]);
    assert(t[j + 2] == rest[n + 3]);
    assert(t.skip(j + 3) =~= rest.skip(n + 4));
    assert(rest.skip(n + 4) =~= tail);
    assert(t.skip(i + 1) =~= rest.skip(1));
    assert(rest.skip(1) =~= first + seq!['\''] + (seq!['\\', '\''] + tail));
    lemma_until_in(first, seq!['\\', '\''] + tail, '\'');
    assert(t.subrange(i + 1, j) =~= first);
    assert(token::single_quoted(t, i + 1) == (Ok::<Seq<char>, Seq<char>>(first), j + 1));
    let now = (acc.push('\'') + first).push('\'');
    let then = now.push('\\').push('\'');
    assert(token::word_from(t, j + 1, now) == token::word_from(t, j + 3, then));
    assert(then =~= acc + (seq!['\''] + first + seq!['\'', '\\', '\'']));
}

/// A text with a quote in it, up to that quote and behind it.
proof fn lemma_quotes_at(s: Seq<char>, n: int)
    requires
        0 <= n < s.len(),
        s[n] == '\'',
        !s.take(n).contains('\''),
    ensures
        config::quotes_escaped(s) == s.take(n) + seq!['\'', '\\', '\'', '\'']
            + config::quotes_escaped(s.skip(n + 1)),
{
    let first = s.take(n);
    let others = s.skip(n + 1);
    let later = seq!['\''] + others;
    let mark = seq!['\'', '\\', '\'', '\''];
    assert(s =~= first + later);
    lemma_quotes_append(first, later);
    lemma_quotes_first(later);
    assert(later.drop_first() =~= others);
    lemma_no_quotes(first);
    assert(first + (mark + config::quotes_escaped(others)) =~= first + mark
        + config::quotes_escaped(others));
}

proof fn lemma_quoted_word(t: Seq<char>, i: int, s: Seq<char>, acc: Seq<char>)
    requires
        0 <= i <= t.len(),
        t.skip(i) == seq!['\''] + config::quotes_escaped(s) + seq!['\''],
    ensures
        token::word_from(t, i, acc) == (Ok::<Seq<char>, Seq<char>>(acc + t.skip(i)), t.len() as int),
    decreases s.len(),
{
    if !s.contains('\'') {
        lemma_no_quotes(s);
        lemma_last_quotes(t, i, s, acc);
    } else {
        text::lemma_until(s, '\'');
        lemma_until_first(s, '\'');
        let n = text::until(s, '\'') as int;
        let first = s.take(n);
        let others = s.skip(n + 1);
        assert(!first.contains('\''));
        lemma_quotes_at(s, n);
        let head = seq!['\''] + first + seq!['\'', '\\', '\''];
        let tail = seq!['\''] + config::quotes_escaped(others) + seq!['\''];
        assert(t.skip(i) =~= head + tail);
        lemma_next_quotes(t, i, first, tail, acc);
        lemma_quoted_word(t, i + n + 4, others, acc + head);
        assert(acc + head + tail =~= acc + t.skip(i));
    }
}

/// A text that is quoted is one token of a command line. One that needs no
/// quotes may hold no white space.
pub proof fn law_quoted_text_is_one_token(s: Seq<char>)
    requires
        config::any_needs_quotes(s) || forall|k: int|
            0 <= k < s.len() ==> !text::ascii_space(#[trigger] s[k]),
    ensures
        token::tokens_of(config::quoted(s)) == Ok::<Seq<Tok>, Seq<char>>(
            seq![Tok::Word(config::quoted(s))],
        ),
{
    let t = config::quoted(s);
    assert(t.skip(0) =~= t);
    if s.len() == 0 || config::any_needs_quotes(s) {
        lemma_quoted_word(t, 0, s, Seq::empty());
        assert(t[0] == '\'');
    } else {
        assert forall|k: int| 0 <= k < s.len() implies !config::needs_quotes(#[trigger] s[k]) by {}
        lemma_bare_word(s, 0, Seq::empty());
        assert(!text::ascii_space(s[0]) && !config::needs_quotes(s[0]));
    }
    assert(Seq::<char>::empty() + t =~= t);
    assert(token::spaces_end(t, 0) == 0);
    assert(token::operator_at(t, 0) is None);
    let acc = Seq::empty().push(Tok::Word(t));
    assert(token::spaces_end(t, t.len() as int) == t.len());
    assert(token::tokens_from(t, t.len() as int, acc).0 == Ok::<Seq<Tok>, Seq<char>>(acc));
    assert(acc =~= seq![Tok::Word(t)]);
}

proof fn lemma_bare_word(s: Seq<char>, i: int, acc: Seq<char>)
    requires
        0 <= i <= s.len(),
        forall|k: int|
            0 <= k < s.len() ==> !config::needs_quotes(#[trigger] s[k]) && !text::ascii_space(s[k]),
        acc.len() > 0 || i < s.len(),
    ensures
        token::word_from(s, i, acc) == (Ok::<Seq<char>, Seq<char>>(acc + s.skip(i)), s.len() as int),
    decreases s.len() - i,
{
    if i < s.len() {
        assert(!config::needs_quotes(s[i]) && !text::ascii_space(s[i]));
        lemma_bare_word(s, i + 1, acc.push(s[i]));
        assert(acc.push(s[i]) + s.skip(i + 1) =~= acc + s.skip(i));
    } else {
        assert(acc + s.skip(i) =~= acc);
    }
}

} // verus!
