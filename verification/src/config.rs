//! The settings that a shell keeps in a file: reading them, and changing them.

use vstd::prelude::*;
use vstd::string::*;

use crate::expand;
use crate::expand::{substitute, text_commands};
use crate::prompt;
use crate::prompt::{render_format, render_prompt, PromptFacts};
use crate::shell;
use crate::shell::{Shell, ShellV, StringMap};
use crate::text;
use crate::text::{
    ends_with_char, from_range, is_ascii_space, join, lines, owned, same, split_once,
    starts_with, starts_with_char, strip_prefix, to_chars, trim, trim_start,
};

verus! {

// ---------------------------------------------------------------------------
// The lines of a prompt
// ---------------------------------------------------------------------------

/// A line of the block that describes the prompt.
pub enum ConfigLine {
    /// What is shown, in parts that spaces separate.
    Echo(Vec<String>),
}

impl View for ConfigLine {
    type V = Seq<Seq<char>>;

    open spec fn view(&self) -> Seq<Seq<char>> {
        match *self {
            ConfigLine::Echo(args) => text::texts(args@),
        }
    }
}

/// The argument in double quotes that goes on at `i`, behind `acc`, and where
/// it ends.
pub open spec fn double_quoted(s: Seq<char>, i: int, acc: Seq<char>) -> (Seq<char>, int)
    decreases s.len() - i,
{
    if i < 0 || i >= s.len() {
        (acc, s.len() as int)
    } else if s[i] == '"' {
        (acc, i + 1)
    } else if s[i] == '\\' && i + 1 < s.len() {
        if s[i + 1] == '\\' || s[i + 1] == '"' {
            double_quoted(s, i + 2, acc.push(s[i + 1]))
        } else {
            double_quoted(s, i + 2, acc.push('\\').push(s[i + 1]))
        }
    } else {
        double_quoted(s, i + 1, acc.push(s[i]))
    }
}

/// The argument in single quotes that starts at `i`, and where it ends.
pub open spec fn single_quoted(s: Seq<char>, i: int) -> (Seq<char>, int) {
    (prompt::up_to(s, i, '\''), prompt::after_closing(s, i, '\''))
}

/// Where the argument without quotes that goes on at `i` ends.
pub open spec fn bare_end(s: Seq<char>, i: int) -> int
    decreases s.len() - i,
{
    if 0 <= i < s.len() && !text::ascii_space(s[i]) && s[i] != '\'' && s[i] != '"' {
        bare_end(s, i + 1)
    } else {
        i
    }
}

pub proof fn lemma_double_quoted(s: Seq<char>, i: int, acc: Seq<char>)
    requires
        0 <= i <= s.len(),
    ensures
        i <= double_quoted(s, i, acc).1 <= s.len(),
    decreases s.len() - i,
{
    if i < s.len() && s[i] != '"' {
        if s[i] == '\\' && i + 1 < s.len() {
            if s[i + 1] == '\\' || s[i + 1] == '"' {
                lemma_double_quoted(s, i + 2, acc.push(s[i + 1]));
            } else {
                lemma_double_quoted(s, i + 2, acc.push('\\').push(s[i + 1]));
            }
        } else {
            lemma_double_quoted(s, i + 1, acc.push(s[i]));
        }
    }
}

pub proof fn lemma_bare_end(s: Seq<char>, i: int)
    requires
        0 <= i <= s.len(),
    ensures
        i <= bare_end(s, i) <= s.len(),
        i < s.len() && !text::ascii_space(s[i]) && s[i] != '\'' && s[i] != '"' ==> i < bare_end(
            s,
            i,
        ),
    decreases s.len() - i,
{
    if i < s.len() && !text::ascii_space(s[i]) && s[i] != '\'' && s[i] != '"' {
        lemma_bare_end(s, i + 1);
    }
}

/// The arguments from place `i` on, behind `acc`.
pub open spec fn echo_args_from(s: Seq<char>, i: int, acc: Seq<Seq<char>>) -> Seq<Seq<char>>
    decreases s.len() - i,
{
    if i < 0 || i >= s.len() {
        acc
    } else if text::ascii_space(s[i]) {
        echo_args_from(s, i + 1, acc)
    } else if s[i] == '"' {
        proof {
            lemma_double_quoted(s, i + 1, Seq::empty());
        }
        let (arg, j) = double_quoted(s, i + 1, Seq::empty());
        echo_args_from(s, j, acc.push(arg))
    } else if s[i] == '\'' {
        proof {
            prompt::lemma_after_closing(s, i + 1, '\'');
        }
        let (arg, j) = single_quoted(s, i + 1);
        echo_args_from(s, j, acc.push(arg))
    } else {
        proof {
            lemma_bare_end(s, i);
        }
        echo_args_from(s, bare_end(s, i), acc.push(s.subrange(i, bare_end(s, i))))
    }
}

fn read_double_quoted(v: &Vec<char>, from: usize) -> (r: (String, usize))
    requires
        from <= v.len(),
    ensures
        r.0@ == double_quoted(v@, from as int, Seq::empty()).0,
        r.1 == double_quoted(v@, from as int, Seq::empty()).1,
        from <= r.1 <= v.len(),
{
    proof {
        lemma_double_quoted(v@, from as int, Seq::empty());
    }
    let mut arg = String::new();
    let mut i: usize = from;
    assert(arg@ =~= Seq::empty());
    while i < v.len() && v[i] != '"'
        invariant
            from <= i <= v.len(),
            double_quoted(v@, i as int, arg@) == double_quoted(v@, from as int, Seq::empty()),
        decreases v.len() - i,
    {
        if v[i] == '\\' && i + 1 < v.len() {
            if v[i + 1] != '\\' && v[i + 1] != '"' {
                arg.push('\\');
            }
            arg.push(v[i + 1]);
            i += 2;
        } else {
            arg.push(v[i]);
            i += 1;
        }
    }
    if i < v.len() {
        (arg, i + 1)
    } else {
        (arg, i)
    }
}

/// The arguments of an `echo` in the block that describes the prompt.
pub fn parse_echo_args(s: &str) -> (r: Vec<String>)
    ensures
        text::texts(r@) == echo_args_from(s@, 0, Seq::empty()),
{
    let v = to_chars(s);
    let mut args: Vec<String> = Vec::new();
    let mut i: usize = 0;
    assert(text::texts(args@) =~= Seq::empty());
    while i < v.len()
        invariant
            i <= v.len(),
            v@ == s@,
            echo_args_from(v@, i as int, text::texts(args@)) == echo_args_from(s@, 0, Seq::empty()),
        decreases v.len() - i,
    {
        broadcast use text::texts_push;

        let c = v[i];
        if is_ascii_space(c) {
            i += 1;
        } else if c == '"' {
            let (arg, j) = read_double_quoted(&v, i + 1);
            args.push(arg);
            i = j;
        } else if c == '\'' {
            let end = prompt::closing_at(&v, i + 1, '\'');
            args.push(from_range(&v, i + 1, end));
            i = if end < v.len() {
                end + 1
            } else {
                end
            };
        } else {
            proof {
                lemma_bare_end(v@, i as int);
            }
            let mut end: usize = i;
            while end < v.len() && !is_ascii_space(v[end]) && v[end] != '\'' && v[end] != '"'
                invariant
                    i <= end <= v.len(),
                    bare_end(v@, end as int) == bare_end(v@, i as int),
                decreases v.len() - end,
            {
                end += 1;
            }
            args.push(from_range(&v, i, end));
            i = end;
        }
    }
    args
}

/// What a line of the block that describes the prompt shows, if it shows
/// anything.
pub open spec fn echo_of(line: Seq<char>) -> Option<Seq<Seq<char>>> {
    let t = text::trimmed(line);
    if text::begins(t, "echo "@) || t == "echo"@ {
        Some(echo_args_from(text::trimmed_start(t.skip(4)), 0, Seq::empty()))
    } else {
        None
    }
}

pub fn parse_config_line(line: &str) -> (r: Option<ConfigLine>)
    ensures
        match r {
            Some(l) => echo_of(line@) == Some(l@),
            None => echo_of(line@) is None,
        },
{
    let t = trim(line);
    proof {
        reveal_strlit("echo ");
        reveal_strlit("echo");
    }
    if starts_with(t.as_str(), "echo ") || same(t.as_str(), "echo") {
        let rest = text::skip(t.as_str(), 4);
        Some(ConfigLine::Echo(parse_echo_args(trim_start(rest.as_str()).as_str())))
    } else {
        None
    }
}

// ---------------------------------------------------------------------------
// Reading settings
// ---------------------------------------------------------------------------

/// The settings.
pub struct Config {
    pub prompt_lines: Vec<ConfigLine>,
    pub aliases: StringMap,
    pub paths: Vec<String>,
    /// What is run at the start of a session with a user.
    pub if_interactive_lines: Vec<String>,
    /// What is run at the start of any other session.
    pub if_not_interactive_lines: Vec<String>,
    pub logging: bool,
    pub shit: bool,
    pub history: bool,
    pub autosuggest: bool,
    pub prompt_on_failure: bool,
}

#[verifier::ext_equal]
pub struct ConfigV {
    pub prompt_lines: Seq<Seq<Seq<char>>>,
    pub aliases: Map<Seq<char>, Seq<char>>,
    pub paths: Seq<Seq<char>>,
    pub interactive: Seq<Seq<char>>,
    pub not_interactive: Seq<Seq<char>>,
    pub logging: bool,
    pub shit: bool,
    pub history: bool,
    pub autosuggest: bool,
    pub prompt_on_failure: bool,
}

pub open spec fn line_views(v: Seq<ConfigLine>) -> Seq<Seq<Seq<char>>> {
    v.map_values(|l: ConfigLine| l@)
}

impl View for Config {
    type V = ConfigV;

    open spec fn view(&self) -> ConfigV {
        ConfigV {
            prompt_lines: line_views(self.prompt_lines@),
            aliases: self.aliases@,
            paths: text::texts(self.paths@),
            interactive: text::texts(self.if_interactive_lines@),
            not_interactive: text::texts(self.if_not_interactive_lines@),
            logging: self.logging,
            shit: self.shit,
            history: self.history,
            autosuggest: self.autosuggest,
            prompt_on_failure: self.prompt_on_failure,
        }
    }
}

/// The block that a line stands in.
#[derive(PartialEq, Eq, Structural, Clone, Copy)]
pub enum Block {
    Outside,
    Prompt,
    Interactive,
    NotInteractive,
}

/// The settings of an empty file.
pub open spec fn no_settings() -> ConfigV {
    ConfigV {
        prompt_lines: Seq::empty(),
        aliases: Map::empty(),
        paths: Seq::empty(),
        interactive: Seq::empty(),
        not_interactive: Seq::empty(),
        logging: false,
        shit: true,
        history: true,
        autosuggest: true,
        prompt_on_failure: true,
    }
}

/// Whether a single quote stands at the start of the text as it is written
/// between single quotes: the quotes end, one with a backslash follows, and
/// quotes begin again.
pub open spec fn starts_with_quote(s: Seq<char>) -> bool {
    s.len() >= 4 && s[0] == '\'' && s[1] == '\\' && s[2] == '\'' && s[3] == '\''
}

/// A text that stood between single quotes, with each single quote in it as it
/// is meant.
pub open spec fn quotes_unescaped(s: Seq<char>) -> Seq<char>
    decreases s.len(),
{
    if s.len() == 0 {
        Seq::empty()
    } else if starts_with_quote(s) {
        seq!['\''] + quotes_unescaped(s.skip(4))
    } else {
        seq![s[0]] + quotes_unescaped(s.drop_first())
    }
}

/// The value of an alias, without the quotes around it.
pub open spec fn unquoted(v: Seq<char>) -> Seq<char> {
    if v.len() >= 2 && v[0] == '"' && v.last() == '"' {
        v.subrange(1, v.len() - 1)
    } else if v.len() >= 2 && v[0] == '\'' && v.last() == '\'' {
        quotes_unescaped(v.subrange(1, v.len() - 1))
    } else {
        v
    }
}

/// The name and the value that the rest of an `alias` line gives.
pub open spec fn alias_in(rest: Seq<char>) -> Option<(Seq<char>, Seq<char>)> {
    match text::parted(rest, '=') {
        Some((n, v)) => if text::trimmed(n).len() > 0 {
            Some((text::trimmed(n), unquoted(text::trimmed(v))))
        } else {
            None
        },
        None => None,
    }
}

pub open spec fn says_on(val: Seq<char>) -> bool {
    text::trimmed(val) == "on"@
}

/// What stands behind `key` in the line, if it starts with that.
pub open spec fn behind(line: Seq<char>, key: Seq<char>) -> Option<Seq<char>> {
    if text::begins(line, key) {
        Some(line.skip(key.len() as int))
    } else {
        None
    }
}

/// The settings after a line outside all blocks.
pub open spec fn with_setting(c: ConfigV, line: Seq<char>) -> ConfigV {
    if let Some(rest) = behind(line, "alias "@) {
        match alias_in(rest) {
            Some((n, v)) => ConfigV { aliases: c.aliases.insert(n, v), ..c },
            None => c,
        }
    } else if let Some(dir) = behind(line, "path "@) {
        if text::trimmed(dir).len() > 0 {
            ConfigV { paths: c.paths.push(text::trimmed(dir)), ..c }
        } else {
            c
        }
    } else if let Some(val) = behind(line, "log "@) {
        ConfigV { logging: says_on(val), ..c }
    } else if let Some(val) = behind(line, "shit "@) {
        ConfigV { shit: says_on(val), ..c }
    } else if let Some(val) = behind(line, "history "@) {
        ConfigV { history: says_on(val), ..c }
    } else if let Some(val) = behind(line, "auto-suggestion "@) {
        ConfigV { autosuggest: says_on(val), ..c }
    } else if let Some(val) = behind(line, "prompt-on-failure "@) {
        ConfigV { prompt_on_failure: says_on(val), ..c }
    } else {
        c
    }
}

/// The settings and the block after one more line, which has no white space
/// around it.
pub open spec fn after_line(c: ConfigV, block: Block, line: Seq<char>) -> (ConfigV, Block) {
    if block != Block::Outside {
        if line == "}"@ {
            (c, Block::Outside)
        } else {
            (
                match block {
                    Block::Prompt => match echo_of(line) {
                        Some(args) => ConfigV { prompt_lines: c.prompt_lines.push(args), ..c },
                        None => c,
                    },
                    Block::Interactive => ConfigV { interactive: c.interactive.push(line), ..c },
                    _ => ConfigV { not_interactive: c.not_interactive.push(line), ..c },
                },
                block,
            )
        }
    } else if line == "prompt {"@ || line == "function prompt {"@ {
        (c, Block::Prompt)
    } else if line == "if-interactive {"@ {
        (c, Block::Interactive)
    } else if line == "if-not-interactive {"@ {
        (c, Block::NotInteractive)
    } else {
        (with_setting(c, line), Block::Outside)
    }
}

/// Whether a line, without white space around it, counts: it is not empty, and
/// no comment.
pub open spec fn counts(line: Seq<char>) -> bool {
    line.len() > 0 && line[0] != '#'
}

/// The settings that the lines of a file give, and the block that is still open
/// at the end.
pub open spec fn loaded_lines(ls: Seq<Seq<char>>) -> (ConfigV, Block)
    decreases ls.len(),
{
    if ls.len() == 0 {
        (no_settings(), Block::Outside)
    } else {
        let (c, block) = loaded_lines(ls.drop_last());
        let t = text::trimmed(ls.last());
        if counts(t) {
            after_line(c, block, t)
        } else {
            (c, block)
        }
    }
}

/// The settings that a file with this content gives.
pub open spec fn loaded(content: Seq<char>) -> ConfigV {
    loaded_lines(text::lines_of(content)).0
}

fn unescape_quotes(v: &Vec<char>) -> (r: String)
    ensures
        r@ == quotes_unescaped(v@),
{
    let mut r = String::new();
    let mut i: usize = 0;
    assert(v@.skip(0) =~= v@);
    assert(r@ + quotes_unescaped(v@) =~= quotes_unescaped(v@));
    while i < v.len()
        invariant
            i <= v.len(),
            r@ + quotes_unescaped(v@.skip(i as int)) == quotes_unescaped(v@),
        decreases v.len() - i,
    {
        let ghost before = r@;
        let ghost left = v@.skip(i as int);
        assert(left.drop_first() =~= v@.skip(i + 1));
        if v.len() - i >= 4 && v[i] == '\'' && v[i + 1] == '\\' && v[i + 2] == '\'' && v[i + 3]
            == '\'' {
            assert(starts_with_quote(left));
            assert(left.skip(4) =~= v@.skip(i + 4));
            r.push('\'');
            i += 4;
        } else {
            assert(!starts_with_quote(left));
            r.push(v[i]);
            i += 1;
        }
        assert(r@ + quotes_unescaped(v@.skip(i as int)) =~= before + quotes_unescaped(left));
    }
    assert(r@ =~= quotes_unescaped(v@));
    r
}

fn unquote(v: &str) -> (r: String)
    ensures
        r@ == unquoted(v@),
{
    let chars = to_chars(v);
    let n = chars.len();
    if n >= 2 && chars[0] == '"' && chars[n - 1] == '"' {
        from_range(&chars, 1, n - 1)
    } else if n >= 2 && chars[0] == '\'' && chars[n - 1] == '\'' {
        let inner = to_chars(from_range(&chars, 1, n - 1).as_str());
        unescape_quotes(&inner)
    } else {
        owned(v)
    }
}

fn is_on(val: &str) -> (r: bool)
    ensures
        r == says_on(val@),
{
    same(trim(val).as_str(), "on")
}

fn read_setting(c: &mut Config, line: &str)
    ensures
        final(c)@ == with_setting(old(c)@, line@),
{
    broadcast use text::texts_push;

    let ghost before = c@;
    if let Some(rest) = strip_prefix(line, "alias ") {
        if let Some((n, v)) = split_once(rest.as_str(), '=') {
            let name = trim(n.as_str());
            if name.as_str().unicode_len() > 0 {
                let value = unquote(trim(v.as_str()).as_str());
                c.aliases.insert(name.as_str(), value.as_str());
            }
        }
    } else if let Some(dir) = strip_prefix(line, "path ") {
        let dir = trim(dir.as_str());
        if dir.as_str().unicode_len() > 0 {
            c.paths.push(dir);
        }
    } else if let Some(val) = strip_prefix(line, "log ") {
        c.logging = is_on(val.as_str());
    } else if let Some(val) = strip_prefix(line, "shit ") {
        c.shit = is_on(val.as_str());
    } else if let Some(val) = strip_prefix(line, "history ") {
        c.history = is_on(val.as_str());
    } else if let Some(val) = strip_prefix(line, "auto-suggestion ") {
        c.autosuggest = is_on(val.as_str());
    } else if let Some(val) = strip_prefix(line, "prompt-on-failure ") {
        c.prompt_on_failure = is_on(val.as_str());
    }
    assert(c@ =~= with_setting(before, line@));
}

fn read_line(c: &mut Config, block: Block, line: &str) -> (r: Block)
    ensures
        (final(c)@, r) == after_line(old(c)@, block, line@),
{
    broadcast use text::texts_push;

    let ghost before = c@;
    if block != Block::Outside {
        if same(line, "}") {
            return Block::Outside;
        }
        match block {
            Block::Prompt => {
                if let Some(l) = parse_config_line(line) {
                    let ghost args = l@;
                    c.prompt_lines.push(l);
                    assert(line_views(c.prompt_lines@) =~= before.prompt_lines.push(args));
                }
            },
            Block::Interactive => {
                c.if_interactive_lines.push(owned(line));
            },
            _ => {
                c.if_not_interactive_lines.push(owned(line));
            },
        }
        return block;
    }
    if same(line, "prompt {") || same(line, "function prompt {") {
        Block::Prompt
    } else if same(line, "if-interactive {") {
        Block::Interactive
    } else if same(line, "if-not-interactive {") {
        Block::NotInteractive
    } else {
        read_setting(c, line);
        Block::Outside
    }
}

/// The settings that a file with this content gives.
pub fn load_config(content: &str) -> (r: Config)
    ensures
        r@ == loaded(content@),
{
    let ls = lines(content);
    let mut c = Config {
        prompt_lines: Vec::new(),
        aliases: StringMap::new(),
        paths: Vec::new(),
        if_interactive_lines: Vec::new(),
        if_not_interactive_lines: Vec::new(),
        logging: false,
        shit: true,
        history: true,
        autosuggest: true,
        prompt_on_failure: true,
    };
    let mut block = Block::Outside;
    let ghost all = text::texts(ls@);
    assert(c@ =~= no_settings());
    assert(all.take(0) =~= Seq::empty());
    let mut i: usize = 0;
    while i < ls.len()
        invariant
            i <= ls.len(),
            all == text::texts(ls@),
            (c@, block) == loaded_lines(all.take(i as int)),
        decreases ls.len() - i,
    {
        assert(all.take(i + 1).drop_last() =~= all.take(i as int));
        assert(all.take(i + 1).last() == ls@[i as int]@);
        let t = trim(ls[i].as_str());
        if t.as_str().unicode_len() > 0 && !starts_with_char(t.as_str(), '#') {
            block = read_line(&mut c, block, t.as_str());
        }
        i += 1;
    }
    assert(all.take(all.len() as int) =~= all);
    c
}

/// A shell that starts with these settings, if there are any.
pub open spec fn started_with(
    config: Option<ConfigV>,
    config_path: Option<Seq<char>>,
    fresh: bool,
) -> ShellV {
    let s = shell::first_state(config_path, fresh);
    match config {
        Some(c) => ShellV {
            aliases: c.aliases,
            logging: c.logging,
            shit: c.shit,
            history: c.history,
            autosuggest: c.autosuggest,
            prompt_on_failure: c.prompt_on_failure,
            ..s
        },
        None => s,
    }
}

pub open spec fn opt_config(c: Option<Config>) -> Option<ConfigV> {
    match c {
        Some(c) => Some(c@),
        None => None,
    }
}

/// A shell that starts with these settings, if there are any.
pub fn start_shell(config: &Option<Config>, config_path: Option<String>, fresh: bool) -> (r: Shell)
    ensures
        r@ == started_with(opt_config(*config), shell::opt(config_path), fresh),
{
    let mut s = Shell::new(config_path, fresh);
    if let Some(c) = config {
        s.aliases = c.aliases.clone();
        s.logging = c.logging;
        s.shit = c.shit;
        s.history = c.history;
        s.autosuggest = c.autosuggest;
        s.prompt_on_failure = c.prompt_on_failure;
    }
    s
}

// ---------------------------------------------------------------------------
// Showing the prompt
// ---------------------------------------------------------------------------

/// The parts of a line of the prompt from place `k` on, behind `acc`, with the
/// output of commands put in, and the answers that are left.
pub open spec fn line_text(
    args: Seq<Seq<char>>,
    k: int,
    acc: Seq<char>,
    answers: Seq<Seq<char>>,
) -> (Seq<char>, Seq<Seq<char>>)
    decreases args.len() - k,
{
    if k < 0 || k >= args.len() {
        (acc, answers)
    } else {
        let start = if k > 0 {
            acc.push(' ')
        } else {
            acc
        };
        line_text(
            args,
            k + 1,
            start + expand::substituted_from(args[k], 0, Seq::empty(), answers),
            expand::later(answers, expand::asked_from(args[k], 0)),
        )
    }
}

/// The lines of the prompt from place `k` on, behind `acc`.
pub open spec fn prompt_text(
    ls: Seq<Seq<Seq<char>>>,
    k: int,
    acc: Seq<char>,
    answers: Seq<Seq<char>>,
) -> Seq<char>
    decreases ls.len() - k,
{
    if k < 0 || k >= ls.len() {
        acc
    } else {
        let start = if k > 0 {
            acc.push('\n')
        } else {
            acc
        };
        let (now, left) = line_text(ls[k], 0, start, answers);
        prompt_text(ls, k + 1, now, left)
    }
}

/// The commands that the parts of a line ask for, in order.
pub open spec fn line_commands(args: Seq<Seq<char>>) -> Seq<Seq<char>>
    decreases args.len(),
{
    if args.len() == 0 {
        Seq::empty()
    } else {
        line_commands(args.drop_last()) + expand::substitutions_from(args.last(), 0, Seq::empty())
    }
}

/// The commands that the lines of the prompt ask for, in order.
pub open spec fn commands_of(ls: Seq<Seq<Seq<char>>>) -> Seq<Seq<char>>
    decreases ls.len(),
{
    if ls.len() == 0 {
        Seq::empty()
    } else {
        commands_of(ls.drop_last()) + line_commands(ls.last())
    }
}

fn commands_of_line(args: &Vec<String>) -> (r: Vec<String>)
    ensures
        text::texts(r@) == line_commands(text::texts(args@)),
{
    let mut r: Vec<String> = Vec::new();
    let mut i: usize = 0;
    let ghost all = text::texts(args@);
    assert(all.take(0) =~= Seq::empty());
    assert(text::texts(r@) =~= Seq::empty());
    while i < args.len()
        invariant
            i <= args.len(),
            all == text::texts(args@),
            text::texts(r@) == line_commands(all.take(i as int)),
        decreases args.len() - i,
    {
        broadcast use text::texts_add;

        assert(all.take(i + 1).drop_last() =~= all.take(i as int));
        assert(all.take(i + 1).last() == args@[i as int]@);
        let mut these = text_commands(args[i].as_str());
        r.append(&mut these);
        i += 1;
    }
    assert(all.take(all.len() as int) =~= all);
    r
}

/// The commands whose output the prompt shows, in order.
pub fn prompt_commands(config: &Config) -> (r: Vec<String>)
    ensures
        text::texts(r@) == commands_of(config@.prompt_lines),
{
    let mut r: Vec<String> = Vec::new();
    let mut i: usize = 0;
    let ghost all = line_views(config.prompt_lines@);
    assert(all.take(0) =~= Seq::empty());
    assert(text::texts(r@) =~= Seq::empty());
    while i < config.prompt_lines.len()
        invariant
            i <= config.prompt_lines.len(),
            all == line_views(config.prompt_lines@),
            text::texts(r@) == commands_of(all.take(i as int)),
        decreases config.prompt_lines.len() - i,
    {
        broadcast use text::texts_add;

        assert(all.take(i + 1).drop_last() =~= all.take(i as int));
        assert(all.take(i + 1).last() == config.prompt_lines@[i as int]@);
        match &config.prompt_lines[i] {
            ConfigLine::Echo(args) => {
                let mut these = commands_of_line(args);
                r.append(&mut these);
            },
        }
        i += 1;
    }
    assert(all.take(all.len() as int) =~= all);
    r
}

fn put_line(args: &Vec<String>, out: &mut String, answers: &Vec<String>, from: usize) -> (now: usize)
    requires
        from <= answers.len(),
    ensures
        now <= answers.len(),
        (final(out)@, expand::later(text::texts(answers@), now as nat)) == line_text(
            text::texts(args@),
            0,
            old(out)@,
            expand::later(text::texts(answers@), from as nat),
        ),
{
    let mut used: usize = from;
    let mut i: usize = 0;
    let ghost all = text::texts(args@);
    let ghost given = text::texts(answers@);
    let ghost want = line_text(all, 0, out@, expand::later(given, from as nat));
    while i < args.len()
        invariant
            i <= args.len(),
            used <= answers.len(),
            all == text::texts(args@),
            given == text::texts(answers@),
            line_text(all, i as int, out@, expand::later(given, used as nat)) == want,
        decreases args.len() - i,
    {
        assert(all[i as int] == args@[i as int]@);
        if i > 0 {
            out.push(' ');
        }
        let (part, now) = substitute(args[i].as_str(), answers, used);
        out.append(part.as_str());
        used = now;
        i += 1;
    }
    used
}

/// The description of the prompt that the settings give, with the output of its
/// commands (`prompt_commands`) put in.
pub fn config_prompt_format(config: &Config, answers: &Vec<String>) -> (r: String)
    ensures
        r@ == prompt_text(config@.prompt_lines, 0, Seq::empty(), text::texts(answers@)),
{
    let mut out = String::new();
    let mut used: usize = 0;
    let mut i: usize = 0;
    let ghost all = line_views(config.prompt_lines@);
    let ghost given = text::texts(answers@);
    let ghost want = prompt_text(all, 0, Seq::empty(), given);
    assert(out@ =~= Seq::empty());
    assert(expand::later(given, 0) =~= given);
    while i < config.prompt_lines.len()
        invariant
            i <= config.prompt_lines.len(),
            used <= answers.len(),
            all == line_views(config.prompt_lines@),
            given == text::texts(answers@),
            prompt_text(all, i as int, out@, expand::later(given, used as nat)) == want,
        decreases config.prompt_lines.len() - i,
    {
        assert(all[i as int] == config.prompt_lines@[i as int]@);
        if i > 0 {
            out.push('\n');
        }
        match &config.prompt_lines[i] {
            ConfigLine::Echo(args) => {
                used = put_line(args, &mut out, answers, used);
            },
        }
        i += 1;
    }
    out
}

/// The prompt that the settings describe. `answers` are the outputs of its
/// commands (`prompt_commands`), in order.
pub fn render_config_prompt(config: &Config, shell: &Shell, f: &PromptFacts, answers: &Vec<String>) -> (r:
    String)
    ensures
        r@ == prompt::prompt_of(
            prompt_text(config@.prompt_lines, 0, Seq::empty(), text::texts(answers@)),
            *f,
            shell@,
        ),
{
    let fmt = config_prompt_format(config, answers);
    render_format(fmt.as_str(), f, shell)
}

/// The prompt that is shown: the one that the settings describe, or the one that
/// the environment describes where there are no settings or theirs is empty.
pub open spec fn shown_prompt(
    config: Option<ConfigV>,
    ps1: Option<Seq<char>>,
    f: PromptFacts,
    s: ShellV,
    answers: Seq<Seq<char>>,
) -> Seq<char> {
    let usual = prompt::prompt_of(prompt::description(ps1), f, s);
    match config {
        Some(c) => {
            let own = prompt::prompt_of(
                prompt_text(c.prompt_lines, 0, Seq::empty(), answers),
                f,
                s,
            );
            if own.len() > 0 {
                own
            } else {
                usual
            }
        },
        None => usual,
    }
}

/// The prompt that is shown. `answers` are the outputs of the commands in the
/// settings (`prompt_commands`), in order.
pub fn session_prompt(
    config: &Option<Config>,
    ps1: &Option<String>,
    f: &PromptFacts,
    shell: &Shell,
    answers: &Vec<String>,
) -> (r: String)
    ensures
        r@ == shown_prompt(
            match *config {
                Some(c) => Some(c@),
                None => None,
            },
            shell::opt(*ps1),
            *f,
            shell@,
            text::texts(answers@),
        ),
{
    if let Some(c) = config {
        let own = render_config_prompt(c, shell, f, answers);
        if own.as_str().unicode_len() > 0 {
            return own;
        }
    }
    render_prompt(ps1, f, shell)
}

// ---------------------------------------------------------------------------
// Quoting
// ---------------------------------------------------------------------------

/// Whether a character makes quotes necessary.
pub open spec fn needs_quotes(c: char) -> bool {
    c == ' ' || c == '\t' || c == '\'' || c == '"' || c == '\\' || c == '$' || c == '`' || c == '!'
        || c == '#' || c == '&' || c == '|' || c == ';' || c == '<' || c == '>' || c == '(' || c
        == ')' || c == '{' || c == '}'
}

pub open spec fn any_needs_quotes(s: Seq<char>) -> bool {
    exists|k: int| 0 <= k < s.len() && needs_quotes(#[trigger] s[k])
}

/// A text with each single quote written so that it can stand between single
/// quotes.
pub open spec fn quotes_escaped(s: Seq<char>) -> Seq<char>
    decreases s.len(),
{
    if s.len() == 0 {
        Seq::empty()
    } else {
        quotes_escaped(s.drop_last()) + (if s.last() == '\'' {
            seq!['\'', '\\', '\'', '\'']
        } else {
            seq![s.last()]
        })
    }
}

/// A text as it can be written in a command line: in single quotes where that
/// is necessary.
pub open spec fn quoted(s: Seq<char>) -> Seq<char> {
    if s.len() == 0 || any_needs_quotes(s) {
        seq!['\''] + quotes_escaped(s) + seq!['\'']
    } else {
        s
    }
}

fn is_quote_needed(c: char) -> (r: bool)
    ensures
        r == needs_quotes(c),
{
    c == ' ' || c == '\t' || c == '\'' || c == '"' || c == '\\' || c == '$' || c == '`' || c == '!'
        || c == '#' || c == '&' || c == '|' || c == ';' || c == '<' || c == '>' || c == '(' || c
        == ')' || c == '{' || c == '}'
}

/// A text as it can be written in a command line.
pub fn shell_quote(s: &str) -> (r: String)
    ensures
        r@ == quoted(s@),
{
    let v = to_chars(s);
    let mut needed = v.len() == 0;
    let mut out = String::new();
    let mut i: usize = 0;
    out.push('\'');
    assert(out@ =~= seq!['\''] + quotes_escaped(v@.take(0)));
    while i < v.len()
        invariant
            i <= v.len(),
            v@ == s@,
            needed == (v.len() == 0 || exists|k: int| 0 <= k < i && needs_quotes(#[trigger] v@[k])),
            out@ == seq!['\''] + quotes_escaped(v@.take(i as int)),
        decreases v.len() - i,
    {
        let ghost before = out@;
        let c = v[i];
        assert(v@.take(i + 1).drop_last() =~= v@.take(i as int));
        if is_quote_needed(c) {
            needed = true;
        }
        if c == '\'' {
            out.push('\'');
            out.push('\\');
            out.push('\'');
            out.push('\'');
            assert(out@ =~= before + seq!['\'', '\\', '\'', '\'']);
        } else {
            out.push(c);
            assert(out@ =~= before + seq![c]);
        }
        assert(out@ =~= seq!['\''] + quotes_escaped(v@.take(i + 1)));
        i += 1;
    }
    assert(v@.take(v.len() as int) =~= v@);
    if needed {
        out.push('\'');
        assert(out@ =~= quoted(s@));
        out
    } else {
        owned(s)
    }
}

// ---------------------------------------------------------------------------
// Changing settings
// ---------------------------------------------------------------------------

/// Which lines of a file a setting stands in.
pub enum Pattern {
    /// Those that start with this, but for white space before it.
    Starts(String),
    /// Those that are one of these, but for white space around them.
    Either(String, String),
}

pub enum PatternV {
    Starts(Seq<char>),
    Either(Seq<char>, Seq<char>),
}

impl View for Pattern {
    type V = PatternV;

    open spec fn view(&self) -> PatternV {
        match *self {
            Pattern::Starts(s) => PatternV::Starts(s@),
            Pattern::Either(a, b) => PatternV::Either(a@, b@),
        }
    }
}

pub open spec fn fits(p: PatternV, line: Seq<char>) -> bool {
    let t = text::trimmed(line);
    match p {
        PatternV::Starts(s) => text::begins(t, s),
        PatternV::Either(a, b) => t == a || t == b,
    }
}

pub open spec fn any_fits(p: PatternV, ls: Seq<Seq<char>>) -> bool {
    exists|k: int| 0 <= k < ls.len() && fits(p, #[trigger] ls[k])
}

/// The lines with `line` in place of those that fit.
pub open spec fn replaced(ls: Seq<Seq<char>>, p: PatternV, line: Seq<char>) -> Seq<Seq<char>> {
    Seq::new(
        ls.len(),
        |k: int|
            if fits(p, ls[k]) {
                line
            } else {
                ls[k]
            },
    )
}

/// A text with a line feed at its end.
pub open spec fn terminated(s: Seq<char>) -> Seq<char> {
    if s.len() > 0 && s.last() == '\n' {
        s
    } else {
        s.push('\n')
    }
}

/// A file with one more line.
pub open spec fn with_line(content: Seq<char>, line: Seq<char>) -> Seq<char> {
    (if content.len() == 0 {
        content
    } else {
        terminated(content)
    }) + line + seq!['\n']
}

/// A file with `line` in place of the lines that fit, or else at its end.
pub open spec fn with_line_set(content: Seq<char>, p: PatternV, line: Seq<char>) -> Seq<char> {
    let ls = text::lines_of(content);
    if any_fits(p, ls) {
        terminated(text::joined(replaced(ls, p, line), "\n"@))
    } else {
        with_line(content, line)
    }
}

/// The lines that do not fit.
pub open spec fn not_fitting(ls: Seq<Seq<char>>, p: PatternV) -> Seq<Seq<char>>
    decreases ls.len(),
{
    if ls.len() == 0 {
        Seq::empty()
    } else if fits(p, ls.last()) {
        not_fitting(ls.drop_last(), p)
    } else {
        not_fitting(ls.drop_last(), p).push(ls.last())
    }
}

/// A file without the lines that fit.
pub open spec fn without_lines(content: Seq<char>, p: PatternV) -> Seq<char> {
    text::joined(not_fitting(text::lines_of(content), p), "\n"@)
}

fn does_fit(p: &Pattern, line: &str) -> (r: bool)
    ensures
        r == fits(p@, line@),
{
    let t = trim(line);
    match p {
        Pattern::Starts(s) => starts_with(t.as_str(), s.as_str()),
        Pattern::Either(a, b) => same(t.as_str(), a.as_str()) || same(t.as_str(), b.as_str()),
    }
}

fn add_line(content: &str, line: &str) -> (r: String)
    ensures
        r@ == with_line(content@, line@),
{
    let mut out = owned(content);
    if content.unicode_len() > 0 && !ends_with_char(content, '\n') {
        out.push('\n');
    }
    out.append(line);
    out.push('\n');
    assert(out@ =~= with_line(content@, line@));
    out
}

fn set_line(content: &str, p: &Pattern, line: &str) -> (r: String)
    ensures
        r@ == with_line_set(content@, p@, line@),
{
    let ls = lines(content);
    let ghost all = text::texts(ls@);
    let mut out: Vec<String> = Vec::new();
    let mut any = false;
    let mut i: usize = 0;
    while i < ls.len()
        invariant
            i <= ls.len(),
            out.len() == i,
            all == text::texts(ls@),
            any == exists|k: int| 0 <= k < i && fits(p@, #[trigger] all[k]),
            forall|k: int|
                0 <= k < i ==> (#[trigger] out@[k])@ == (if fits(p@, all[k]) {
                    line@
                } else {
                    all[k]
                }),
        decreases ls.len() - i,
    {
        assert(all[i as int] == ls@[i as int]@);
        if does_fit(p, ls[i].as_str()) {
            any = true;
            out.push(owned(line));
        } else {
            out.push(ls[i].clone());
        }
        i += 1;
    }
    if !any {
        return add_line(content, line);
    }
    assert(text::texts(out@) =~= replaced(all, p@, line@));
    let mut s = join(&out, "\n");
    if !ends_with_char(s.as_str(), '\n') {
        s.push('\n');
    }
    s
}

fn remove_lines(content: &str, p: &Pattern) -> (r: String)
    ensures
        r@ == without_lines(content@, p@),
{
    let ls = lines(content);
    let ghost all = text::texts(ls@);
    let mut out: Vec<String> = Vec::new();
    let mut i: usize = 0;
    assert(all.take(0) =~= Seq::empty());
    assert(text::texts(out@) =~= Seq::empty());
    while i < ls.len()
        invariant
            i <= ls.len(),
            all == text::texts(ls@),
            text::texts(out@) == not_fitting(all.take(i as int), p@),
        decreases ls.len() - i,
    {
        broadcast use text::texts_push;

        assert(all.take(i + 1).drop_last() =~= all.take(i as int));
        assert(all.take(i + 1).last() == ls@[i as int]@);
        if !does_fit(p, ls[i].as_str()) {
            out.push(ls[i].clone());
        }
        i += 1;
    }
    assert(all.take(all.len() as int) =~= all);
    join(&out, "\n")
}

/// How the line that sets an alias starts.
pub open spec fn alias_start(name: Seq<char>) -> Seq<char> {
    "alias "@ + name + "="@
}

/// The line that sets an alias.
pub open spec fn alias_line(name: Seq<char>, value: Seq<char>) -> Seq<char> {
    alias_start(name) + quoted(value)
}

/// A file in which the alias is set.
pub open spec fn with_alias(content: Seq<char>, name: Seq<char>, value: Seq<char>) -> Seq<char> {
    with_line_set(content, PatternV::Starts(alias_start(name)), alias_line(name, value))
}

fn start_of_alias(name: &str) -> (r: String)
    ensures
        r@ == alias_start(name@),
{
    let mut s = owned("alias ");
    s.append(name);
    s.append("=");
    s
}

/// The line that sets an alias, as `alias` shows it.
pub fn show_alias(name: &str, value: &str) -> (r: String)
    ensures
        r@ == alias_line(name@, value@),
{
    let mut s = start_of_alias(name);
    s.append(shell_quote(value).as_str());
    s
}

/// What a file with this content is to hold so that the alias is set in it.
pub fn persist_alias(content: &str, name: &str, value: &str) -> (r: String)
    ensures
        r@ == with_alias(content@, name@, value@),
{
    let line = show_alias(name, value);
    set_line(content, &Pattern::Starts(start_of_alias(name)), line.as_str())
}

/// What a file with this content is to hold so that the alias is not set in it.
pub fn remove_alias_from_config(content: &str, name: &str) -> (r: String)
    ensures
        r@ == without_lines(content@, PatternV::Starts(alias_start(name@))),
{
    remove_lines(content, &Pattern::Starts(start_of_alias(name)))
}

/// What a file with this content is to hold so that no alias is set in it.
pub fn remove_aliases_from_config(content: &str) -> (r: String)
    ensures
        r@ == without_lines(content@, PatternV::Starts("alias "@)),
{
    remove_lines(content, &Pattern::Starts(owned("alias ")))
}

/// The line that adds a directory.
pub open spec fn path_line(dir: Seq<char>) -> Seq<char> {
    "path "@ + dir
}

/// What a file with this content is to hold so that the directory is added in
/// it, if it is not already.
pub fn persist_path_to_config(content: &str, dir: &str) -> (r: Option<String>)
    ensures
        shell::opt(r) == (if any_fits(
            PatternV::Either(path_line(dir@), path_line(dir@)),
            text::lines_of(content@),
        ) {
            None
        } else {
            Some(with_line(content@, path_line(dir@)))
        }),
{
    let mut line = owned("path ");
    line.append(dir);
    let p = Pattern::Either(line.clone(), line.clone());
    let ls = lines(content);
    let ghost all = text::texts(ls@);
    let mut i: usize = 0;
    while i < ls.len()
        invariant
            i <= ls.len(),
            all == text::texts(ls@),
            all == text::lines_of(content@),
            p@ == PatternV::Either(path_line(dir@), path_line(dir@)),
            forall|k: int| 0 <= k < i ==> !fits(p@, #[trigger] all[k]),
        decreases ls.len() - i,
    {
        assert(all[i as int] == ls@[i as int]@);
        if does_fit(&p, ls[i].as_str()) {
            return None;
        }
        i += 1;
    }
    Some(add_line(content, line.as_str()))
}

pub open spec fn on_off(enabled: bool) -> Seq<char> {
    if enabled {
        "on"@
    } else {
        "off"@
    }
}

/// The line that switches a setting on or off.
pub open spec fn switch_line(key: Seq<char>, enabled: bool) -> Seq<char> {
    key + " "@ + on_off(enabled)
}

/// A file in which a setting is switched on or off.
pub open spec fn with_switch(content: Seq<char>, key: Seq<char>, enabled: bool) -> Seq<char> {
    with_line_set(
        content,
        PatternV::Either(switch_line(key, true), switch_line(key, false)),
        switch_line(key, enabled),
    )
}

fn switch(key: &str, enabled: bool) -> (r: String)
    ensures
        r@ == switch_line(key@, enabled),
{
    let mut s = owned(key);
    s.append(" ");
    s.append(
        if enabled {
            "on"
        } else {
            "off"
        },
    );
    s
}

/// What a file with this content is to hold so that the setting is switched on
/// or off in it.
pub fn persist_bool_to_config(content: &str, key: &str, enabled: bool) -> (r: String)
    ensures
        r@ == with_switch(content@, key@, enabled),
{
    let line = switch(key, enabled);
    set_line(content, &Pattern::Either(switch(key, true), switch(key, false)), line.as_str())
}

pub fn persist_logging_to_config(content: &str, enabled: bool) -> (r: String)
    ensures
        r@ == with_switch(content@, "log"@, enabled),
{
    persist_bool_to_config(content, "log", enabled)
}

pub fn persist_shit_to_config(content: &str, enabled: bool) -> (r: String)
    ensures
        r@ == with_switch(content@, "shit"@, enabled),
{
    persist_bool_to_config(content, "shit", enabled)
}

pub fn persist_history_to_config(content: &str, enabled: bool) -> (r: String)
    ensures
        r@ == with_switch(content@, "history"@, enabled),
{
    persist_bool_to_config(content, "history", enabled)
}

pub fn persist_autosuggest_to_config(content: &str, enabled: bool) -> (r: String)
    ensures
        r@ == with_switch(content@, "auto-suggestion"@, enabled),
{
    persist_bool_to_config(content, "auto-suggestion", enabled)
}

} // verus!
