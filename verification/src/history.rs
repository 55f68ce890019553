//! The command lines that were entered before.

use vstd::prelude::*;
use vstd::string::*;

use crate::text;
use crate::text::{contains_char, holds, lines, same, starts_with, starts_with_char, trim, words};

verus! {

/// The command lines that were entered, the oldest first, and the place in them
/// that the arrow keys have gone to.
pub struct History {
    entries: Vec<String>,
    index: usize,
    saved: String,
    kept: bool,
}

#[verifier::ext_equal]
pub struct HistoryV {
    pub entries: Seq<Seq<char>>,
    /// The entry that is shown, or the number of entries where the line that
    /// is being written is shown.
    pub index: nat,
    /// The line that was being written when the arrow keys left it.
    pub saved: Seq<char>,
    /// Whether there is a file that the entries are kept in.
    pub kept: bool,
}

impl View for History {
    type V = HistoryV;

    closed spec fn view(&self) -> HistoryV {
        HistoryV {
            entries: text::texts(self.entries@),
            index: self.index as nat,
            saved: self.saved@,
            kept: self.kept,
        }
    }
}

/// What is to be done to the file that the entries are kept in.
pub enum HistoryUpdate {
    Unchanged,
    /// This is to be put at its end.
    Append(String),
    /// This is to be all that it holds.
    Rewrite(String),
}

pub enum HistoryUpdateV {
    Unchanged,
    Append(Seq<char>),
    Rewrite(Seq<char>),
}

impl View for HistoryUpdate {
    type V = HistoryUpdateV;

    open spec fn view(&self) -> HistoryUpdateV {
        match *self {
            HistoryUpdate::Unchanged => HistoryUpdateV::Unchanged,
            HistoryUpdate::Append(s) => HistoryUpdateV::Append(s@),
            HistoryUpdate::Rewrite(s) => HistoryUpdateV::Rewrite(s@),
        }
    }
}

/// The lines without white space around them, but for those that then are
/// empty.
pub open spec fn entries_in(ls: Seq<Seq<char>>) -> Seq<Seq<char>>
    decreases ls.len(),
{
    if ls.len() == 0 {
        Seq::empty()
    } else {
        let t = text::trimmed(ls.last());
        if t.len() == 0 {
            entries_in(ls.drop_last())
        } else {
            entries_in(ls.drop_last()).push(t)
        }
    }
}

/// The entries but for those that are `e`.
pub open spec fn without(entries: Seq<Seq<char>>, e: Seq<char>) -> Seq<Seq<char>>
    decreases entries.len(),
{
    if entries.len() == 0 {
        Seq::empty()
    } else if entries.last() == e {
        without(entries.drop_last(), e)
    } else {
        without(entries.drop_last(), e).push(entries.last())
    }
}

/// Whether adding `e` changes the entries: it is not empty, and not the newest
/// already.
pub open spec fn is_news(entries: Seq<Seq<char>>, e: Seq<char>) -> bool {
    e.len() > 0 && !(entries.len() > 0 && entries.last() == e)
}

/// The history after `line` was added: what stands in the line becomes the
/// newest entry, and stands in no other place.
pub open spec fn after_add(h: HistoryV, line: Seq<char>) -> HistoryV {
    let e = text::trimmed(line);
    if is_news(h.entries, e) {
        let entries = without(h.entries, e).push(e);
        HistoryV { entries, index: entries.len(), ..h }
    } else {
        h
    }
}

/// The entries as they stand in the file.
pub open spec fn written(entries: Seq<Seq<char>>) -> Seq<char>
    decreases entries.len(),
{
    if entries.len() == 0 {
        Seq::empty()
    } else {
        written(entries.drop_last()) + entries.last() + seq!['\n']
    }
}

/// What adding `line` does to the file.
pub open spec fn update_for(h: HistoryV, line: Seq<char>) -> HistoryUpdateV {
    let e = text::trimmed(line);
    if !h.kept || !is_news(h.entries, e) {
        HistoryUpdateV::Unchanged
    } else if h.entries.contains(e) {
        HistoryUpdateV::Rewrite(written(after_add(h, line).entries))
    } else {
        HistoryUpdateV::Append(e + seq!['\n'])
    }
}

/// One entry back, with `current` as the line that is shown.
pub open spec fn after_up(h: HistoryV, current: Seq<char>) -> HistoryV {
    if h.entries.len() == 0 {
        h
    } else {
        let saved = if h.index == h.entries.len() {
            current
        } else {
            h.saved
        };
        HistoryV {
            index: if h.index > 0 {
                (h.index - 1) as nat
            } else {
                0
            },
            saved,
            ..h
        }
    }
}

/// The line that is shown then, if another one is.
pub open spec fn shown_up(h: HistoryV) -> Option<Seq<char>> {
    if h.entries.len() == 0 || h.index == 0 {
        None
    } else {
        Some(h.entries[h.index - 1])
    }
}

/// One entry forward.
pub open spec fn after_down(h: HistoryV) -> HistoryV {
    if h.index < h.entries.len() {
        HistoryV {
            index: h.index + 1,
            saved: if h.index + 1 == h.entries.len() {
                Seq::empty()
            } else {
                h.saved
            },
            ..h
        }
    } else {
        h
    }
}

/// The line that is shown then, if another one is.
pub open spec fn shown_down(h: HistoryV) -> Option<Seq<char>> {
    if h.index >= h.entries.len() {
        None
    } else if h.index + 1 == h.entries.len() {
        Some(h.saved)
    } else {
        Some(h.entries[h.index as int + 1])
    }
}

/// Whether a word looks like the name of a file.
pub open spec fn file_like(w: Seq<char>) -> bool {
    !(w.len() > 0 && w[0] == '-') && (w.contains('/') || w.contains('.'))
}

/// The words that look like names of files.
pub open spec fn file_words(ws: Seq<Seq<char>>) -> Seq<Seq<char>>
    decreases ws.len(),
{
    if ws.len() == 0 {
        Seq::empty()
    } else if file_like(ws.last()) {
        file_words(ws.drop_last()).push(ws.last())
    } else {
        file_words(ws.drop_last())
    }
}

/// Whether an entry goes on where `prefix` ends.
pub open spec fn goes_on(entry: Seq<char>, prefix: Seq<char>) -> bool {
    text::begins(entry, prefix) && entry.len() > prefix.len()
}

/// What the entry has behind `prefix`.
pub open spec fn rest_of(entry: Seq<char>, prefix: Seq<char>) -> Seq<char> {
    entry.skip(prefix.len() as int)
}

/// Whether one of the words is among those that exist.
pub open spec fn any_exists(ws: Seq<Seq<char>>, existing: Seq<Seq<char>>) -> bool {
    exists|k: int| 0 <= k < ws.len() && existing.contains(#[trigger] ws[k])
}

/// Whether the rest of an entry can be suggested: if it names files, one of
/// them has to exist.
pub open spec fn usable(rest: Seq<char>, existing: Seq<Seq<char>>) -> bool {
    let fs = file_words(text::words_of(rest));
    fs.len() == 0 || any_exists(fs, existing)
}

/// What the newest of the entries that fit has behind `prefix`. `existing` are
/// the names of the files that exist.
pub open spec fn suggested(
    entries: Seq<Seq<char>>,
    prefix: Seq<char>,
    existing: Seq<Seq<char>>,
) -> Option<Seq<char>>
    decreases entries.len(),
{
    if entries.len() == 0 {
        None
    } else {
        let e = entries.last();
        if goes_on(e, prefix) && usable(rest_of(e, prefix), existing) {
            Some(rest_of(e, prefix))
        } else {
            suggested(entries.drop_last(), prefix, existing)
        }
    }
}

/// The names of files that a suggestion may depend on.
pub open spec fn files_asked(entries: Seq<Seq<char>>, prefix: Seq<char>) -> Seq<Seq<char>>
    decreases entries.len(),
{
    if entries.len() == 0 {
        Seq::empty()
    } else {
        let e = entries.last();
        if goes_on(e, prefix) {
            file_words(text::words_of(rest_of(e, prefix))) + files_asked(
                entries.drop_last(),
                prefix,
            )
        } else {
            files_asked(entries.drop_last(), prefix)
        }
    }
}

fn is_file_like(w: &str) -> (r: bool)
    ensures
        r == file_like(w@),
{
    !starts_with_char(w, '-') && (contains_char(w, '/') || contains_char(w, '.'))
}

fn file_words_in(rest: &str) -> (r: Vec<String>)
    ensures
        text::texts(r@) == file_words(text::words_of(rest@)),
{
    let ws = words(rest);
    let mut r: Vec<String> = Vec::new();
    let mut i: usize = 0;
    let ghost all = text::texts(ws@);
    assert(all.take(0) =~= Seq::empty());
    assert(text::texts(r@) =~= Seq::empty());
    while i < ws.len()
        invariant
            i <= ws.len(),
            all == text::texts(ws@),
            text::texts(r@) == file_words(all.take(i as int)),
        decreases ws.len() - i,
    {
        broadcast use text::texts_push;

        assert(all.take(i + 1).drop_last() =~= all.take(i as int));
        assert(all.take(i + 1).last() == ws@[i as int]@);
        if is_file_like(ws[i].as_str()) {
            r.push(ws[i].clone());
        }
        i += 1;
    }
    assert(all.take(all.len() as int) =~= all);
    r
}

fn is_usable(rest: &str, existing: &Vec<String>) -> (r: bool)
    ensures
        r == usable(rest@, text::texts(existing@)),
{
    let fs = file_words_in(rest);
    let ghost all = text::texts(fs@);
    assert(all.len() == fs.len());
    if fs.len() == 0 {
        return true;
    }
    let mut i: usize = 0;
    while i < fs.len()
        invariant
            i <= fs.len(),
            fs.len() > 0,
            all == text::texts(fs@),
            all == file_words(text::words_of(rest@)),
            forall|k: int| 0 <= k < i ==> !text::texts(existing@).contains(#[trigger] all[k]),
        decreases fs.len() - i,
    {
        assert(all[i as int] == fs@[i as int]@);
        if holds(existing, fs[i].as_str()) {
            assert(any_exists(all, text::texts(existing@)));
            return true;
        }
        i += 1;
    }
    false
}

impl History {
    #[verifier::type_invariant]
    pub closed spec fn wf(&self) -> bool {
        self.index <= self.entries.len()
    }

    /// No entries, and no file.
    pub fn empty() -> (r: History)
        ensures
            r@ == (HistoryV {
                entries: Seq::empty(),
                index: 0,
                saved: Seq::empty(),
                kept: false,
            }),
    {
        let r = History {
            entries: Vec::new(),
            index: 0,
            saved: String::new(),
            kept: false,
        };
        assert(text::texts(r.entries@) =~= Seq::empty());
        r
    }

    /// The entries that the file holds, which may not be there.
    pub fn new(content: Option<&str>) -> (r: History)
        ensures
            r@ == ({
                let entries = match content {
                    Some(c) => entries_in(text::lines_of(c@)),
                    None => Seq::empty(),
                };
                HistoryV { entries, index: entries.len(), saved: Seq::empty(), kept: true }
            }),
    {
        let mut entries: Vec<String> = Vec::new();
        assert(text::texts(entries@) =~= Seq::empty());
        if let Some(c) = content {
            let ls = lines(c);
            let mut i: usize = 0;
            let ghost all = text::texts(ls@);
            assert(all.take(0) =~= Seq::empty());
            while i < ls.len()
                invariant
                    i <= ls.len(),
                    all == text::texts(ls@),
                    text::texts(entries@) == entries_in(all.take(i as int)),
                decreases ls.len() - i,
            {
                broadcast use text::texts_push;

                assert(all.take(i + 1).drop_last() =~= all.take(i as int));
                assert(all.take(i + 1).last() == ls@[i as int]@);
                let t = trim(ls[i].as_str());
                if t.as_str().unicode_len() > 0 {
                    entries.push(t);
                }
                i += 1;
            }
            assert(all.take(all.len() as int) =~= all);
        }
        let index = entries.len();
        let r = History { entries, index, saved: String::new(), kept: true };
        assert(text::texts(r.entries@).len() == index);
        r
    }

    /// Makes what stands in `entry` the newest entry, and says what that does to
    /// the file.
    pub fn add(&mut self, entry: &str) -> (r: HistoryUpdate)
        ensures
            final(self)@ == after_add(old(self)@, entry@),
            r@ == update_for(old(self)@, entry@),
    {
        proof {
            use_type_invariant(&*self);
        }
        let e = trim(entry);
        let ghost before = text::texts(self.entries@);
        assert(before.len() == self.entries.len());
        if e.as_str().unicode_len() == 0 {
            return HistoryUpdate::Unchanged;
        }
        if self.entries.len() > 0 {
            let last = self.entries.len() - 1;
            assert(before.last() == self.entries@[last as int]@);
            if same(self.entries[last].as_str(), e.as_str()) {
                return HistoryUpdate::Unchanged;
            }
        }
        let existed_before = holds(&self.entries, e.as_str());
        let mut entries: Vec<String> = Vec::new();
        let mut content = String::new();
        let mut i: usize = 0;
        assert(before.take(0) =~= Seq::empty());
        assert(text::texts(entries@) =~= Seq::empty());
        assert(content@ =~= Seq::empty());
        while i < self.entries.len()
            invariant
                i <= self.entries.len(),
                before == text::texts(self.entries@),
                text::texts(entries@) == without(before.take(i as int), e@),
                content@ == written(text::texts(entries@)),
            decreases self.entries.len() - i,
        {
            broadcast use text::texts_push;

            assert(before.take(i + 1).drop_last() =~= before.take(i as int));
            assert(before.take(i + 1).last() == self.entries@[i as int]@);
            if !same(self.entries[i].as_str(), e.as_str()) {
                let ghost front = text::texts(entries@);
                let w = self.entries[i].clone();
                let ghost wv = w@;
                content.append(w.as_str());
                content.push('\n');
                entries.push(w);
                assert(text::texts(entries@).drop_last() =~= front);
                assert(content@ =~= written(front) + wv + seq!['\n']);
            }
            i += 1;
        }
        assert(before.take(before.len() as int) =~= before);
        let ghost front = text::texts(entries@);
        content.append(e.as_str());
        content.push('\n');
        let mut appended = e.clone();
        appended.push('\n');
        assert(appended@ =~= e@ + seq!['\n']);
        entries.push(e);
        assert(text::texts(entries@) =~= front.push(e@));
        assert(text::texts(entries@).drop_last() =~= front);
        assert(content@ =~= written(front) + e@ + seq!['\n']);
        let index = entries.len();
        let saved = self.saved.clone();
        let kept = self.kept;
        *self = History { entries, index, saved, kept };
        assert(self@ =~= after_add(old(self)@, entry@));
        if !kept {
            HistoryUpdate::Unchanged
        } else if existed_before {
            HistoryUpdate::Rewrite(content)
        } else {
            HistoryUpdate::Append(appended)
        }
    }

    /// Goes one entry back.
    pub fn up(&mut self, current: &str) -> (r: Option<String>)
        ensures
            final(self)@ == after_up(old(self)@, current@),
            crate::shell::opt(r) == shown_up(old(self)@),
    {
        proof {
            use_type_invariant(&*self);
        }
        let ghost all = text::texts(self.entries@);
        assert(all.len() == self.entries.len());
        if self.entries.len() == 0 {
            return None;
        }
        let entries = text::copies(&self.entries);
        let mut saved = self.saved.clone();
        if self.index == self.entries.len() {
            saved = text::owned(current);
        }
        let kept = self.kept;
        if self.index > 0 {
            let index = self.index - 1;
            let line = self.entries[index].clone();
            *self = History { entries, index, saved, kept };
            Some(line)
        } else {
            *self = History { entries, index: 0, saved, kept };
            None
        }
    }

    /// Goes one entry forward.
    pub fn down(&mut self) -> (r: Option<String>)
        ensures
            final(self)@ == after_down(old(self)@),
            crate::shell::opt(r) == shown_down(old(self)@),
    {
        proof {
            use_type_invariant(&*self);
        }
        let ghost all = text::texts(self.entries@);
        assert(all.len() == self.entries.len());
        if self.index >= self.entries.len() {
            return None;
        }
        let entries = text::copies(&self.entries);
        let index = self.index + 1;
        let kept = self.kept;
        if index == self.entries.len() {
            let line = self.saved.clone();
            *self = History { entries, index, saved: String::new(), kept };
            assert(self@ =~= after_down(old(self)@));
            Some(line)
        } else {
            let line = self.entries[index].clone();
            let saved = self.saved.clone();
            *self = History { entries, index, saved, kept };
            Some(line)
        }
    }

    /// What the newest entry that fits has behind `prefix`. `existing` are the
    /// names, of those that `suggestion_files` asks for, of files that exist.
    pub fn suggestion(&self, prefix: &str, existing: &Vec<String>) -> (r: Option<String>)
        ensures
            crate::shell::opt(r) == suggested(self@.entries, prefix@, text::texts(existing@)),
    {
        let mut i: usize = self.entries.len();
        let ghost all = text::texts(self.entries@);
        assert(all.take(i as int) =~= all);
        while i > 0
            invariant
                i <= self.entries.len(),
                all == text::texts(self.entries@),
                suggested(all.take(i as int), prefix@, text::texts(existing@)) == suggested(
                    all,
                    prefix@,
                    text::texts(existing@),
                ),
            decreases i,
        {
            i -= 1;
            assert(all.take(i + 1).drop_last() =~= all.take(i as int));
            assert(all.take(i + 1).last() == self.entries@[i as int]@);
            let entry = self.entries[i].as_str();
            let n = prefix.unicode_len();
            if starts_with(entry, prefix) && entry.unicode_len() > n {
                let rest = text::skip(entry, n);
                if is_usable(rest.as_str(), existing) {
                    return Some(rest);
                }
            }
        }
        None
    }

    /// The names of files that a suggestion for `prefix` may depend on.
    pub fn suggestion_files(&self, prefix: &str) -> (r: Vec<String>)
        ensures
            text::texts(r@) == files_asked(self@.entries, prefix@),
    {
        let mut r: Vec<String> = Vec::new();
        let mut i: usize = self.entries.len();
        let ghost all = text::texts(self.entries@);
        assert(all.take(i as int) =~= all);
        assert(text::texts(r@) + files_asked(all, prefix@) =~= files_asked(all, prefix@));
        while i > 0
            invariant
                i <= self.entries.len(),
                all == text::texts(self.entries@),
                text::texts(r@) + files_asked(all.take(i as int), prefix@) == files_asked(
                    all,
                    prefix@,
                ),
            decreases i,
        {
            broadcast use text::texts_add;

            i -= 1;
            let ghost before = text::texts(r@);
            assert(all.take(i + 1).drop_last() =~= all.take(i as int));
            assert(all.take(i + 1).last() == self.entries@[i as int]@);
            let entry = self.entries[i].as_str();
            let n = prefix.unicode_len();
            if starts_with(entry, prefix) && entry.unicode_len() > n {
                let rest = text::skip(entry, n);
                let mut these = file_words_in(rest.as_str());
                r.append(&mut these);
                assert(text::texts(r@) + files_asked(all.take(i as int), prefix@) =~= before
                    + files_asked(all.take(i + 1), prefix@));
            }
        }
        assert(text::texts(r@) =~= files_asked(all, prefix@));
        r
    }
}

// ---------------------------------------------------------------------------
// What holds of all histories
// ---------------------------------------------------------------------------

proof fn lemma_without(entries: Seq<Seq<char>>, e: Seq<char>)
    ensures
        !without(entries, e).contains(e),
        forall|x: Seq<char>|
            x != e ==> (without(entries, e).contains(x) == #[trigger] entries.contains(x)),
        entries.no_duplicates() ==> without(entries, e).no_duplicates(),
    decreases entries.len(),
{
    if entries.len() > 0 {
        let front = entries.drop_last();
        let w = without(front, e);
        let r = without(entries, e);
        lemma_without(front, e);
        assert forall|x: Seq<char>| x != e implies r.contains(x) == #[trigger] entries.contains(
            x,
        ) by {
            assert(w.contains(x) == front.contains(x));
            if entries.contains(x) {
                let i = entries.index_of(x);
                if i < front.len() {
                    assert(front[i] == x);
                    let j = w.index_of(x);
                    assert(r[j] == x);
                } else {
                    assert(r[w.len() as int] == x);
                }
            }
            if r.contains(x) {
                let i = r.index_of(x);
                if i < w.len() {
                    assert(w[i] == x);
                    let j = front.index_of(x);
                    assert(entries[j] == x);
                } else {
                    assert(entries[entries.len() - 1] == x);
                }
            }
        }
        if r.contains(e) {
            let i = r.index_of(e);
            assert(i < w.len());
            assert(w[i] == e);
        }
        if entries.no_duplicates() {
            assert(front.no_duplicates());
            if entries.last() != e {
                assert(!front.contains(entries.last())) by {
                    if front.contains(entries.last()) {
                        let i = front.index_of(entries.last());
                        assert(entries[i] == entries[entries.len() - 1]);
                    }
                }
                assert(!w.contains(entries.last()));
                assert(r.no_duplicates());
            }
        }
    }
}

/// What is added becomes the newest entry and stands once; all others stay, and
/// nothing else comes in. The arrow keys start again behind the newest.
pub proof fn law_added_entry_is_newest(h: HistoryV, line: Seq<char>)
    requires
        text::trimmed(line).len() > 0,
        h.index <= h.entries.len(),
    ensures
        ({
            let e = text::trimmed(line);
            let now = after_add(h, line);
            &&& now.entries.len() > 0
            &&& now.entries.last() == e
            &&& forall|x: Seq<char>|
                x != e ==> (now.entries.contains(x) == #[trigger] h.entries.contains(x))
            &&& is_news(h.entries, e) ==> !now.entries.drop_last().contains(e) && now.index
                == now.entries.len()
            &&& h.entries.no_duplicates() ==> now.entries.no_duplicates()
        }),
{
    let e = text::trimmed(line);
    let now = after_add(h, line);
    lemma_without(h.entries, e);
    if is_news(h.entries, e) {
        let w = without(h.entries, e);
        assert(now.entries.drop_last() =~= w);
        assert forall|x: Seq<char>| x != e implies now.entries.contains(x)
            == #[trigger] h.entries.contains(x) by {
            if w.contains(x) {
                let i = w.index_of(x);
                assert(now.entries[i] == x);
            }
            if now.entries.contains(x) {
                let i = now.entries.index_of(x);
                assert(w[i] == x);
            }
        }
    }
}

/// Where entries are not kept in a file, none is ever changed.
pub proof fn law_nothing_is_written_without_a_file(h: HistoryV, line: Seq<char>)
    requires
        !h.kept,
    ensures
        update_for(h, line) == HistoryUpdateV::Unchanged,
        !after_add(h, line).kept,
{
}

/// Adding the same line twice in a row is adding it once.
pub proof fn law_adding_twice_is_adding_once(h: HistoryV, line: Seq<char>)
    ensures
        after_add(after_add(h, line), line) == after_add(h, line),
        update_for(after_add(h, line), line) == HistoryUpdateV::Unchanged,
{
}

/// Going back and then forward shows the line that was being written.
pub proof fn law_down_undoes_up(h: HistoryV, current: Seq<char>)
    requires
        h.entries.len() > 0,
        h.index == h.entries.len(),
    ensures
        shown_up(h) == Some(h.entries.last()),
        shown_down(after_up(h, current)) == Some(current),
        after_down(after_up(h, current)).index == h.index,
        after_down(after_up(h, current)).entries == h.entries,
{
}

/// Between two entries, going back and then forward shows the same entry again.
pub proof fn law_down_undoes_up_between(h: HistoryV, current: Seq<char>)
    requires
        0 < h.index < h.entries.len(),
    ensures
        after_down(after_up(h, current)) == h,
        shown_down(after_up(h, current)) == Some(h.entries[h.index as int]),
{
}

/// A suggestion carries on an entry: put behind what was typed, it is one.
pub proof fn law_suggestion_completes_an_entry(
    entries: Seq<Seq<char>>,
    prefix: Seq<char>,
    existing: Seq<Seq<char>>,
)
    ensures
        suggested(entries, prefix, existing) matches Some(rest) ==> rest.len() > 0
            && entries.contains(prefix + rest),
    decreases entries.len(),
{
    if entries.len() > 0 {
        let e = entries.last();
        if goes_on(e, prefix) && usable(rest_of(e, prefix), existing) {
            assert(prefix + rest_of(e, prefix) =~= e);
            assert(entries[entries.len() - 1] == e);
        } else {
            law_suggestion_completes_an_entry(entries.drop_last(), prefix, existing);
            if let Some(rest) = suggested(entries.drop_last(), prefix, existing) {
                let i = entries.drop_last().index_of(prefix + rest);
                assert(entries[i] == prefix + rest);
            }
        }
    }
}

/// Only the files that are asked for matter to a suggestion.
pub proof fn law_only_asked_files_matter(
    entries: Seq<Seq<char>>,
    prefix: Seq<char>,
    a: Seq<Seq<char>>,
    b: Seq<Seq<char>>,
)
    requires
        forall|w: Seq<char>|
            files_asked(entries, prefix).contains(w) ==> (#[trigger] a.contains(w) == b.contains(
                w,
            )),
    ensures
        suggested(entries, prefix, a) == suggested(entries, prefix, b),
    decreases entries.len(),
{
    if entries.len() > 0 {
        let e = entries.last();
        let front = entries.drop_last();
        let asked = files_asked(entries, prefix);
        let later = files_asked(front, prefix);
        if goes_on(e, prefix) {
            let fs = file_words(text::words_of(rest_of(e, prefix)));
            assert forall|k: int| 0 <= k < fs.len() implies a.contains(#[trigger] fs[k])
                == b.contains(fs[k]) by {
                assert(asked[k] == fs[k]);
                assert(asked.contains(fs[k]));
            }
            if any_exists(fs, a) {
                let k = choose|k: int| 0 <= k < fs.len() && a.contains(#[trigger] fs[k]);
                assert(b.contains(fs[k]));
            }
            if any_exists(fs, b) {
                let k = choose|k: int| 0 <= k < fs.len() && b.contains(#[trigger] fs[k]);
                assert(a.contains(fs[k]));
            }
            assert(any_exists(fs, a) == any_exists(fs, b));
            assert forall|w: Seq<char>| later.contains(w) implies #[trigger] a.contains(w)
                == b.contains(w) by {
                let i = later.index_of(w);
                assert(asked[fs.len() as int + i] == w);
                assert(asked.contains(w));
            }
            law_only_asked_files_matter(front, prefix, a, b);
        } else {
            law_only_asked_files_matter(front, prefix, a, b);
        }
    }
}

/// Whether an entry takes one line of the file and stays as it is when that is
/// read: it is not empty, has no white space around it and no line feed in it.
pub open spec fn one_line(e: Seq<char>) -> bool {
    e.len() > 0 && text::trimmed(e) == e && !e.contains('\n')
}

/// The file that the entries are written to holds the same entries when it is
/// read.
pub proof fn law_written_entries_are_read_back(entries: Seq<Seq<char>>)
    requires
        forall|k: int| 0 <= k < entries.len() ==> one_line(#[trigger] entries[k]),
    ensures
        entries_in(text::lines_of(written(entries))) == entries,
{
    lemma_written_lines(entries);
    lemma_entries_in(entries);
}

proof fn lemma_written_lines(entries: Seq<Seq<char>>)
    requires
        forall|k: int| 0 <= k < entries.len() ==> one_line(#[trigger] entries[k]),
    ensures
        written(entries).len() == 0 || written(entries).last() == '\n',
        text::lines_of(written(entries)) == entries,
    decreases entries.len(),
{
    if entries.len() == 0 {
        assert(entries =~= Seq::empty());
    } else {
        let front = entries.drop_last();
        let e = entries.last();
        assert(one_line(entries[entries.len() - 1]));
        assert forall|k: int| 0 <= k < front.len() implies one_line(#[trigger] front[k]) by {
            assert(front[k] == entries[k]);
        }
        lemma_written_lines(front);
        assert(written(entries) =~= written(front) + e.push('\n'));
        text::lemma_lines_append(written(front), e.push('\n'));
        text::lemma_one_line(e);
        lemma_trimmed_end_char(e);
        assert(text::without_return(e) == e);
        assert(front + seq![e] =~= entries);
    }
}

proof fn lemma_trimmed_end_char(e: Seq<char>)
    requires
        text::trimmed(e) == e,
        e.len() > 0,
    ensures
        !text::white_space(e.last()),
{
    let t = text::trimmed_start(e);
    lemma_trims_shorten(e);
    lemma_trim_ends(t);
}

proof fn lemma_trims_shorten(s: Seq<char>)
    ensures
        text::trimmed_start(s).len() <= s.len(),
    decreases s.len(),
{
    if s.len() > 0 && text::white_space(s[0]) {
        lemma_trims_shorten(s.drop_first());
    }
}

proof fn lemma_trim_ends(s: Seq<char>)
    ensures
        text::trimmed_end(s).len() > 0 ==> !text::white_space(text::trimmed_end(s).last()),
    decreases s.len(),
{
    if s.len() > 0 && text::white_space(s.last()) {
        lemma_trim_ends(s.drop_last());
    }
}

proof fn lemma_entries_in(entries: Seq<Seq<char>>)
    requires
        forall|k: int| 0 <= k < entries.len() ==> one_line(#[trigger] entries[k]),
    ensures
        entries_in(entries) == entries,
    decreases entries.len(),
{
    if entries.len() > 0 {
        assert(one_line(entries[entries.len() - 1]));
        let front = entries.drop_last();
        assert forall|k: int| 0 <= k < front.len() implies one_line(#[trigger] front[k]) by {
            assert(front[k] == entries[k]);
        }
        lemma_entries_in(front);
        assert(front.push(entries.last()) =~= entries);
    } else {
        assert(entries =~= Seq::empty());
    }
}

/// Whatever is done to the file, it then holds the entries, if it held them
/// before.
pub proof fn law_file_follows_entries(h: HistoryV, line: Seq<char>)
    requires
        h.kept,
    ensures
        match update_for(h, line) {
            HistoryUpdateV::Unchanged => after_add(h, line).entries == h.entries,
            HistoryUpdateV::Append(t) => written(h.entries) + t == written(
                after_add(h, line).entries,
            ),
            HistoryUpdateV::Rewrite(t) => t == written(after_add(h, line).entries),
        },
{
    let e = text::trimmed(line);
    if update_for(h, line) is Append {
        lemma_without_absent(h.entries, e);
        assert(h.entries.push(e).drop_last() =~= h.entries);
        assert(written(h.entries) + (e + seq!['\n']) =~= written(h.entries) + e + seq!['\n']);
    }
}

proof fn lemma_without_absent(entries: Seq<Seq<char>>, e: Seq<char>)
    requires
        !entries.contains(e),
    ensures
        without(entries, e) == entries,
    decreases entries.len(),
{
    if entries.len() > 0 {
        let front = entries.drop_last();
        assert(entries[entries.len() - 1] != e);
        assert(!front.contains(e)) by {
            if front.contains(e) {
                let i = front.index_of(e);
                assert(entries[i] == e);
            }
        }
        lemma_without_absent(front, e);
        assert(front.push(entries.last()) =~= entries);
    } else {
        assert(entries =~= Seq::empty());
    }
}

} // verus!
