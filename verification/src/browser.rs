//! The rules of the note browser: which notes a search shows, and what a
//! key press does to the selection and the search line. Drawing and reading
//! keys is left to the program around it.

use crate::notes::{lines_of, MetaView, NoteMeta};
use vstd::prelude::*;

verus! {

/// What the browser remembers between two key presses.
#[derive(Debug, Clone, PartialEq, Eq)]
pub struct AppState {
    /// The index of the selected line among the lines shown.
    pub selected: usize,
    /// The search text.
    pub search: String,
    /// Whether key presses go to the search text.
    pub in_search: bool,
}

/// A key press, as far as the browser tells keys apart.
#[derive(Debug, Clone, Copy, PartialEq, Eq)]
pub enum Input {
    Escape,
    Enter,
    Backspace,
    Char(char),
    Up,
    Down,
    Other,
}

/// What the program does after a key press.
#[derive(Debug, Clone, Copy, PartialEq, Eq)]
pub enum Step {
    Continue,
    Quit,
}

/// The content of the browser's state.
pub struct StateView {
    pub selected: nat,
    pub search: Seq<char>,
    pub in_search: bool,
}

impl View for AppState {
    type V = StateView;

    open spec fn view(&self) -> StateView {
        StateView {
            selected: self.selected as nat,
            search: self.search@,
            in_search: self.in_search,
        }
    }
}

/// The text that `str::to_lowercase` makes of a text.
pub uninterp spec fn lowercase(text: Seq<char>) -> Seq<char>;

/// Whether `needle` stands somewhere in `text`, character by character.
pub open spec fn found_in(text: Seq<char>, needle: Seq<char>) -> bool {
    exists|i: int|
        0 <= i <= text.len() - needle.len() && #[trigger] text.subrange(i, i + needle.len())
            == needle
}

/// Whether a line has `needle` in its title or in one of its tags, capitals
/// and small letters taken as the same. `needle` is in small letters.
pub open spec fn hit(line: MetaView, needle: Seq<char>) -> bool {
    ||| found_in(lowercase(line.title), needle)
    ||| exists|t: int|
        0 <= t < line.tags.len() && found_in(lowercase(#[trigger] line.tags[t]), needle)
}

/// The lines that a search shows: all of them for an empty search, else
/// those that the search text hits, in their order.
pub open spec fn visible(lines: Seq<MetaView>, search: Seq<char>) -> Seq<MetaView> {
    if search.len() == 0 {
        lines
    } else {
        lines.filter(|line: MetaView| hit(line, lowercase(search)))
    }
}

/// The state after a key press, and whether the program goes on. `shown` is
/// the number of lines that the search shows, where the list of notes could
/// be had.
///
/// While the search line is open, a character goes to the end of the search
/// text and the backspace key takes the last one off; escape and enter close
/// the line and pull the selection back onto the last line shown. Otherwise
/// `q` quits, `/` opens an empty search line, and the arrows, or `k` and
/// `j`, move the selection up and down within the lines shown.
pub open spec fn after(state: StateView, input: Input, shown: Option<nat>) -> (StateView, Step) {
    if state.in_search {
        match input {
            Input::Escape | Input::Enter => (
                StateView {
                    selected: match shown {
                        Some(n) if n > 0 && state.selected >= n => (n - 1) as nat,
                        _ => state.selected,
                    },
                    search: state.search,
                    in_search: false,
                },
                Step::Continue,
            ),
            Input::Backspace => (
                StateView {
                    selected: state.selected,
                    search: if state.search.len() > 0 {
                        state.search.drop_last()
                    } else {
                        state.search
                    },
                    in_search: true,
                },
                Step::Continue,
            ),
            Input::Char(c) => (
                StateView {
                    selected: state.selected,
                    search: state.search.push(c),
                    in_search: true,
                },
                Step::Continue,
            ),
            _ => (state, Step::Continue),
        }
    } else {
        if input == Input::Char('q') {
            (state, Step::Quit)
        } else if input == Input::Char('/') {
            (
                StateView { selected: state.selected, search: Seq::empty(), in_search: true },
                Step::Continue,
            )
        } else if input == Input::Up || input == Input::Char('k') {
            (
                StateView {
                    selected: if state.selected > 0 {
                        (state.selected - 1) as nat
                    } else {
                        state.selected
                    },
                    search: state.search,
                    in_search: false,
                },
                Step::Continue,
            )
        } else if input == Input::Down || input == Input::Char('j') {
            (
                StateView {
                    selected: match shown {
                        Some(n) if state.selected + 1 < n => state.selected + 1,
                        _ => state.selected,
                    },
                    search: state.search,
                    in_search: false,
                },
                Step::Continue,
            )
        } else {
            (state, Step::Continue)
        }
    }
}

/// Calls `str::to_lowercase`.
///
/// Trusted: the result depends on the text alone; `lowercase` is its name.
#[verifier::external_body]
fn to_lowercase(text: &str) -> (lower: String)
    ensures
        lower@ == lowercase(text@),
{
    text.to_lowercase()
}

/// Calls `str::contains` with a text as the pattern.
///
/// Trusted: the call says whether the pattern stands somewhere in the text.
#[verifier::external_body]
fn contains(text: &str, needle: &str) -> (found: bool)
    ensures
        found == found_in(text@, needle@),
{
    text.contains(needle)
}

/// Calls `String::push`.
///
/// Trusted: the character is put behind the last one.
#[verifier::external_body]
fn push_char(text: &mut String, c: char)
    ensures
        final(text)@ == old(text)@.push(c),
{
    text.push(c)
}

/// Calls `String::pop`.
///
/// Trusted: the last character is taken off and handed out; of an empty
/// text nothing is taken.
#[verifier::external_body]
fn pop_char(text: &mut String) -> (last: Option<char>)
    ensures
        old(text)@.len() > 0 ==> last == Some(old(text)@.last()) && final(text)@ == old(
            text,
        )@.drop_last(),
        old(text)@.len() == 0 ==> last.is_none() && final(text)@ == old(text)@,
{
    text.pop()
}

impl AppState {
    /// The state in which the browser starts: the first line selected, no
    /// search.
    pub fn new() -> (state: AppState)
        ensures
            state@ == (StateView { selected: 0, search: Seq::empty(), in_search: false }),
    {
        AppState { selected: 0, search: String::new(), in_search: false }
    }

    /// Takes a key press. `shown` is the number of lines that the search
    /// shows at this moment, where the list of notes could be had.
    pub fn handle_key(&mut self, input: Input, shown: Option<usize>) -> (step: Step)
        ensures
            (final(self)@, step) == after(
                old(self)@,
                input,
                match shown {
                    Some(n) => Some(n as nat),
                    None => None,
                },
            ),
    {
        if self.in_search {
            match input {
                Input::Escape | Input::Enter => {
                    self.in_search = false;
                    match shown {
                        Some(n) => {
                            if n > 0 && self.selected >= n {
                                self.selected = n - 1;
                            }
                        },
                        None => {},
                    }
                },
                Input::Backspace => {
                    let _ = pop_char(&mut self.search);
                },
                Input::Char(c) => {
                    push_char(&mut self.search, c);
                },
                _ => {},
            }
            Step::Continue
        } else {
            match input {
                Input::Char('q') => Step::Quit,
                Input::Char('/') => {
                    self.in_search = true;
                    self.search = String::new();
                    Step::Continue
                },
                Input::Up | Input::Char('k') => {
                    if self.selected > 0 {
                        self.selected = self.selected - 1;
                    }
                    Step::Continue
                },
                Input::Down | Input::Char('j') => {
                    match shown {
                        Some(n) => {
                            if n > 0 && self.selected < n - 1 {
                                self.selected = self.selected + 1;
                            }
                        },
                        None => {},
                    }
                    Step::Continue
                },
                _ => Step::Continue,
            }
        }
    }
}

/// A second run of texts with the same content.
fn duplicate_texts(texts: &Vec<String>) -> (copy: Vec<String>)
    ensures
        copy.deep_view() == texts.deep_view(),
{
    let mut copy: Vec<String> = Vec::new();
    let mut i: usize = 0;
    while i < texts.len()
        invariant
            i <= texts.len(),
            copy@.len() == i,
            forall|j: int| 0 <= j < i ==> copy@[j]@ == texts@[j]@,
        decreases texts.len() - i,
    {
        copy.push(texts[i].clone());
        i = i + 1;
    }
    assert(copy.deep_view() =~= texts.deep_view());
    copy
}

impl NoteMeta {
    /// A second line with the same content.
    pub fn duplicate(&self) -> (copy: NoteMeta)
        ensures
            copy@ == self@,
    {
        NoteMeta {
            id: self.id,
            title: self.title.clone(),
            updated_at: self.updated_at,
            tags: duplicate_texts(&self.tags),
        }
    }

    /// Whether the line has `needle` in its title or in one of its tags,
    /// capitals and small letters taken as the same. `needle` is in small
    /// letters.
    pub fn is_hit(&self, needle: &str) -> (found: bool)
        ensures
            found == hit(self@, needle@),
    {
        if contains(to_lowercase(self.title.as_str()).as_str(), needle) {
            return true;
        }
        let mut t: usize = 0;
        while t < self.tags.len()
            invariant
                t <= self.tags.len(),
                !found_in(lowercase(self@.title), needle@),
                forall|j: int|
                    0 <= j < t ==> !found_in(lowercase(#[trigger] self@.tags[j]), needle@),
            decreases self.tags.len() - t,
        {
            if contains(to_lowercase(self.tags[t].as_str()).as_str(), needle) {
                assert(found_in(lowercase(self@.tags[t as int]), needle@));
                return true;
            }
            t = t + 1;
        }
        false
    }
}

/// The lines that a search shows.
pub fn visible_metas(metas: &Vec<NoteMeta>, search: &str) -> (shown: Vec<NoteMeta>)
    ensures
        lines_of(shown@) == visible(lines_of(metas@), search@),
{
    let ghost lines = lines_of(metas@);
    let all = search.is_empty();
    let needle = to_lowercase(search);
    let ghost wanted = |line: MetaView| hit(line, lowercase(search@));
    let mut shown: Vec<NoteMeta> = Vec::new();
    let mut i: usize = 0;
    proof {
        reveal(Seq::filter);
        assert(lines.take(0) =~= Seq::<MetaView>::empty());
        assert(lines_of(shown@) =~= Seq::<MetaView>::empty());
    }
    while i < metas.len()
        invariant
            i <= metas.len(),
            lines == lines_of(metas@),
            all == (search@.len() == 0),
            needle@ == lowercase(search@),
            wanted == (|line: MetaView| hit(line, lowercase(search@))),
            lines_of(shown@) == if all {
                lines.take(i as int)
            } else {
                lines.take(i as int).filter(wanted)
            },
        decreases metas.len() - i,
    {
        let ghost before = lines_of(shown@);
        proof {
            reveal(Seq::filter);
            assert(lines.take(i + 1).drop_last() =~= lines.take(i as int));
            assert(lines.take(i + 1).last() == metas@[i as int]@);
        }
        if all || metas[i].is_hit(needle.as_str()) {
            shown.push(metas[i].duplicate());
            assert(lines_of(shown@) =~= before.push(metas@[i as int]@));
            assert(lines.take(i + 1) =~= lines.take(i as int).push(metas@[i as int]@));
        }
        i = i + 1;
    }
    assert(lines.take(i as int) =~= lines);
    shown
}

/// The number of lines that a search shows.
pub fn visible_count(metas: &Vec<NoteMeta>, search: &str) -> (count: usize)
    ensures
        count == visible(lines_of(metas@), search@).len(),
{
    let ghost lines = lines_of(metas@);
    let all = search.is_empty();
    let needle = to_lowercase(search);
    let ghost wanted = |line: MetaView| hit(line, lowercase(search@));
    let mut count: usize = 0;
    let mut i: usize = 0;
    proof {
        reveal(Seq::filter);
        assert(lines.take(0) =~= Seq::<MetaView>::empty());
    }
    while i < metas.len()
        invariant
            i <= metas.len(),
            count <= i,
            lines == lines_of(metas@),
            all == (search@.len() == 0),
            needle@ == lowercase(search@),
            wanted == (|line: MetaView| hit(line, lowercase(search@))),
            count == if all {
                lines.take(i as int).len()
            } else {
                lines.take(i as int).filter(wanted).len()
            },
        decreases metas.len() - i,
    {
        proof {
            reveal(Seq::filter);
            assert(lines.take(i + 1).drop_last() =~= lines.take(i as int));
            assert(lines.take(i + 1).last() == metas@[i as int]@);
        }
        if all || metas[i].is_hit(needle.as_str()) {
            count = count + 1;
        }
        i = i + 1;
    }
    assert(lines.take(i as int) =~= lines);
    count
}

} // verus!
