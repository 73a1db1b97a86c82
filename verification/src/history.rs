//! The history of lines that were entered.
//!
//! A [`History`] keeps up to a given number of lines and drops the oldest beyond
//! that. It has a cursor, which always stands on an entry while there is one, and
//! which the lookup functions move.
//!
//! Entries are numbered as they are added, and the numbers only ever grow. As in
//! libedit, the *first* entry is the newest, the *last* is the oldest, *next* goes
//! toward older entries and *prev* toward newer ones; [`newest`](History::newest),
//! [`oldest`](History::oldest), [`older`](History::older) and
//! [`newer`](History::newer) say the same in other words.
//!
//! The names and the directions are libedit's. The rest is this library's own choice,
//! such as where the cursor stands after an entry is removed, and how entries are
//! numbered after the history is cleared or loaded; that libedit does the same in every
//! case is not shown here.

use vstd::prelude::*;

use crate::error::{Error, Result};
use crate::histfile::{
    header, law_file_is_read_back, lemma_read_file_no_nul, parse_file, read_file, texts_of,
    write_entry, write_header, written_entries, written_file,
};
use crate::text::string_of;
use crate::wstr::{
    content, decode_units, first_nul_at, lemma_unit_of_char, lemma_wcslen, text_of, units_equal,
    units_of, WCStr, WCString, WChar,
};

verus! {

/// How many entries a [`History`] keeps unless it is told otherwise.
pub const DEFAULT_HISTORY_SIZE: usize = 100;

// ---------------------------------------------------------------------------
// Model
// ---------------------------------------------------------------------------

/// An entry: its number and its units, which hold no NUL.
pub struct EntryView {
    pub num: i32,
    pub units: Seq<WChar>,
}

/// The state of a [`History`].
pub struct HistoryState {
    /// The entries, the oldest first.
    pub entries: Seq<EntryView>,
    /// The position of the cursor, while there are entries.
    pub cursor: Option<int>,
    /// How many entries are kept.
    pub limit: nat,
    /// A line equal to the newest entry is not added.
    pub unique: bool,
    /// The number given out last.
    pub last_num: i32,
}

/// The newest `limit` of `entries`.
pub open spec fn newest_of(entries: Seq<EntryView>, limit: nat) -> Seq<EntryView> {
    if entries.len() > limit {
        entries.skip(entries.len() - limit)
    } else {
        entries
    }
}

impl HistoryState {
    /// What holds of every history: the cursor stands on an entry, no more than
    /// `limit` entries are kept, their numbers grow from old to new and were all
    /// given out, and no entry holds a NUL.
    pub open spec fn valid(self) -> bool {
        &&& self.cursor is Some <==> self.entries.len() > 0
        &&& self.cursor matches Some(i) ==> 0 <= i < self.entries.len()
        &&& self.entries.len() <= self.limit
        &&& forall|i: int, j: int|
            0 <= i < j < self.entries.len() ==> (#[trigger] self.entries[i]).num < (
            #[trigger] self.entries[j]).num
        &&& forall|i: int|
            0 <= i < self.entries.len() ==> 0 < (#[trigger] self.entries[i]).num <= self.last_num
        &&& forall|i: int|
            0 <= i < self.entries.len() ==> !(#[trigger] self.entries[i]).units.contains(0)
        &&& self.last_num >= 0
    }

    /// The cursor on the newest entry, where there is one.
    pub open spec fn at_newest(self) -> Self {
        HistoryState {
            cursor: if self.entries.len() > 0 {
                Some(self.entries.len() - 1)
            } else {
                None
            },
            ..self
        }
    }

    /// The cursor on the oldest entry, where there is one.
    pub open spec fn at_oldest(self) -> Self {
        HistoryState {
            cursor: if self.entries.len() > 0 {
                Some(0)
            } else {
                None
            },
            ..self
        }
    }

    /// The cursor on entry `i`.
    pub open spec fn at(self, i: int) -> Self {
        HistoryState { cursor: Some(i), ..self }
    }

    /// The cursor moved `n` entries toward older ones, or to the oldest where there
    /// are not as many.
    pub open spec fn older(self, n: nat) -> Self {
        match self.cursor {
            Some(i) => self.at(if i >= n {
                i - n
            } else {
                0
            }),
            None => self,
        }
    }

    /// The cursor moved `n` entries toward newer ones, or to the newest where there
    /// are not as many.
    pub open spec fn newer(self, n: nat) -> Self {
        match self.cursor {
            Some(i) => self.at(if i + n < self.entries.len() {
                i + n
            } else {
                self.entries.len() - 1
            }),
            None => self,
        }
    }

    /// `after` and `r` are what a step of `n` entries toward older ones gives: the
    /// entry arrived at, where there were as many.
    pub open spec fn steps_older(self, n: nat, after: Self, r: Option<HistoryEvent>) -> bool {
        &&& after == self.older(n)
        &&& r is Some <==> n > 0 && self.cursor is Some && self.cursor->Some_0 >= n
        &&& r matches Some(e) ==> after.hands_out(after.cursor->Some_0, e)
    }

    /// `after` and `r` are what a step of `n` entries toward newer ones gives: the
    /// entry arrived at, where there were as many.
    pub open spec fn steps_newer(self, n: nat, after: Self, r: Option<HistoryEvent>) -> bool {
        &&& after == self.newer(n)
        &&& r is Some <==> n > 0 && self.cursor is Some && self.cursor->Some_0 + n
            < self.entries.len()
        &&& r matches Some(e) ==> after.hands_out(after.cursor->Some_0, e)
    }

    /// `units` would repeat the newest entry, and repetitions are not added.
    pub open spec fn repeats(self, units: Seq<WChar>) -> bool {
        self.unique && self.entries.len() > 0 && self.entries.last().units == units
    }

    /// The history after `units` have been entered: unless they repeat the newest
    /// entry they become the newest, the oldest goes where there are too many, and
    /// the cursor moves to the newest.
    pub open spec fn enter(self, units: Seq<WChar>) -> Self {
        if self.repeats(units) {
            self
        } else {
            let num = (self.last_num + 1) as i32;
            HistoryState {
                entries: newest_of(self.entries.push(EntryView { num, units }), self.limit),
                last_num: num,
                ..self
            }.at_newest()
        }
    }

    /// The history after each of `lines` has been entered, in order.
    pub open spec fn enter_all(self, lines: Seq<Seq<WChar>>) -> Self
        decreases lines.len(),
    {
        if lines.len() == 0 {
            self
        } else {
            self.enter_all(lines.drop_last()).enter(lines.last())
        }
    }

    /// The history with room for `limit` entries: the oldest go where there are too
    /// many, and the cursor stays on its entry, or moves to the oldest that is left.
    pub open spec fn resize(self, limit: nat) -> Self {
        let entries = newest_of(self.entries, limit);
        let dropped = self.entries.len() - entries.len();
        HistoryState {
            entries,
            limit,
            cursor: if entries.len() == 0 {
                None
            } else if self.cursor->Some_0 >= dropped {
                Some(self.cursor->Some_0 - dropped)
            } else {
                Some(0)
            },
            ..self
        }
    }

    /// Every unit of every entry is a scalar value.
    pub open spec fn all_text(self) -> bool {
        forall|i: int|
            0 <= i < self.entries.len() ==> units_of(text_of((#[trigger] self.entries[i]).units))
                == self.entries[i].units
    }

    /// The texts of the entries, the oldest first.
    pub open spec fn texts(self) -> Seq<Seq<char>> {
        Seq::new(self.entries.len(), |i: int| text_of(self.entries[i].units))
    }

    /// Entry `i` as it is handed out.
    pub open spec fn hands_out(self, i: int, event: HistoryEvent) -> bool {
        &&& event.num == self.entries[i].num
        &&& event.value@ == text_of(self.entries[i].units)
    }
}

/// The units of each of `texts`.
pub open spec fn lines_of(texts: Seq<Seq<char>>) -> Seq<Seq<WChar>> {
    Seq::new(texts.len(), |i: int| units_of(texts[i]))
}

// ---------------------------------------------------------------------------
// Entries
// ---------------------------------------------------------------------------

/// A history entry as it is handed out.
#[derive(Debug, PartialEq, Eq)]
pub struct HistoryEvent {
    /// The number of the entry.
    pub num: i32,
    /// The text of the entry.
    pub value: String,
}

impl Clone for HistoryEvent {
    fn clone(&self) -> (r: Self)
        ensures
            r == *self,
    {
        HistoryEvent { num: self.num, value: self.value.clone() }
    }
}

/// An entry as it is kept.
#[derive(Debug)]
struct Entry {
    num: i32,
    units: Vec<WChar>,
}

impl View for Entry {
    type V = EntryView;

    closed spec fn view(&self) -> EntryView {
        EntryView { num: self.num, units: self.units@ }
    }
}

/// The views of `entries`.
spec fn views(entries: Seq<Entry>) -> Seq<EntryView> {
    Seq::new(entries.len(), |i: int| entries[i]@)
}

// ---------------------------------------------------------------------------
// History
// ---------------------------------------------------------------------------

/// A history of lines with a cursor.
#[derive(Debug)]
pub struct History {
    entries: Vec<Entry>,
    cursor: Option<usize>,
    limit: usize,
    unique: bool,
    last_num: i32,
}

impl View for History {
    type V = HistoryState;

    closed spec fn view(&self) -> HistoryState {
        HistoryState {
            entries: views(self.entries@),
            cursor: match self.cursor {
                Some(i) => Some(i as int),
                None => None,
            },
            limit: self.limit as nat,
            unique: self.unique,
            last_num: self.last_num,
        }
    }
}

impl History {
    /// An empty history that keeps [`DEFAULT_HISTORY_SIZE`] entries.
    pub fn new() -> (r: Self)
        ensures
            r@.valid(),
            r@ == (HistoryState {
                entries: Seq::empty(),
                cursor: None,
                limit: DEFAULT_HISTORY_SIZE as nat,
                unique: false,
                last_num: 0,
            }),
    {
        Self::with_size(DEFAULT_HISTORY_SIZE)
    }

    /// An empty history that keeps `size` entries.
    pub fn with_size(size: usize) -> (r: Self)
        ensures
            r@.valid(),
            r@ == (HistoryState {
                entries: Seq::empty(),
                cursor: None,
                limit: size as nat,
                unique: false,
                last_num: 0,
            }),
    {
        let r = History {
            entries: Vec::new(),
            cursor: None,
            limit: size,
            unique: false,
            last_num: 0,
        };
        assert(r@.entries =~= Seq::<EntryView>::empty());
        r
    }

    /// Keeps `size` entries from now on. Where there are more, the oldest go.
    pub fn set_size(&mut self, size: usize)
        requires
            old(self)@.valid(),
        ensures
            final(self)@.valid(),
            final(self)@ == old(self)@.resize(size as nat),
    {
        self.limit = size;
        let len: usize = self.entries.len();
        if len > size {
            let dropped: usize = len - size;
            let kept: Vec<Entry> = self.entries.split_off(dropped);
            self.entries = kept;
            self.cursor = if size == 0 {
                None
            } else {
                match self.cursor {
                    Some(i) => if i >= dropped {
                        Some(i - dropped)
                    } else {
                        Some(0)
                    },
                    None => None,
                }
            };
        }
        assert(self@.entries =~= newest_of(old(self)@.entries, size as nat));
        assert forall|i: int| 0 <= i < self@.entries.len() implies !(
        #[trigger] self@.entries[i]).units.contains(0) by {
            let dropped = old(self)@.entries.len() - self@.entries.len();
            assert(self@.entries[i] == old(self)@.entries[i + dropped]);
        }
    }

    /// Says whether a line equal to the newest entry is left out.
    pub fn set_unique(&mut self, unique: bool)
        requires
            old(self)@.valid(),
        ensures
            final(self)@.valid(),
            final(self)@ == (HistoryState { unique, ..old(self)@ }),
    {
        self.unique = unique;
    }

    /// Adds a line. `Ok(true)` says that it became the newest entry, `Ok(false)` that
    /// it repeats the newest entry and was left out. Fails where the line holds a NUL,
    /// and where no number is left to give out; the history then stays as it was.
    pub fn add(&mut self, entry: &str) -> (r: Result<bool>)
        requires
            old(self)@.valid(),
        ensures
            final(self)@.valid(),
            match r {
                Ok(added) => {
                    &&& !entry@.contains('\0')
                    &&& added == !old(self)@.repeats(units_of(entry@))
                    &&& added ==> old(self)@.last_num < i32::MAX
                    &&& final(self)@ == old(self)@.enter(units_of(entry@))
                },
                Err(Error::Nul(e)) => {
                    &&& first_nul_at(entry@, e.position as int)
                    &&& final(self)@ == old(self)@
                },
                Err(Error::Operation { op, code }) => {
                    &&& op == 0 && code == -1
                    &&& !entry@.contains('\0')
                    &&& old(self)@.last_num == i32::MAX
                    &&& !old(self)@.repeats(units_of(entry@))
                    &&& final(self)@ == old(self)@
                },
                Err(_) => false,
            },
    {
        let units: Vec<WChar> = match WCString::from_str(entry) {
            Ok(w) => {
                let mut units: Vec<WChar> = w.into_units_with_nul();
                let _ = units.pop();
                units
            },
            Err(e) => {
                return Err(Error::from(e));
            },
        };
        proof {
            assert(units@ =~= units_of(entry@));
            assert forall|i: int| 0 <= i < units@.len() implies units@[i] != 0 by {
                lemma_unit_of_char(entry@[i]);
                assert(entry@.contains(entry@[i]));
            }
        }
        match self.enter(units) {
            Some(added) => Ok(added),
            None => Err(Error::operation(0, -1)),
        }
    }

    /// Adds the text before the first NUL of a wide string. Where no number is left
    /// to give out, nothing is added.
    pub fn add_wide(&mut self, entry: &WCStr<'_>)
        requires
            old(self)@.valid(),
        ensures
            final(self)@.valid(),
            final(self)@ == (if old(self)@.last_num < i32::MAX || old(self)@.repeats(
                content(entry@),
            ) {
                old(self)@.enter(content(entry@))
            } else {
                old(self)@
            }),
    {
        let n: usize = entry.len();
        let all: &[WChar] = entry.units_with_nul();
        let units: Vec<WChar> = vstd::slice::slice_to_vec(vstd::slice::slice_subrange(all, 0, n));
        proof {
            assert(units@ =~= content(entry@));
            lemma_wcslen(entry@);
        }
        let _ = self.enter(units);
    }

    /// Enters `units`: `Some(true)` where they became the newest entry, `Some(false)`
    /// where they repeat it, `None` where no number is left.
    fn enter(&mut self, units: Vec<WChar>) -> (r: Option<bool>)
        requires
            old(self)@.valid(),
            !units@.contains(0),
        ensures
            final(self)@.valid(),
            r == (if old(self)@.repeats(units@) {
                Some(false)
            } else if old(self)@.last_num < i32::MAX {
                Some(true)
            } else {
                None
            }),
            final(self)@ == (if r is Some {
                old(self)@.enter(units@)
            } else {
                old(self)@
            }),
    {
        let len: usize = self.entries.len();
        if self.unique && len > 0 && units_equal(
            self.entries[len - 1].units.as_slice(),
            units.as_slice(),
        ) {
            return Some(false);
        }
        if self.last_num == i32::MAX {
            return None;
        }
        let num: i32 = self.last_num + 1;
        let ghost entry = EntryView { num, units: units@ };
        let ghost all = old(self)@.entries.push(entry);
        self.last_num = num;
        self.entries.push(Entry { num, units });
        assert(views(self.entries@) =~= all);
        if self.entries.len() > self.limit {
            let _ = self.entries.remove(0);
        }
        assert(views(self.entries@) =~= newest_of(all, old(self)@.limit));
        let len: usize = self.entries.len();
        self.cursor = if len > 0 {
            Some(len - 1)
        } else {
            None
        };
        proof {
            let dropped = all.len() - self@.entries.len();
            assert forall|i: int| 0 <= i < self@.entries.len() implies #[trigger] self@.entries[i]
                == all[i + dropped] by {}
        }
        Some(true)
    }

    /// The entry at position `i`.
    fn event(&self, i: usize) -> (r: HistoryEvent)
        requires
            i < self@.entries.len(),
        ensures
            self@.hands_out(i as int, r),
    {
        let entry: &Entry = &self.entries[i];
        let chars: Vec<char> = decode_units(entry.units.as_slice());
        HistoryEvent { num: entry.num, value: string_of(&chars) }
    }

    /// Moves the cursor to the newest entry and hands it out.
    pub fn first(&mut self) -> (r: Option<HistoryEvent>)
        requires
            old(self)@.valid(),
        ensures
            final(self)@.valid(),
            final(self)@ == old(self)@.at_newest(),
            old(self)@.entries.len() == 0 <==> r is None,
            r matches Some(e) ==> old(self)@.hands_out(old(self)@.entries.len() - 1, e),
    {
        let len: usize = self.entries.len();
        if len == 0 {
            return None;
        }
        self.cursor = Some(len - 1);
        Some(self.event(len - 1))
    }

    /// Moves the cursor to the oldest entry and hands it out.
    pub fn last(&mut self) -> (r: Option<HistoryEvent>)
        requires
            old(self)@.valid(),
        ensures
            final(self)@.valid(),
            final(self)@ == old(self)@.at_oldest(),
            old(self)@.entries.len() == 0 <==> r is None,
            r matches Some(e) ==> old(self)@.hands_out(0, e),
    {
        if self.entries.len() == 0 {
            return None;
        }
        self.cursor = Some(0);
        Some(self.event(0))
    }

    /// Moves the cursor to the next older entry and hands it out. On the oldest the
    /// cursor stays and there is none.
    pub fn next(&mut self) -> (r: Option<HistoryEvent>)
        requires
            old(self)@.valid(),
        ensures
            final(self)@.valid(),
            old(self)@.steps_older(1, final(self)@, r),
    {
        match self.cursor {
            Some(i) => {
                if i == 0 {
                    return None;
                }
                self.cursor = Some(i - 1);
                Some(self.event(i - 1))
            },
            None => None,
        }
    }

    /// Moves the cursor to the next newer entry and hands it out. On the newest the
    /// cursor stays and there is none.
    pub fn prev(&mut self) -> (r: Option<HistoryEvent>)
        requires
            old(self)@.valid(),
        ensures
            final(self)@.valid(),
            old(self)@.steps_newer(1, final(self)@, r),
    {
        let len: usize = self.entries.len();
        match self.cursor {
            Some(i) => {
                if i + 1 >= len {
                    return None;
                }
                self.cursor = Some(i + 1);
                Some(self.event(i + 1))
            },
            None => None,
        }
    }

    /// The entry that the cursor stands on.
    pub fn curr(&self) -> (r: Option<HistoryEvent>)
        requires
            self@.valid(),
        ensures
            match self@.cursor {
                Some(i) => r matches Some(e) && self@.hands_out(i, e),
                None => r is None,
            },
    {
        match self.cursor {
            Some(i) => Some(self.event(i)),
            None => None,
        }
    }

    /// Looks for the entry with number `num`, from the cursor toward older entries.
    /// Where it is found the cursor moves there, and otherwise to the oldest.
    pub fn next_event(&mut self, num: i32) -> (r: Option<HistoryEvent>)
        requires
            old(self)@.valid(),
        ensures
            final(self)@.valid(),
            match r {
                Some(e) => exists|i: int|
                    0 <= i <= old(self)@.cursor->Some_0 && old(self)@.entries[i].num == num
                        && final(self)@ == #[trigger] old(self)@.at(i) && old(self)@.hands_out(i, e),
                None => {
                    &&& forall|i: int|
                        old(self)@.entries.len() > 0 && 0 <= i <= old(self)@.cursor->Some_0 ==> (
                        #[trigger] old(self)@.entries[i]).num != num
                    &&& final(self)@ == old(self)@.at_oldest()
                },
            },
    {
        let mut entry: Option<HistoryEvent> = self.curr();
        let ghost start = self@.cursor;
        loop
            invariant
                old(self)@.valid(),
                self@.valid(),
                start == old(self)@.cursor,
                self@.cursor is Some == start is Some,
                self@.cursor is None ==> self@ == old(self)@ && entry is None,
                self@.cursor matches Some(i) ==> 0 <= i <= start->Some_0 && self@ == old(self)@.at(
                    i,
                ),
                entry matches Some(e) ==> self@.cursor is Some && old(self)@.hands_out(
                    self@.cursor->Some_0,
                    e,
                ),
                entry is None && self@.cursor is Some ==> self@.cursor == Some(0int),
                forall|i: int|
                    self@.cursor is Some && (if entry is None {
                        self@.cursor->Some_0
                    } else {
                        self@.cursor->Some_0 + 1
                    }) <= i <= start->Some_0 ==> (#[trigger] old(self)@.entries[i]).num != num,
            decreases
                    (if entry is None {
                        0int
                    } else {
                        self@.cursor->Some_0 + 1
                    }),
        {
            match entry {
                Some(e) => {
                    if e.num == num {
                        assert(self@ == old(self)@.at(self@.cursor->Some_0));
                        return Some(e);
                    }
                    entry = self.next();
                },
                None => {
                    return None;
                },
            }
        }
    }

    /// Looks for the entry with number `num`, from the cursor toward newer entries.
    /// Where it is found the cursor moves there, and otherwise to the newest.
    pub fn prev_event(&mut self, num: i32) -> (r: Option<HistoryEvent>)
        requires
            old(self)@.valid(),
        ensures
            final(self)@.valid(),
            match r {
                Some(e) => exists|i: int|
                    old(self)@.cursor->Some_0 <= i < old(self)@.entries.len()
                        && old(self)@.entries[i].num == num && final(self)@
                        == #[trigger] old(self)@.at(i) && old(self)@.hands_out(i, e),
                None => {
                    &&& forall|i: int|
                        old(self)@.entries.len() > 0 && old(self)@.cursor->Some_0 <= i
                            < old(self)@.entries.len() ==> (#[trigger] old(self)@.entries[i]).num
                            != num
                    &&& final(self)@ == old(self)@.at_newest()
                },
            },
    {
        let mut entry: Option<HistoryEvent> = self.curr();
        let ghost start = self@.cursor;
        let ghost len = self@.entries.len() as int;
        loop
            invariant
                old(self)@.valid(),
                self@.valid(),
                start == old(self)@.cursor,
                len == old(self)@.entries.len(),
                self@.cursor is Some == start is Some,
                self@.cursor is None ==> self@ == old(self)@ && entry is None,
                self@.cursor matches Some(i) ==> start->Some_0 <= i < len && self@ == old(
                    self,
                )@.at(i),
                entry matches Some(e) ==> self@.cursor is Some && old(self)@.hands_out(
                    self@.cursor->Some_0,
                    e,
                ),
                entry is None && self@.cursor is Some ==> self@.cursor == Some(len - 1),
                forall|i: int|
                    self@.cursor is Some && start->Some_0 <= i < (if entry is None {
                        self@.cursor->Some_0 + 1
                    } else {
                        self@.cursor->Some_0
                    }) ==> (#[trigger] old(self)@.entries[i]).num != num,
            decreases
                    (if entry is None {
                        0int
                    } else {
                        len - self@.cursor->Some_0
                    }),
        {
            match entry {
                Some(e) => {
                    if e.num == num {
                        assert(self@ == old(self)@.at(self@.cursor->Some_0));
                        return Some(e);
                    }
                    entry = self.prev();
                },
                None => {
                    return None;
                },
            }
        }
    }

    /// Moves the cursor `n` entries toward older ones and hands out the entry there.
    /// Where there are not as many the cursor moves to the oldest and there is none;
    /// for no move at all there is none either.
    pub fn next_n(&mut self, n: usize) -> (r: Option<HistoryEvent>)
        requires
            old(self)@.valid(),
        ensures
            final(self)@.valid(),
            old(self)@.steps_older(n as nat, final(self)@, r),
    {
        let mut last: Option<HistoryEvent> = None;
        let mut k: usize = 0;
        while k < n
            invariant
                old(self)@.valid(),
                self@.valid(),
                k <= n,
                old(self)@.steps_older(k as nat, self@, last),
                last is Some || k == 0,
            decreases n - k,
        {
            last = self.next();
            if last.is_none() {
                return None;
            }
            k = k + 1;
        }
        last
    }

    /// Moves the cursor `n` entries toward newer ones and hands out the entry there.
    /// Where there are not as many the cursor moves to the newest and there is none;
    /// for no move at all there is none either.
    pub fn prev_n(&mut self, n: usize) -> (r: Option<HistoryEvent>)
        requires
            old(self)@.valid(),
        ensures
            final(self)@.valid(),
            old(self)@.steps_newer(n as nat, final(self)@, r),
    {
        let mut last: Option<HistoryEvent> = None;
        let mut k: usize = 0;
        while k < n
            invariant
                old(self)@.valid(),
                self@.valid(),
                k <= n,
                old(self)@.steps_newer(k as nat, self@, last),
                last is Some || k == 0,
            decreases n - k,
        {
            last = self.prev();
            if last.is_none() {
                return None;
            }
            k = k + 1;
        }
        last
    }

    /// [`first`](Self::first) in other words.
    pub fn newest(&mut self) -> (r: Option<HistoryEvent>)
        requires
            old(self)@.valid(),
        ensures
            final(self)@.valid(),
            final(self)@ == old(self)@.at_newest(),
            old(self)@.entries.len() == 0 <==> r is None,
            r matches Some(e) ==> old(self)@.hands_out(old(self)@.entries.len() - 1, e),
    {
        self.first()
    }

    /// [`last`](Self::last) in other words.
    pub fn oldest(&mut self) -> (r: Option<HistoryEvent>)
        requires
            old(self)@.valid(),
        ensures
            final(self)@.valid(),
            final(self)@ == old(self)@.at_oldest(),
            old(self)@.entries.len() == 0 <==> r is None,
            r matches Some(e) ==> old(self)@.hands_out(0, e),
    {
        self.last()
    }

    /// [`next`](Self::next) in other words.
    pub fn older(&mut self) -> (r: Option<HistoryEvent>)
        requires
            old(self)@.valid(),
        ensures
            final(self)@.valid(),
            old(self)@.steps_older(1, final(self)@, r),
    {
        self.next()
    }

    /// [`prev`](Self::prev) in other words.
    pub fn newer(&mut self) -> (r: Option<HistoryEvent>)
        requires
            old(self)@.valid(),
        ensures
            final(self)@.valid(),
            old(self)@.steps_newer(1, final(self)@, r),
    {
        self.prev()
    }

    /// [`next_n`](Self::next_n) in other words.
    pub fn older_n(&mut self, n: usize) -> (r: Option<HistoryEvent>)
        requires
            old(self)@.valid(),
        ensures
            final(self)@.valid(),
            old(self)@.steps_older(n as nat, final(self)@, r),
    {
        self.next_n(n)
    }

    /// [`prev_n`](Self::prev_n) in other words.
    pub fn newer_n(&mut self, n: usize) -> (r: Option<HistoryEvent>)
        requires
            old(self)@.valid(),
        ensures
            final(self)@.valid(),
            old(self)@.steps_newer(n as nat, final(self)@, r),
    {
        self.prev_n(n)
    }

    /// The number of entries.
    pub fn len(&self) -> (r: usize)
        ensures
            r == self@.entries.len(),
    {
        self.entries.len()
    }

    /// There are no entries.
    pub fn is_empty(&self) -> (r: bool)
        ensures
            r == (self@.entries.len() == 0),
    {
        self.entries.len() == 0
    }

    /// How many entries are kept.
    pub fn size(&self) -> (r: usize)
        ensures
            r == self@.limit,
    {
        self.limit
    }

    /// The units of entry `i`, counted from the oldest.
    pub fn units(&self, i: usize) -> (r: &[WChar])
        requires
            i < self@.entries.len(),
        ensures
            r@ == self@.entries[i as int].units,
    {
        self.entries[i].units.as_slice()
    }

    /// Removes all entries. Numbers go on from where they were.
    pub fn clear(&mut self)
        requires
            old(self)@.valid(),
        ensures
            final(self)@.valid(),
            final(self)@ == (HistoryState { entries: Seq::empty(), cursor: None, ..old(self)@ }),
    {
        self.entries.clear();
        self.cursor = None;
        assert(self@.entries =~= Seq::<EntryView>::empty());
    }

    /// Adds the entries of a history file with the given contents. Fails where they
    /// are malformed or hold more entries than numbers are left; the history then
    /// stays as it was.
    pub fn load(&mut self, contents: &[u8]) -> (r: Result<()>)
        requires
            old(self)@.valid(),
        ensures
            final(self)@.valid(),
            match r {
                Ok(()) => {
                    &&& read_file(contents@) matches Some(texts) && old(self)@.last_num
                        + texts.len() <= i32::MAX && final(self)@ == old(self)@.enter_all(
                        lines_of(texts),
                    )
                },
                Err(e) => {
                    &&& e == (Error::Operation { op: 0, code: -1i32 })
                    &&& read_file(contents@) matches Some(texts) ==> old(self)@.last_num
                        + texts.len() > i32::MAX
                    &&& final(self)@ == old(self)@
                },
            },
    {
        let lines: Vec<Vec<char>> = match parse_file(contents) {
            Some(lines) => lines,
            None => {
                return Err(Error::operation(0, -1));
            },
        };
        let ghost texts = texts_of(lines@);
        if lines.len() > (i32::MAX - self.last_num) as usize {
            return Err(Error::operation(0, -1));
        }
        let mut i: usize = 0;
        assert(lines_of(texts).take(0) =~= Seq::<Seq<WChar>>::empty());
        proof {
            lemma_read_file_no_nul(contents@);
        }
        while i < lines.len()
            invariant
                i <= lines@.len(),
                texts == texts_of(lines@),
                forall|j: int| 0 <= j < texts.len() ==> !(#[trigger] texts[j]).contains('\0'),
                old(self)@.valid(),
                self@.valid(),
                old(self)@.last_num + lines@.len() <= i32::MAX,
                self@.last_num <= old(self)@.last_num + i,
                self@ == old(self)@.enter_all(lines_of(texts).take(i as int)),
            decreases lines@.len() - i,
        {
            let mut units: WCString = WCString::new();
            units.push_chars(lines[i].as_slice());
            let units: Vec<WChar> = units.into_units_with_nul();
            proof {
                let line = lines_of(texts);
                assert(texts[i as int] == lines@[i as int]@);
                assert(units@ =~= line[i as int]);
                assert forall|j: int| 0 <= j < units@.len() implies units@[j] != 0 by {
                    lemma_unit_of_char(texts[i as int][j]);
                    assert(texts[i as int].contains(texts[i as int][j]));
                }
                assert(line.take(i + 1).drop_last() =~= line.take(i as int));
            }
            let _ = self.enter(units);
            i = i + 1;
        }
        assert(lines_of(texts).take(i as int) =~= lines_of(texts));
        Ok(())
    }

    /// The contents of the history file of the entries.
    pub fn save(&self) -> (r: Vec<u8>)
        ensures
            r@ == written_file(self@.texts()),
    {
        let mut out: Vec<u8> = Vec::new();
        write_header(&mut out);
        let mut i: usize = 0;
        let ghost texts = self@.texts();
        assert(texts.take(0) =~= Seq::<Seq<char>>::empty());
        assert(out@ =~= header() + written_entries(texts.take(0)));
        while i < self.entries.len()
            invariant
                i <= self.entries@.len(),
                texts == self@.texts(),
                out@ == header() + written_entries(texts.take(i as int)),
            decreases self.entries@.len() - i,
        {
            let event: HistoryEvent = self.event(i);
            write_entry(&mut out, event.value.as_str());
            proof {
                assert(texts[i as int] == event.value@);
                assert(texts.take(i + 1).drop_last() =~= texts.take(i as int));
                assert(out@ =~= header() + written_entries(texts.take(i + 1)));
            }
            i = i + 1;
        }
        assert(texts.take(i as int) =~= texts);
        out
    }
}

impl Default for History {
    fn default() -> (r: Self)
        ensures
            r@.valid(),
            r@ == (HistoryState {
                entries: Seq::empty(),
                cursor: None,
                limit: DEFAULT_HISTORY_SIZE as nat,
                unique: false,
                last_num: 0,
            }),
    {
        History::new()
    }
}

// ---------------------------------------------------------------------------
// Laws
// ---------------------------------------------------------------------------

/// Adding a line keeps a history valid: there are never more entries than are kept,
/// numbers grow, and the cursor stands on an entry.
pub proof fn law_enter_keeps_valid(st: HistoryState, units: Seq<WChar>)
    requires
        st.valid(),
        !units.contains(0),
        st.last_num < i32::MAX,
    ensures
        st.enter(units).valid(),
{
    let all = st.entries.push(EntryView { num: (st.last_num + 1) as i32, units });
    let next = st.enter(units);
    if !st.repeats(units) {
        let dropped = all.len() - next.entries.len();
        assert forall|i: int| 0 <= i < next.entries.len() implies #[trigger] next.entries[i] == all[i
            + dropped] by {}
    }
}

/// An added line is the newest entry, and the cursor stands on it.
pub proof fn law_added_line_is_newest(st: HistoryState, units: Seq<WChar>)
    requires
        st.valid(),
        st.limit > 0,
    ensures
        st.enter(units).entries.len() > 0,
        st.enter(units).entries.last().units == units,
        !st.repeats(units) ==> st.enter(units).cursor == Some(st.enter(units).entries.len() - 1),
{
}

/// Numbers are never given out twice: a new entry has a number greater than all that
/// were given out before, whether or not their entries are still there.
pub proof fn law_numbers_grow(st: HistoryState, units: Seq<WChar>)
    requires
        st.valid(),
        st.limit > 0,
        st.last_num < i32::MAX,
        !st.repeats(units),
    ensures
        st.enter(units).entries.last().num > st.last_num,
        st.enter(units).last_num == st.enter(units).entries.last().num,
{
}

/// Without the suppression of repetitions a history keeps exactly the newest lines, in
/// the order in which they were added: as many of them as fit.
pub proof fn law_newest_lines_are_kept(st: HistoryState, lines: Seq<Seq<WChar>>)
    requires
        st.valid(),
        st.entries.len() == 0,
        !st.unique,
        st.last_num + lines.len() <= i32::MAX,
    ensures
        ({
            let after = st.enter_all(lines);
            let dropped = if lines.len() > st.limit {
                lines.len() - st.limit
            } else {
                0
            };
            &&& after.entries.len() == lines.len() - dropped
            &&& forall|i: int|
                0 <= i < after.entries.len() ==> (#[trigger] after.entries[i]).units == lines[i
                    + dropped]
        }),
{
    lemma_enter_all(st, lines);
}

/// What entering lines one after the other makes of a history that was empty.
proof fn lemma_enter_all(st: HistoryState, lines: Seq<Seq<WChar>>)
    requires
        st.entries.len() == 0,
        !st.unique,
        st.last_num >= 0,
        st.last_num + lines.len() <= i32::MAX,
    ensures
        ({
            let after = st.enter_all(lines);
            let dropped = if lines.len() > st.limit {
                lines.len() - st.limit
            } else {
                0
            };
            &&& after.limit == st.limit
            &&& after.unique == st.unique
            &&& after.last_num == st.last_num + lines.len()
            &&& after.entries.len() == lines.len() - dropped
            &&& forall|i: int|
                0 <= i < after.entries.len() ==> (#[trigger] after.entries[i]).units == lines[i
                    + dropped]
        }),
    decreases lines.len(),
{
    if lines.len() > 0 {
        let before = st.enter_all(lines.drop_last());
        lemma_enter_all(st, lines.drop_last());
        let num = (before.last_num + 1) as i32;
        let all = before.entries.push(EntryView { num, units: lines.last() });
        let after = st.enter_all(lines);
        assert(after.entries == newest_of(all, st.limit));
        let dropped = if lines.len() > st.limit {
            lines.len() - st.limit
        } else {
            0
        };
        assert forall|i: int| 0 <= i < after.entries.len() implies (
        #[trigger] after.entries[i]).units == lines[i + dropped] by {
            let skipped = all.len() - after.entries.len();
            assert(after.entries[i] == all[i + skipped]);
            if i + skipped < before.entries.len() {
                assert(before.entries[i + skipped].units == lines.drop_last()[i + dropped]);
            }
        }
    }
}

/// Changing how many entries are kept keeps the newest, in order, and drops none that
/// fits; the cursor stays on its entry as long as that is there.
pub proof fn law_resize_keeps_the_newest(st: HistoryState, limit: nat)
    requires
        st.valid(),
    ensures
        st.resize(limit).valid(),
        st.entries.len() <= limit ==> st.resize(limit) == (HistoryState { limit, ..st }),
        st.entries.len() > limit ==> st.resize(limit).entries == st.entries.skip(
            st.entries.len() - limit,
        ),
        st.cursor is Some && st.cursor->Some_0 >= st.entries.len() - limit && limit > 0 ==> {
            let after = st.resize(limit);
            after.entries[after.cursor->Some_0] == st.entries[st.cursor->Some_0]
        },
{
    let after = st.resize(limit);
    let dropped = st.entries.len() - after.entries.len();
    assert forall|i: int| 0 <= i < after.entries.len() implies #[trigger] after.entries[i]
        == st.entries[i + dropped] by {}
}

/// No entry repeats the one before it.
pub open spec fn no_repetition(st: HistoryState) -> bool {
    forall|i: int|
        0 <= i < st.entries.len() - 1 ==> (#[trigger] st.entries[i]).units != st.entries[i
            + 1].units
}

/// While repetitions are suppressed, none arises, and a line is left out only where
/// it repeats the one before it.
pub proof fn law_repetitions_are_suppressed(st: HistoryState, units: Seq<WChar>)
    requires
        st.valid(),
        st.unique,
        st.last_num < i32::MAX,
        no_repetition(st),
    ensures
        no_repetition(st.enter(units)),
        st.enter(units) == st <==> st.entries.len() > 0 && st.entries.last().units == units,
{
    let next = st.enter(units);
    if !st.repeats(units) {
        let all = st.entries.push(EntryView { num: (st.last_num + 1) as i32, units });
        let dropped = all.len() - next.entries.len();
        assert forall|i: int| 0 <= i < next.entries.len() - 1 implies (
        #[trigger] next.entries[i]).units != next.entries[i + 1].units by {
            assert(next.entries[i] == all[i + dropped]);
            assert(next.entries[i + 1] == all[i + dropped + 1]);
            if i + dropped + 1 < st.entries.len() {
                assert(st.entries[i + dropped].units != st.entries[i + dropped + 1].units);
            }
        }
    }
}

/// Going toward older entries and back again as far leads back to the same entry, as
/// long as there are as many; and the other way round.
pub proof fn law_older_and_newer_are_inverse(st: HistoryState, n: nat)
    requires
        st.valid(),
        st.cursor is Some,
    ensures
        st.cursor->Some_0 >= n ==> st.older(n).newer(n) == st,
        st.cursor->Some_0 + n < st.entries.len() ==> st.newer(n).older(n) == st,
{
}

/// Steps add up.
pub proof fn law_steps_add_up(st: HistoryState, a: nat, b: nat)
    requires
        st.valid(),
    ensures
        st.older(a).older(b) == st.older(a + b),
        st.newer(a).newer(b) == st.newer(a + b),
{
}

/// From the newest entry, `n` steps toward older ones lead to the entry that was added
/// `n` lines earlier, and from the oldest, `n` steps toward newer ones to the one added
/// `n` lines later.
pub proof fn law_walk_visits_every_entry(st: HistoryState, n: nat)
    requires
        st.valid(),
        n < st.entries.len(),
    ensures
        st.at_newest().older(n).cursor == Some(st.entries.len() - 1 - n),
        st.at_oldest().newer(n).cursor == Some(n as int),
{
}

/// What was saved is loaded: into an empty history that keeps as many entries and does
/// not suppress repetitions, the file of a history brings back the same entries.
pub proof fn law_saved_history_is_loaded(st: HistoryState, empty: HistoryState)
    requires
        st.valid(),
        st.all_text(),
        empty.valid(),
        empty.entries.len() == 0,
        !empty.unique,
        empty.limit >= st.entries.len(),
        empty.last_num + st.entries.len() <= i32::MAX,
    ensures
        read_file(written_file(st.texts())) == Some(st.texts()),
        ({
            let loaded = empty.enter_all(lines_of(st.texts()));
            &&& loaded.entries.len() == st.entries.len()
            &&& forall|i: int|
                0 <= i < st.entries.len() ==> (#[trigger] loaded.entries[i]).units
                    == st.entries[i].units
        }),
{
    let texts = st.texts();
    assert forall|i: int| 0 <= i < texts.len() implies !(#[trigger] texts[i]).contains('\0') by {
        let units = st.entries[i].units;
        assert forall|j: int| 0 <= j < texts[i].len() implies texts[i][j] != '\0' by {
            assert(units.contains(units[j]));
        }
    }
    law_file_is_read_back(texts);
    let lines = lines_of(texts);
    lemma_enter_all(empty, lines);
    let loaded = empty.enter_all(lines);
    assert forall|i: int| 0 <= i < st.entries.len() implies (#[trigger] loaded.entries[i]).units
        == st.entries[i].units by {
        assert(loaded.entries[i].units == lines[i]);
        assert(lines[i] == units_of(text_of(st.entries[i].units)));
    }
}

/// Wherever the cursor stands, a line that is added is put after the entries that were there,
/// with a new number, and no old entry goes while there is room. Only where there would be
/// more entries than are kept the oldest goes, and no other. Everything else stays.
pub proof fn law_adding_evicts_only_the_oldest(st: HistoryState, units: Seq<WChar>)
    requires
        st.valid(),
        st.last_num < i32::MAX,
        !(st.unique && st.entries.len() > 0 && st.entries.last().units == units),
    ensures
        ({
            let after = st.enter(units);
            let all = st.entries.push(EntryView { num: (st.last_num + 1) as i32, units });
            &&& st.entries.len() < st.limit ==> after.entries == all
            &&& st.entries.len() == st.limit ==> after.entries == all.skip(1)
            &&& after.limit == st.limit
            &&& after.unique == st.unique
            &&& after.last_num == st.last_num + 1
            &&& st.limit > 0 ==> after.cursor == Some(after.entries.len() - 1)
            &&& st.limit == 0 ==> after.cursor is None && after.entries.len() == 0
        }),
{
}

/// A line equal to the newest entry changes nothing at all while repetitions are suppressed,
/// and is added like any other while they are not, or where it repeats an older entry.
pub proof fn law_only_the_newest_entry_is_not_repeated(st: HistoryState, units: Seq<WChar>)
    requires
        st.valid(),
        st.limit > 0,
        st.last_num < i32::MAX,
    ensures
        st.repeats(units) <==> st.unique && st.entries.len() > 0 && st.entries[st.entries.len()
            - 1].units == units,
        st.unique && st.entries.len() > 0 && st.entries[st.entries.len() - 1].units == units
            ==> st.enter(units) == st,
        !st.unique || st.entries.len() == 0 || st.entries[st.entries.len() - 1].units != units
            ==> st.enter(units).entries.last() == (EntryView {
            num: (st.last_num + 1) as i32,
            units,
        }),
{
}

/// Entering lines appends them: without the suppression of repetitions, a history keeps the
/// newest of the texts that it held and of those that are entered, in this order, as many as
/// fit. Entering none changes nothing.
pub proof fn law_entering_lines_appends_them(st: HistoryState, lines: Seq<Seq<WChar>>)
    requires
        st.valid(),
        !st.unique,
        st.last_num + lines.len() <= i32::MAX,
    ensures
        ({
            let after = st.enter_all(lines);
            let all = Seq::new(st.entries.len(), |i: int| st.entries[i].units) + lines;
            let dropped = if all.len() > st.limit {
                all.len() - st.limit
            } else {
                0
            };
            &&& after.entries.len() == all.len() - dropped
            &&& forall|i: int|
                0 <= i < after.entries.len() ==> (#[trigger] after.entries[i]).units == all[i
                    + dropped]
            &&& after.limit == st.limit
            &&& after.unique == st.unique
            &&& after.last_num == st.last_num + lines.len()
        }),
        lines.len() == 0 ==> st.enter_all(lines) == st,
        lines.len() > 0 && st.limit > 0 ==> st.enter_all(lines).cursor == Some(
            st.enter_all(lines).entries.len() - 1,
        ),
    decreases lines.len(),
{
    let texts = Seq::new(st.entries.len(), |i: int| st.entries[i].units);
    let all = texts + lines;
    let after = st.enter_all(lines);
    if lines.len() == 0 {
        assert forall|i: int| 0 <= i < after.entries.len() implies (
        #[trigger] after.entries[i]).units == all[i] by {
            assert(all[i] == texts[i]);
        }
    } else {
        let shorter = lines.drop_last();
        let before = st.enter_all(shorter);
        law_entering_lines_appends_them(st, shorter);
        let fewer = texts + shorter;
        let gone = if fewer.len() > st.limit {
            fewer.len() - st.limit
        } else {
            0
        };
        let dropped = if all.len() > st.limit {
            all.len() - st.limit
        } else {
            0
        };
        let num = (before.last_num + 1) as i32;
        let pushed = before.entries.push(EntryView { num, units: lines.last() });
        assert(after.entries == newest_of(pushed, st.limit));
        assert forall|i: int| 0 <= i < after.entries.len() implies (
        #[trigger] after.entries[i]).units == all[i + dropped] by {
            let skipped = pushed.len() - after.entries.len();
            assert(after.entries[i] == pushed[i + skipped]);
            if i + skipped < before.entries.len() {
                assert(before.entries[i + skipped].units == fewer[i + skipped + gone]);
                assert(fewer[i + dropped] == all[i + dropped]);
            } else {
                assert(all[i + dropped] == lines.last());
            }
        }
    }
}

/// Entering lines is entering each in turn, whether or not repetitions are suppressed: the
/// first, and then the others.
pub proof fn law_lines_are_entered_in_turn(
    st: HistoryState,
    line: Seq<WChar>,
    lines: Seq<Seq<WChar>>,
)
    ensures
        st.enter_all(Seq::empty()) == st,
        st.enter_all(seq![line] + lines) == st.enter(line).enter_all(lines),
    decreases lines.len(),
{
    let all = seq![line] + lines;
    if lines.len() == 0 {
        assert(all.drop_last() =~= Seq::<Seq<WChar>>::empty());
        assert(all.last() == line);
        assert(st.enter_all(all.drop_last()) == st);
    } else {
        assert(all.drop_last() =~= seq![line] + lines.drop_last());
        assert(all.last() == lines.last());
        law_lines_are_entered_in_turn(st, line, lines.drop_last());
    }
}

/// Loading appends: the lines of a file that was saved come after the entries that are
/// there, and none of those goes while there is room.
pub proof fn law_loading_appends(st: HistoryState, saved: Seq<Seq<char>>)
    requires
        st.valid(),
        !st.unique,
        st.last_num + saved.len() <= i32::MAX,
        st.entries.len() + saved.len() <= st.limit,
        forall|i: int| 0 <= i < saved.len() ==> !(#[trigger] saved[i]).contains('\0'),
    ensures
        read_file(written_file(saved)) == Some(saved),
        ({
            let after = st.enter_all(lines_of(saved));
            &&& after.entries.len() == st.entries.len() + saved.len()
            &&& forall|i: int|
                0 <= i < st.entries.len() ==> (#[trigger] after.entries[i]).units
                    == st.entries[i].units
            &&& forall|i: int|
                0 <= i < saved.len() ==> (#[trigger] after.entries[st.entries.len() + i]).units
                    == Seq::new(saved[i].len(), |k: int| saved[i][k] as WChar)
        }),
{
    law_file_is_read_back(saved);
    let lines = lines_of(saved);
    law_entering_lines_appends_them(st, lines);
    let all = Seq::new(st.entries.len(), |i: int| st.entries[i].units) + lines;
    let after = st.enter_all(lines);
    assert forall|i: int| 0 <= i < st.entries.len() implies (#[trigger] after.entries[i]).units
        == st.entries[i].units by {
        assert(all[i] == st.entries[i].units);
    }
    assert forall|i: int| 0 <= i < saved.len() implies (#[trigger] after.entries[st.entries.len()
        + i]).units == Seq::new(saved[i].len(), |k: int| saved[i][k] as WChar) by {
        assert(all[st.entries.len() + i] == lines[i]);
        assert(units_of(saved[i]) =~= Seq::new(saved[i].len(), |k: int| saved[i][k] as WChar));
    }
}

/// What is read from a file is entered as it stands: one line per text, one unit per
/// character.
pub proof fn law_lines_of_texts(texts: Seq<Seq<char>>)
    ensures
        lines_of(texts).len() == texts.len(),
        forall|i: int, k: int|
            0 <= i < texts.len() && 0 <= k < texts[i].len() ==> lines_of(texts)[i].len()
                == texts[i].len() && (#[trigger] lines_of(texts)[i][k]) == texts[i][k] as WChar,
        forall|i: int|
            0 <= i < texts.len() ==> (#[trigger] lines_of(texts)[i]).len() == texts[i].len(),
{
}

/// What is saved are the entries, all of them, the oldest first, one character per unit.
pub proof fn law_texts_are_those_of_the_entries(st: HistoryState)
    ensures
        st.texts().len() == st.entries.len(),
        forall|i: int|
            0 <= i < st.entries.len() ==> (#[trigger] st.texts()[i]) == text_of(
                st.entries[i].units,
            ),
{
}

/// The entry that is handed out is the one at the given place, with its number and its text.
pub proof fn law_entry_is_handed_out_as_it_is(st: HistoryState, i: int, event: HistoryEvent)
    ensures
        st.hands_out(i, event) <==> event.num == st.entries[i].num && event.value@ == text_of(
            st.entries[i].units,
        ),
{
}

/// What holds of every history. Its cursor stands on an entry while there is one, there are
/// no more entries than are kept, and the numbers grow from old to new.
pub proof fn law_every_history(st: HistoryState)
    requires
        st.valid(),
    ensures
        st.entries.len() <= st.limit,
        st.entries.len() == 0 ==> st.cursor is None,
        st.entries.len() > 0 ==> (st.cursor matches Some(i) && 0 <= i < st.entries.len()),
        forall|i: int, j: int|
            0 <= i < j < st.entries.len() ==> (#[trigger] st.entries[i]).num < (
            #[trigger] st.entries[j]).num,
        forall|i: int, k: int|
            0 <= i < st.entries.len() && 0 <= k < st.entries[i].units.len() ==> (
            #[trigger] st.entries[i].units[k]) != 0,
{
    assert forall|i: int, k: int|
        0 <= i < st.entries.len() && 0 <= k < st.entries[i].units.len() implies (
    #[trigger] st.entries[i].units[k]) != 0 by {
        assert(!st.entries[i].units.contains(0));
        assert(st.entries[i].units.contains(st.entries[i].units[k]));
    }
}

/// The lookup functions move the cursor and nothing else: to the newest entry, to the oldest,
/// to a given one.
pub proof fn law_lookups_move_only_the_cursor(st: HistoryState, i: int)
    requires
        st.valid(),
    ensures
        st.entries.len() > 0 ==> st.at_newest() == (HistoryState {
            cursor: Some(st.entries.len() - 1),
            ..st
        }),
        st.entries.len() > 0 ==> st.at_oldest() == (HistoryState { cursor: Some(0int), ..st }),
        st.entries.len() == 0 ==> st.at_newest() == st && st.at_oldest() == st,
        st.at(i) == (HistoryState { cursor: Some(i), ..st }),
{
}

/// A step of `n` entries toward older ones hands out the entry that lies `n` before the one
/// at the cursor and leaves the cursor there. Where there are not as many, nothing is handed
/// out and the cursor stands on the oldest. A step of none hands out nothing and stays.
pub proof fn law_steps_toward_older_entries(
    st: HistoryState,
    n: nat,
    after: HistoryState,
    r: Option<HistoryEvent>,
)
    requires
        st.valid(),
        st.steps_older(n, after, r),
    ensures
        st.entries.len() == 0 ==> r is None && after == st,
        st.cursor matches Some(i) ==> {
            &&& 0 < n <= i ==> after == (HistoryState { cursor: Some(i - n), ..st }) && (
            r matches Some(e) && e.num == st.entries[i - n].num && e.value@ == text_of(
                st.entries[i - n].units,
            ))
            &&& n > i ==> after == (HistoryState { cursor: Some(0int), ..st }) && r is None
            &&& n == 0 ==> after == st && r is None
        },
{
}

/// A step of `n` entries toward newer ones hands out the entry that lies `n` after the one
/// at the cursor and leaves the cursor there. Where there are not as many, nothing is handed
/// out and the cursor stands on the newest. A step of none hands out nothing and stays.
pub proof fn law_steps_toward_newer_entries(
    st: HistoryState,
    n: nat,
    after: HistoryState,
    r: Option<HistoryEvent>,
)
    requires
        st.valid(),
        st.steps_newer(n, after, r),
    ensures
        st.entries.len() == 0 ==> r is None && after == st,
        st.cursor matches Some(i) ==> {
            &&& 0 < n && i + n < st.entries.len() ==> after == (HistoryState {
                cursor: Some(i + n),
                ..st
            }) && (r matches Some(e) && e.num == st.entries[i + n].num && e.value@ == text_of(
                st.entries[i + n].units,
            ))
            &&& i + n >= st.entries.len() ==> after == (HistoryState {
                cursor: Some(st.entries.len() - 1),
                ..st
            }) && r is None
            &&& n == 0 ==> after == st && r is None
        },
{
}

/// Keeping fewer entries drops the oldest alone: those that stay are the newest, with their
/// numbers, in their order, and the cursor moves to the oldest of them where its entry goes.
pub proof fn law_resize_drops_only_the_oldest(st: HistoryState, limit: nat)
    requires
        st.valid(),
    ensures
        ({
            let after = st.resize(limit);
            let n = if st.entries.len() < limit {
                st.entries.len()
            } else {
                limit
            };
            &&& after.entries.len() == n
            &&& forall|k: int|
                0 < k <= n ==> #[trigger] st.entries[st.entries.len() - k] == after.entries[n - k]
            &&& after.limit == limit
            &&& after.unique == st.unique
            &&& after.last_num == st.last_num
            &&& n == 0 ==> after.cursor is None
            &&& n > 0 ==> (st.cursor matches Some(i) && if i >= st.entries.len() - n {
                after.cursor == Some(i - (st.entries.len() - n))
            } else {
                after.cursor == Some(0int)
            })
        }),
{
}

/// A new history keeps a hundred entries unless it is told otherwise.
pub proof fn law_default_size()
    ensures
        DEFAULT_HISTORY_SIZE == 100,
{
}

} // verus!
