//! The persisted aggregate: all notes keyed by id, the known tag names,
//! the scratchpad, and the logbook; with the prioritized orderings that the
//! board and list views read.
//!
//! Notes are held sorted by strictly increasing id, which models the map
//! from id to note of the reference behavior: ids are unique, lookup is by
//! id, and iteration order is id order.

use vstd::prelude::*;
use vstd::seq_lib::lemma_multiset_commutative;
use vstd::multiset::Multiset;
use crate::note::{Note, NoteView, Deadline, spec_final_score, DAY_RANGE};
use crate::text::{spec_contains_sub, lower_of, lowercase, str_chars, contains_sub};

verus! {

/// Free-text sections the user can scribble in and later turn into notes.
#[derive(Debug)]
pub struct ScratchPad {
    pub sections: Vec<String>,
}

/// One logbook day: the notes written under a calendar day.
#[derive(Debug)]
pub struct LogDay {
    pub day: i64,
    pub entries: Vec<Note>,
}

/// A free-standing logbook line: text with tag names.
#[derive(Debug)]
pub struct LogItem {
    pub text: String,
    pub tags: Vec<String>,
}

/// Which screen the host shows; the core only stores the choice.
#[derive(Clone, Copy, PartialEq, Eq, Structural, Debug)]
pub enum ViewMode {
    Board,
    List,
    Graph,
}

/// Which panels the host keeps open; the core only stores the flags.
#[derive(Clone, Copy, PartialEq, Eq, Structural, Debug, Default)]
pub struct UiState {
    pub settings_enabled: bool,
    pub scratchpad_enabled: bool,
    pub logbook_enabled: bool,
    pub tags_enabled: bool,
}

/// The root persisted aggregate.
#[derive(Debug)]
pub struct UserData {
    pub notes: Vec<Note>,
    pub tags: Vec<String>,
    pub scratchpad: ScratchPad,
    pub logbook: Vec<LogDay>,
}

pub ghost struct LogDayView {
    pub day: i64,
    pub entries: Seq<NoteView>,
}

pub ghost struct UserDataView {
    pub notes: Seq<NoteView>,
    pub tags: Seq<Seq<char>>,
    pub scratchpad: Seq<Seq<char>>,
    pub logbook: Seq<LogDayView>,
}

impl View for LogDay {
    type V = LogDayView;

    open spec fn view(&self) -> LogDayView {
        LogDayView { day: self.day, entries: self.entries.deep_view() }
    }
}

impl DeepView for LogDay {
    type V = LogDayView;

    open spec fn deep_view(&self) -> LogDayView {
        self@
    }
}

impl DeepView for Note {
    type V = NoteView;

    open spec fn deep_view(&self) -> NoteView {
        self@
    }
}

impl View for UserData {
    type V = UserDataView;

    open spec fn view(&self) -> UserDataView {
        UserDataView {
            notes: self.notes.deep_view(),
            tags: self.tags.deep_view(),
            scratchpad: self.scratchpad.sections.deep_view(),
            logbook: self.logbook.deep_view(),
        }
    }
}

impl UserDataView {
    /// Well-formedness: note ids strictly increase (so ids are unique and
    /// iteration order is id order), every note is well formed, and the
    /// logbook days strictly increase.
    pub open spec fn wf(self) -> bool {
        &&& forall|i: int, j: int|
            0 <= i < j < self.notes.len() ==> self.notes[i].id < self.notes[j].id
        &&& forall|i: int| 0 <= i < self.notes.len() ==> (#[trigger] self.notes[i]).wf()
        &&& forall|i: int, j: int|
            0 <= i < j < self.logbook.len() ==> self.logbook[i].day < self.logbook[j].day
        &&& forall|i: int|
            0 <= i < self.logbook.len() ==> -DAY_RANGE <= (#[trigger] self.logbook[i]).day
                <= DAY_RANGE
        &&& forall|i: int, j: int|
            0 <= i < self.logbook.len() && 0 <= j < self.logbook[i].entries.len() ==> (
            #[trigger] self.logbook[i].entries[j]).wf()
    }
}

/// Whether a note with the given id is stored.
pub open spec fn spec_has_note(u: UserDataView, id: u128) -> bool {
    exists|i: int| 0 <= i < u.notes.len() && (#[trigger] u.notes[i]).id == id
}

/// The stored note with the given id (meaningful when `spec_has_note`).
pub open spec fn spec_note_by_id(u: UserDataView, id: u128) -> NoteView {
    u.notes[choose|i: int| 0 <= i < u.notes.len() && (#[trigger] u.notes[i]).id == id]
}

impl UserData {
    /// An empty aggregate.
    pub fn new() -> (u: UserData)
        ensures
            u@.wf(),
            u@.notes.len() == 0,
            u@.tags.len() == 0,
            u@.scratchpad.len() == 0,
            u@.logbook.len() == 0,
    {
        let u = UserData {
            notes: Vec::new(),
            tags: Vec::new(),
            scratchpad: ScratchPad { sections: Vec::new() },
            logbook: Vec::new(),
        };
        proof {
            assert(u@.notes =~= Seq::<NoteView>::empty());
            assert(u@.tags =~= Seq::<Seq<char>>::empty());
            assert(u@.scratchpad =~= Seq::<Seq<char>>::empty());
            assert(u@.logbook =~= Seq::<LogDayView>::empty());
        }
        u
    }

    /// The stored note with the given id, if any.
    pub fn get_note(&self, id: u128) -> (r: Option<&Note>)
        ensures
            (r is Some) == spec_has_note(self@, id),
            r matches Some(n) ==> n@.id == id && self@.notes.contains(n@),
    {
        let mut i: usize = 0;
        while i < self.notes.len()
            invariant
                i <= self.notes.len(),
                forall|j: int| 0 <= j < i ==> (#[trigger] self@.notes[j]).id != id,
            decreases self.notes.len() - i,
        {
            if self.notes[i].id == id {
                proof {
                    assert(self@.notes[i as int] == self.notes@[i as int]@);
                }
                return Some(&self.notes[i]);
            }
            proof {
                assert(self@.notes[i as int] == self.notes@[i as int]@);
            }
            i = i + 1;
        }
        None
    }

    /// Stores the note under its id: an existing note with the same id is
    /// replaced, any other id keeps its note; ids stay sorted.
    pub fn insert_note(&mut self, n: Note)
        requires
            old(self)@.wf(),
            n@.wf(),
        ensures
            final(self)@.wf(),
            final(self)@.tags == old(self)@.tags,
            final(self)@.scratchpad == old(self)@.scratchpad,
            final(self)@.logbook == old(self)@.logbook,
            spec_has_note(final(self)@, n@.id),
            forall|i: int|
                0 <= i < final(self)@.notes.len() && (#[trigger] final(self)@.notes[i]).id
                    == n@.id ==> final(self)@.notes[i] == n@,
            forall|i: int|
                0 <= i < final(self)@.notes.len() ==> final(self)@.notes[i] == n@
                    || old(self)@.notes.contains(#[trigger] final(self)@.notes[i]),
            forall|i: int|
                0 <= i < old(self)@.notes.len() && (#[trigger] old(self)@.notes[i]).id != n@.id
                    ==> final(self)@.notes.contains(old(self)@.notes[i]),
    {
        let ghost u0 = self@;
        let id = n.id;
        let ghost nv = n@;
        let mut p: usize = 0;
        while p < self.notes.len() && self.notes[p].id < id
            invariant
                p <= self.notes.len(),
                self@ == u0,
                id == nv.id,
                forall|j: int| 0 <= j < p ==> (#[trigger] u0.notes[j]).id < nv.id,
            decreases self.notes.len() - p,
        {
            proof {
                assert(u0.notes[p as int] == self.notes@[p as int]@);
            }
            p = p + 1;
        }
        proof {
            assert(p < self.notes@.len() ==> u0.notes[p as int] == self.notes@[p as int]@);
        }
        let replace = p < self.notes.len() && self.notes[p].id == id;
        if replace {
            self.notes.remove(p);
        }
        let ghost mid = self.notes@;
        self.notes.insert(p, n);
        proof {
            assert(self@.logbook == u0.logbook);
            assert(self@.tags == u0.tags);
            let fin = self@.notes;
            let oldn = u0.notes;
            assert(fin.len() == oldn.len() + (if replace { 0int } else { 1 }));
            assert forall|i: int| 0 <= i < fin.len() implies fin[i] == (if i < p {
                oldn[i]
            } else if i == p {
                nv
            } else if replace {
                oldn[i]
            } else {
                oldn[i - 1]
            }) by {
                assert(fin[i] == self.notes@[i]@);
                if i < p {
                    assert(self.notes@[i] == mid[i]);
                } else if i > p {
                    assert(self.notes@[i] == mid[i - 1]);
                }
            }
            assert(replace ==> p < oldn.len() && oldn[p as int].id == nv.id);
            assert(!replace && p < oldn.len() ==> oldn[p as int].id > nv.id);
            // sortedness around position p
            assert forall|i: int, j: int| 0 <= i < j < fin.len() implies (#[trigger] fin[i]).id
                < (#[trigger] fin[j]).id by {
                if j < p {
                } else if j == p {
                    assert(fin[i] == oldn[i]);
                    assert(oldn[i].id < nv.id);
                } else if i < p {
                    if replace {
                        assert(fin[j] == oldn[j]);
                    } else {
                        assert(fin[j] == oldn[j - 1]);
                        if j - 1 == p {
                            assert(oldn[i].id < nv.id);
                            assert(oldn[p as int].id > nv.id);
                        }
                    }
                } else if i == p {
                    if replace {
                        assert(fin[j] == oldn[j]);
                        assert(oldn[p as int].id < oldn[j].id);
                    } else {
                        assert(fin[j] == oldn[j - 1]);
                        assert(oldn[p as int].id > nv.id);
                        if j - 1 > p {
                            assert(oldn[p as int].id < oldn[j - 1].id);
                        }
                    }
                } else {
                }
            }
            // every stored note is well formed
            assert forall|i: int| 0 <= i < fin.len() implies (#[trigger] fin[i]).wf() by {
                if i != p {
                    let w = if i < p || replace { i } else { i - 1 };
                    assert(oldn[w].wf());
                }
            }
            assert(spec_has_note(final(self)@, nv.id)) by {
                assert(fin[p as int] == nv);
            }
            assert forall|i: int|
                0 <= i < oldn.len() && (#[trigger] oldn[i]).id != nv.id implies fin.contains(
                oldn[i]) by {
                if i < p {
                    assert(fin[i] == oldn[i]);
                } else if replace {
                    if i > p {
                        assert(fin[i] == oldn[i]);
                    } else {
                        assert(oldn[p as int].id == nv.id);
                    }
                } else {
                    assert(fin[i + 1] == oldn[i]);
                }
            }
            assert forall|i: int|
                0 <= i < fin.len() && fin[i] != nv implies oldn.contains(
                #[trigger] fin[i]) by {
                if i < p {
                } else if i == p {
                } else if replace {
                } else {
                    assert(fin[i] == oldn[i - 1]);
                }
            }
        }
    }

    /// Removes the note with the given id, if stored; every other note
    /// keeps its place.
    pub fn delete_note(&mut self, id: u128)
        requires
            old(self)@.wf(),
        ensures
            final(self)@.wf(),
            final(self)@.tags == old(self)@.tags,
            final(self)@.scratchpad == old(self)@.scratchpad,
            final(self)@.logbook == old(self)@.logbook,
            !spec_has_note(final(self)@, id),
            forall|i: int|
                0 <= i < final(self)@.notes.len() ==> old(self)@.notes.contains(
                    #[trigger] final(self)@.notes[i]),
            forall|i: int|
                0 <= i < old(self)@.notes.len() && (#[trigger] old(self)@.notes[i]).id != id
                    ==> final(self)@.notes.contains(old(self)@.notes[i]),
    {
        let ghost u0 = self@;
        let mut p: usize = 0;
        while p < self.notes.len() && self.notes[p].id != id
            invariant
                p <= self.notes.len(),
                self@ == u0,
                forall|j: int| 0 <= j < p ==> (#[trigger] u0.notes[j]).id != id,
            decreases self.notes.len() - p,
        {
            proof {
                assert(u0.notes[p as int] == self.notes@[p as int]@);
            }
            p = p + 1;
        }
        if p < self.notes.len() {
            proof {
                assert(u0.notes[p as int] == self.notes@[p as int]@);
            }
            self.notes.remove(p);
            proof {
                assert(self@.logbook == u0.logbook);
                assert(self@.tags == u0.tags);
                let fin = self@.notes;
                let oldn = u0.notes;
                assert forall|i: int| 0 <= i < fin.len() implies fin[i] == (if i < p {
                    oldn[i]
                } else {
                    oldn[i + 1]
                }) by {
                    assert(fin[i] == self.notes@[i]@);
                }
                assert forall|i: int|
                    0 <= i < fin.len() implies (#[trigger] fin[i]).id != id by {
                    if i >= p {
                        assert(oldn[p as int].id < oldn[i + 1].id);
                    }
                }
                assert forall|i: int, j: int| 0 <= i < j < fin.len() implies (
                #[trigger] fin[i]).id < (#[trigger] fin[j]).id by {
                    let wi = if i < p { i } else { i + 1 };
                    let wj = if j < p { j } else { j + 1 };
                    assert(oldn[wi].id < oldn[wj].id);
                }
                assert forall|i: int| 0 <= i < fin.len() implies (#[trigger] fin[i]).wf() by {
                    let w = if i < p { i } else { i + 1 };
                    assert(oldn[w].wf());
                }
                assert forall|i: int|
                    0 <= i < oldn.len() && (#[trigger] oldn[i]).id != id implies fin.contains(
                    oldn[i]) by {
                    if i < p {
                        assert(fin[i] == oldn[i]);
                    } else if i > p {
                        assert(fin[i - 1] == oldn[i]);
                    }
                }
            }
        }
    }

    /// Creates a fresh note carrying the given tags (the active filter
    /// tags at creation time), stores it, and returns its id.
    pub fn create_note(&mut self, tags: Vec<String>) -> (id: u128)
        requires
            old(self)@.wf(),
            forall|i: int, j: int|
                0 <= i < j < tags.deep_view().len() ==> tags.deep_view()[i]
                    != tags.deep_view()[j],
        ensures
            final(self)@.wf(),
            spec_has_note(final(self)@, id),
            forall|i: int|
                0 <= i < final(self)@.notes.len() && (#[trigger] final(self)@.notes[i]).id == id
                    ==> final(self)@.notes[i].text.len() == 0
                    && final(self)@.notes[i].tags == tags.deep_view()
                    && final(self)@.notes[i].priority == 0
                    && final(self)@.notes[i].deadline == Deadline::Eternal
                    && !final(self)@.notes[i].complete,
            forall|i: int|
                0 <= i < old(self)@.notes.len() && (#[trigger] old(self)@.notes[i]).id != id
                    ==> final(self)@.notes.contains(old(self)@.notes[i]),
    {
        let mut n = Note::new();
        n.tags = tags;
        let id = n.id;
        self.insert_note(n);
        id
    }
}

/// Display order on scored pairs `(score, id)`: higher scores first, ties
/// broken by lower (older) id.
pub open spec fn spec_display_le(a: (i64, u128), b: (i64, u128)) -> bool {
    a.0 > b.0 || (a.0 == b.0 && a.1 <= b.1)
}

/// Display order between two stored notes, named by id.
pub open spec fn spec_display_before(u: UserDataView, today: int, id1: u128, id2: u128) -> bool {
    let s1 = spec_final_score(spec_note_by_id(u, id1), today);
    let s2 = spec_final_score(spec_note_by_id(u, id2), today);
    s1 > s2 || (s1 == s2 && id1 <= id2)
}

/// Whether the note carries one of the active filter tags (an empty filter
/// matches every note).
pub open spec fn spec_tag_match(n: NoteView, active: Seq<Seq<char>>) -> bool {
    active.len() == 0 || exists|i: int, j: int|
        0 <= i < n.tags.len() && 0 <= j < active.len() && #[trigger] n.tags[i]
            == #[trigger] active[j]
}

/// Whether the note's text matches the search filter, case-insensitively
/// (an empty filter matches every note).
pub open spec fn spec_filter_match(text: Seq<char>, filter: Seq<char>) -> bool {
    filter.len() == 0 || spec_contains_sub(lower_of(text), lower_of(filter))
}

/// Whether the board shows the note: not complete, tag filter matched,
/// search filter matched.
pub open spec fn spec_board_shows(n: NoteView, active: Seq<Seq<char>>, filter: Seq<char>) -> bool {
    !n.complete && spec_tag_match(n, active) && spec_filter_match(n.text, filter)
}

/// Whether the list shows the note: as the board, but complete notes stay.
pub open spec fn spec_list_shows(n: NoteView, active: Seq<Seq<char>>, filter: Seq<char>) -> bool {
    spec_tag_match(n, active) && spec_filter_match(n.text, filter)
}

/// Inserting anywhere adds exactly one occurrence to the multiset.
proof fn lemma_insert_to_multiset<A>(s: Seq<A>, p: int, x: A)
    requires
        0 <= p <= s.len(),
    ensures
        s.insert(p, x).to_multiset() == s.to_multiset().insert(x),
{
    broadcast use vstd::seq_lib::group_to_multiset_ensures;
    broadcast use vstd::multiset::group_multiset_axioms;

    let t = s.take(p);
    let k = s.skip(p);
    assert(s.insert(p, x) =~= t + (seq![x] + k));
    lemma_multiset_commutative(t, seq![x] + k);
    lemma_multiset_commutative(seq![x], k);
    assert(s =~= t + k);
    lemma_multiset_commutative(t, k);
    assert(seq![x] =~= Seq::empty().push(x));
    assert(seq![x].to_multiset() =~= Multiset::empty().insert(x));
    assert(s.insert(p, x).to_multiset() =~= s.to_multiset().insert(x));
}

fn pair_le(a: (i64, u128), b: (i64, u128)) -> (r: bool)
    ensures
        r == spec_display_le(a, b),
{
    a.0 > b.0 || (a.0 == b.0 && a.1 <= b.1)
}

/// Insertion sort by display order: the result holds the same pairs,
/// arranged so that higher scores come first and ties keep id order.
fn sort_pairs(input: &Vec<(i64, u128)>) -> (out: Vec<(i64, u128)>)
    ensures
        out@.len() == input@.len(),
        out@.to_multiset() == input@.to_multiset(),
        forall|a: int, b: int| 0 <= a < b < out@.len() ==> spec_display_le(out@[a], out@[b]),
{
    let mut out: Vec<(i64, u128)> = Vec::new();
    proof {
        broadcast use vstd::seq_lib::group_to_multiset_ensures;

        assert(input@.take(0) =~= Seq::<(i64, u128)>::empty());
        assert(out@.to_multiset() =~= input@.take(0).to_multiset());
    }
    let mut i: usize = 0;
    while i < input.len()
        invariant
            i <= input@.len(),
            out@.len() == i,
            out@.to_multiset() == input@.take(i as int).to_multiset(),
            forall|a: int, b: int| 0 <= a < b < out@.len() ==> spec_display_le(out@[a], out@[b]),
        decreases input@.len() - i,
    {
        let x = input[i];
        let mut q: usize = 0;
        while q < out.len() && pair_le(out[q], x)
            invariant
                q <= out@.len(),
                forall|j: int| 0 <= j < q ==> spec_display_le(out@[j], x),
            decreases out@.len() - q,
        {
            q = q + 1;
        }
        let ghost out0 = out@;
        out.insert(q, x);
        proof {
            broadcast use vstd::seq_lib::group_to_multiset_ensures;

            lemma_insert_to_multiset(out0, q as int, x);
            assert(input@.take(i + 1) =~= input@.take(i as int).push(input@[i as int]));
            assert forall|a: int, b: int|
                0 <= a < b < out@.len() implies spec_display_le(out@[a], out@[b]) by {
                if b < q {
                    assert(out@[a] == out0[a] && out@[b] == out0[b]);
                } else if a < q && b == q {
                    assert(out@[a] == out0[a]);
                } else if a < q && b > q {
                    assert(out@[a] == out0[a] && out@[b] == out0[b - 1]);
                } else if a == q {
                    assert(out@[b] == out0[b - 1]);
                    assert(!spec_display_le(out0[q as int], x));
                    if b - 1 > q {
                        assert(spec_display_le(out0[q as int], out0[b - 1]));
                    }
                } else {
                    assert(out@[a] == out0[a - 1] && out@[b] == out0[b - 1]);
                }
            }
        }
        i = i + 1;
    }
    proof {
        assert(input@.take(input@.len() as int) =~= input@);
    }
    out
}

fn pairs_to_ids(sorted: &Vec<(i64, u128)>) -> (order: Vec<u128>)
    ensures
        order@.len() == sorted@.len(),
        forall|j: int| 0 <= j < order@.len() ==> order@[j] == (#[trigger] sorted@[j]).1,
{
    let mut order: Vec<u128> = Vec::new();
    let mut j: usize = 0;
    while j < sorted.len()
        invariant
            j <= sorted@.len(),
            order@.len() == j,
            forall|k: int| 0 <= k < j ==> order@[k] == (#[trigger] sorted@[k]).1,
        decreases sorted@.len() - j,
    {
        order.push(sorted[j].1);
        j = j + 1;
    }
    order
}

/// The stored note with a stored id is the one `choose` picks.
proof fn lemma_note_by_id(u: UserDataView, k: int)
    requires
        u.wf(),
        0 <= k < u.notes.len(),
    ensures
        spec_note_by_id(u, u.notes[k].id) == u.notes[k],
{
    let id = u.notes[k].id;
    assert(spec_has_note(u, id));
    let c = choose|i: int| 0 <= i < u.notes.len() && (#[trigger] u.notes[i]).id == id;
    if c != k {
        if c < k {
            assert(u.notes[c].id < u.notes[k].id);
        } else {
            assert(u.notes[k].id < u.notes[c].id);
        }
    }
}

/// Whether some scored pair carries the given id.
pub open spec fn spec_scored_has(scored: Seq<(i64, u128)>, id: u128) -> bool {
    exists|k: int| 0 <= k < scored.len() && (#[trigger] scored[k]).1 == id
}

/// From sorted scored pairs whose entries each name a stored note and its
/// score, the extracted id order lists stored notes in display order
/// without repeats, and holds exactly the scored ids.
proof fn lemma_order_glue(
    u: UserDataView,
    today: int,
    scored: Seq<(i64, u128)>,
    sorted: Seq<(i64, u128)>,
    order: Seq<u128>,
)
    requires
        u.wf(),
        forall|k: int| 0 <= k < scored.len() ==> spec_has_note(u, (#[trigger] scored[k]).1),
        forall|k: int|
            0 <= k < scored.len() ==> (#[trigger] scored[k]).0 == spec_final_score(
                spec_note_by_id(u, scored[k].1),
                today,
            ),
        forall|k1: int, k2: int|
            0 <= k1 < k2 < scored.len() ==> (#[trigger] scored[k1]).1 != (#[trigger] scored[k2]).1,
        sorted.to_multiset() == scored.to_multiset(),
        sorted.len() == scored.len(),
        forall|a: int, b: int| 0 <= a < b < sorted.len() ==> spec_display_le(sorted[a], sorted[b]),
        order.len() == sorted.len(),
        forall|j: int| 0 <= j < order.len() ==> order[j] == (#[trigger] sorted[j]).1,
    ensures
        forall|j: int| 0 <= j < order.len() ==> spec_has_note(u, #[trigger] order[j]),
        forall|a: int, b: int|
            0 <= a < b < order.len() ==> spec_display_before(u, today, order[a], order[b]),
        forall|a: int, b: int| 0 <= a < b < order.len() ==> order[a] != order[b],
        forall|k: int| 0 <= k < scored.len() ==> order.contains((#[trigger] scored[k]).1),
        forall|j: int| 0 <= j < order.len() ==> spec_scored_has(scored, #[trigger] order[j]),
{
    broadcast use vstd::seq_lib::group_to_multiset_ensures;

    // every sorted pair is one of the scored pairs, and vice versa
    assert forall|j: int| 0 <= j < sorted.len() implies scored.contains(#[trigger] sorted[j]) by {
        assert(sorted.contains(sorted[j]));
        assert(sorted.to_multiset().count(sorted[j]) > 0);
        assert(scored.to_multiset().count(sorted[j]) > 0);
    }
    assert forall|k: int| 0 <= k < scored.len() implies sorted.contains(#[trigger] scored[k]) by {
        assert(scored.contains(scored[k]));
        assert(scored.to_multiset().count(scored[k]) > 0);
        assert(sorted.to_multiset().count(scored[k]) > 0);
    }
    assert forall|k: int|
        0 <= k < scored.len() implies order.contains((#[trigger] scored[k]).1) by {
        let j = choose|j: int| 0 <= j < sorted.len() && sorted[j] == scored[k];
        assert(order[j] == sorted[j].1);
    }
    assert forall|j: int| 0 <= j < order.len() implies spec_has_note(u, #[trigger] order[j]) by {
        let k = choose|k: int| 0 <= k < scored.len() && scored[k] == sorted[j];
        assert(spec_has_note(u, scored[k].1));
    }
    assert forall|j: int|
        0 <= j < order.len() implies spec_scored_has(scored, #[trigger] order[j]) by {
        let k = choose|k: int| 0 <= k < scored.len() && scored[k] == sorted[j];
        assert(scored[k].1 == order[j]);
    }
    assert forall|a: int, b: int|
        0 <= a < b < order.len() implies spec_display_before(u, today, order[a], order[b]) by {
        let ka = choose|k: int| 0 <= k < scored.len() && scored[k] == sorted[a];
        let kb = choose|k: int| 0 <= k < scored.len() && scored[k] == sorted[b];
        assert(scored[ka].0 == spec_final_score(spec_note_by_id(u, scored[ka].1), today));
        assert(scored[kb].0 == spec_final_score(spec_note_by_id(u, scored[kb].1), today));
        assert(spec_display_le(sorted[a], sorted[b]));
    }
    assert(scored.no_duplicates()) by {
        assert forall|k1: int, k2: int|
            0 <= k1 < scored.len() && 0 <= k2 < scored.len() && k1 != k2 implies scored[k1]
            != scored[k2] by {
            if k1 < k2 {
                assert(scored[k1].1 != scored[k2].1);
            } else {
                assert(scored[k2].1 != scored[k1].1);
            }
        }
    }
    scored.lemma_multiset_has_no_duplicates();
    sorted.lemma_multiset_has_no_duplicates_conv();
    assert forall|a: int, b: int| 0 <= a < b < order.len() implies order[a] != order[b] by {
        if order[a] == order[b] {
            let ka = choose|k: int| 0 <= k < scored.len() && scored[k] == sorted[a];
            let kb = choose|k: int| 0 <= k < scored.len() && scored[k] == sorted[b];
            assert(scored[ka].0 == spec_final_score(spec_note_by_id(u, scored[ka].1), today));
            assert(scored[kb].0 == spec_final_score(spec_note_by_id(u, scored[kb].1), today));
            assert(sorted[a].1 == sorted[b].1);
            assert(sorted[a].0 == sorted[b].0);
            assert(sorted.no_duplicates());
        }
    }
}

impl UserData {
    /// The ids of all stored notes, ordered for display: by final score
    /// descending, ties broken by id ascending (older notes first).
    pub fn list_notes(&self, today: i64) -> (order: Vec<u128>)
        requires
            self@.wf(),
            -DAY_RANGE <= today <= DAY_RANGE,
        ensures
            order@.len() == self@.notes.len(),
            forall|i: int|
                0 <= i < self@.notes.len() ==> order@.contains(
                    (#[trigger] self@.notes[i]).id),
            forall|j: int| 0 <= j < order@.len() ==> spec_has_note(self@, #[trigger] order@[j]),
            forall|a: int, b: int|
                0 <= a < b < order@.len() ==> spec_display_before(
                    self@,
                    today as int,
                    order@[a],
                    order@[b],
                ),
            forall|a: int, b: int| 0 <= a < b < order@.len() ==> order@[a] != order@[b],
    {
        let mut scored: Vec<(i64, u128)> = Vec::new();
        let mut i: usize = 0;
        while i < self.notes.len()
            invariant
                self@.wf(),
                -DAY_RANGE <= today <= DAY_RANGE,
                i <= self@.notes.len(),
                scored@.len() == i,
                forall|k: int|
                    0 <= k < i ==> (#[trigger] scored@[k]).1 == self@.notes[k].id
                        && scored@[k].0 == spec_final_score(self@.notes[k], today as int),
            decreases self@.notes.len() - i,
        {
            proof {
                assert(self@.notes[i as int] == self.notes@[i as int]@);
                assert(self@.notes[i as int].wf());
            }
            let s = self.notes[i].get_final_prio(today);
            scored.push((s, self.notes[i].id));
            i = i + 1;
        }
        let sorted = sort_pairs(&scored);
        let order = pairs_to_ids(&sorted);
        proof {
            assert forall|k: int|
                0 <= k < scored@.len() implies spec_has_note(
                self@,
                (#[trigger] scored@[k]).1,
            ) by {
                assert(scored@[k].1 == self@.notes[k].id);
            }
            assert forall|k: int|
                0 <= k < scored@.len() implies (#[trigger] scored@[k]).0 == spec_final_score(
                spec_note_by_id(self@, scored@[k].1),
                today as int,
            ) by {
                lemma_note_by_id(self@, k);
            }
            assert forall|k1: int, k2: int|
                0 <= k1 < k2 < scored@.len() implies (#[trigger] scored@[k1]).1 != (
            #[trigger] scored@[k2]).1 by {
                assert(self@.notes[k1].id < self@.notes[k2].id);
            }
            lemma_order_glue(self@, today as int, scored@, sorted@, order@);
            assert forall|i2: int|
                0 <= i2 < self@.notes.len() implies order@.contains(
                (#[trigger] self@.notes[i2]).id) by {
                assert(scored@[i2].1 == self@.notes[i2].id);
                assert(order@.contains(scored@[i2].1));
            }
        }
        order
    }
}

/// Whether a view with this `keep_complete` policy shows the note.
pub open spec fn spec_shows(
    n: NoteView,
    active: Seq<Seq<char>>,
    filter: Seq<char>,
    keep_complete: bool,
) -> bool {
    (keep_complete || !n.complete) && spec_tag_match(n, active) && spec_filter_match(
        n.text,
        filter,
    )
}

fn tag_match(n: &Note, active: &Vec<String>) -> (r: bool)
    ensures
        r == spec_tag_match(n@, active.deep_view()),
{
    if active.len() == 0 {
        return true;
    }
    let mut i: usize = 0;
    while i < n.tags.len()
        invariant
            i <= n.tags.len(),
            forall|ti: int, aj: int|
                0 <= ti < i && 0 <= aj < active.deep_view().len() ==> #[trigger] n@.tags[ti]
                    != #[trigger] active.deep_view()[aj],
        decreases n.tags.len() - i,
    {
        let mut j: usize = 0;
        while j < active.len()
            invariant
                i < n.tags.len(),
                j <= active.len(),
                forall|aj: int|
                    0 <= aj < j ==> n@.tags[i as int] != #[trigger] active.deep_view()[aj],
            decreases active.len() - j,
        {
            if n.tags[i].eq(&active[j]) {
                proof {
                    assert(n@.tags[i as int] == n.tags@[i as int]@);
                    assert(active.deep_view()[j as int] == active@[j as int]@);
                }
                return true;
            }
            proof {
                assert(n@.tags[i as int] == n.tags@[i as int]@);
                assert(active.deep_view()[j as int] == active@[j as int]@);
            }
            j = j + 1;
        }
        i = i + 1;
    }
    false
}

impl UserData {
    /// The ids of the notes a filtered view shows, in display order:
    /// score descending, ties by id. `keep_complete` distinguishes the
    /// list view (keeps completed notes) from the board (drops them).
    fn filtered_order(
        &self,
        today: i64,
        active: &Vec<String>,
        filter: &str,
        keep_complete: bool,
    ) -> (order: Vec<u128>)
        requires
            self@.wf(),
            -DAY_RANGE <= today <= DAY_RANGE,
        ensures
            forall|m: int|
                0 <= m < self@.notes.len() ==> (order@.contains((#[trigger] self@.notes[m]).id)
                    <==> spec_shows(self@.notes[m], active.deep_view(), filter@, keep_complete)),
            forall|j: int| 0 <= j < order@.len() ==> spec_has_note(self@, #[trigger] order@[j]),
            forall|a: int, b: int|
                0 <= a < b < order@.len() ==> spec_display_before(
                    self@,
                    today as int,
                    order@[a],
                    order@[b],
                ),
            forall|a: int, b: int| 0 <= a < b < order@.len() ==> order@[a] != order@[b],
    {
        let ghost av = active.deep_view();
        let ghost fv = filter@;
        let fl = lowercase(filter);
        let flc = str_chars(fl.as_str());
        let mut scored: Vec<(i64, u128)> = Vec::new();
        let mut i: usize = 0;
        while i < self.notes.len()
            invariant
                self@.wf(),
                -DAY_RANGE <= today <= DAY_RANGE,
                i <= self@.notes.len(),
                av == active.deep_view(),
                fv == filter@,
                flc@ == lower_of(fv),
                forall|k1: int, k2: int|
                    0 <= k1 < k2 < scored@.len() ==> (#[trigger] scored@[k1]).1 < (
                    #[trigger] scored@[k2]).1,
                forall|k: int|
                    0 <= k < scored@.len() ==> i > 0 && (#[trigger] scored@[k]).1
                        <= self@.notes[i - 1].id,
                forall|k: int|
                    0 <= k < scored@.len() ==> spec_has_note(self@, (#[trigger] scored@[k]).1),
                forall|k: int|
                    0 <= k < scored@.len() ==> (#[trigger] scored@[k]).0 == spec_final_score(
                        spec_note_by_id(self@, scored@[k].1),
                        today as int,
                    ),
                forall|k: int|
                    0 <= k < scored@.len() ==> spec_shows(
                        spec_note_by_id(self@, (#[trigger] scored@[k]).1),
                        av,
                        fv,
                        keep_complete,
                    ),
                forall|m: int|
                    0 <= m < i && spec_shows(#[trigger] self@.notes[m], av, fv, keep_complete)
                        ==> spec_scored_has(scored@, self@.notes[m].id),
            decreases self@.notes.len() - i,
        {
            proof {
                assert(self@.notes[i as int] == self.notes@[i as int]@);
                assert(self@.notes[i as int].wf());
            }
            let n = &self.notes[i];
            let shown: bool = (keep_complete || !n.complete) && tag_match(n, active) && (
            filter.is_empty() || {
                let tl = lowercase(n.text.as_str());
                let tlc = str_chars(tl.as_str());
                contains_sub(&tlc, &flc)
            });
            let ghost shown_spec = spec_shows(self@.notes[i as int], av, fv, keep_complete);
            proof {
                assert(n@ == self@.notes[i as int]);
                assert(shown == shown_spec);
            }
            if shown {
                let s = n.get_final_prio(today);
                let ghost scored0 = scored@;
                scored.push((s, n.id));
                proof {
                    lemma_note_by_id(self@, i as int);
                    assert(scored@[scored@.len() - 1].1 == self@.notes[i as int].id);
                    assert forall|m: int|
                        0 <= m < i + 1 && spec_shows(
                            #[trigger] self@.notes[m],
                            av,
                            fv,
                            keep_complete,
                        ) implies spec_scored_has(scored@, self@.notes[m].id) by {
                        if m < i {
                            let k = choose|k: int|
                                0 <= k < scored0.len() && (#[trigger] scored0[k]).1
                                    == self@.notes[m].id;
                            assert(scored@[k].1 == self@.notes[m].id);
                        } else {
                            assert(scored@[scored@.len() - 1].1 == self@.notes[m].id);
                        }
                    }
                }
            } else {
                proof {
                    assert(!shown_spec);
                }
            }
            i = i + 1;
        }
        let sorted = sort_pairs(&scored);
        let order = pairs_to_ids(&sorted);
        proof {
            lemma_order_glue(self@, today as int, scored@, sorted@, order@);
            assert forall|m: int|
                0 <= m < self@.notes.len() implies (order@.contains(
                (#[trigger] self@.notes[m]).id) <==> spec_shows(
                self@.notes[m],
                av,
                fv,
                keep_complete,
            )) by {
                if spec_shows(self@.notes[m], av, fv, keep_complete) {
                    assert(spec_scored_has(scored@, self@.notes[m].id));
                    let k = choose|k: int|
                        0 <= k < scored@.len() && (#[trigger] scored@[k]).1 == self@.notes[m].id;
                    assert(order@.contains(scored@[k].1));
                }
                if order@.contains(self@.notes[m].id) {
                    let j = choose|j: int|
                        0 <= j < order@.len() && order@[j] == self@.notes[m].id;
                    assert(spec_scored_has(scored@, order@[j]));
                    let k = choose|k: int|
                        0 <= k < scored@.len() && (#[trigger] scored@[k]).1 == order@[j];
                    lemma_note_by_id(self@, m);
                    assert(spec_shows(
                        spec_note_by_id(self@, scored@[k].1),
                        av,
                        fv,
                        keep_complete,
                    ));
                }
            }
        }
        order
    }

    /// The ids the board shows, in display order: completed notes are
    /// excluded, the active tags and the search filter are applied.
    pub fn board_note_ids(&self, today: i64, active: &Vec<String>, filter: &str) -> (order: Vec<
        u128,
    >)
        requires
            self@.wf(),
            -DAY_RANGE <= today <= DAY_RANGE,
        ensures
            forall|m: int|
                0 <= m < self@.notes.len() ==> (order@.contains((#[trigger] self@.notes[m]).id)
                    <==> spec_board_shows(self@.notes[m], active.deep_view(), filter@)),
            forall|j: int| 0 <= j < order@.len() ==> spec_has_note(self@, #[trigger] order@[j]),
            forall|a: int, b: int|
                0 <= a < b < order@.len() ==> spec_display_before(
                    self@,
                    today as int,
                    order@[a],
                    order@[b],
                ),
            forall|a: int, b: int| 0 <= a < b < order@.len() ==> order@[a] != order@[b],
    {
        self.filtered_order(today, active, filter, false)
    }

    /// The ids the list view shows, in display order: like the board, but
    /// completed notes stay visible.
    pub fn list_note_ids(&self, today: i64, active: &Vec<String>, filter: &str) -> (order: Vec<
        u128,
    >)
        requires
            self@.wf(),
            -DAY_RANGE <= today <= DAY_RANGE,
        ensures
            forall|m: int|
                0 <= m < self@.notes.len() ==> (order@.contains((#[trigger] self@.notes[m]).id)
                    <==> spec_list_shows(self@.notes[m], active.deep_view(), filter@)),
            forall|j: int| 0 <= j < order@.len() ==> spec_has_note(self@, #[trigger] order@[j]),
            forall|a: int, b: int|
                0 <= a < b < order@.len() ==> spec_display_before(
                    self@,
                    today as int,
                    order@[a],
                    order@[b],
                ),
            forall|a: int, b: int| 0 <= a < b < order@.len() ==> order@[a] != order@[b],
    {
        self.filtered_order(today, active, filter, true)
    }
}

impl UserData {
    /// Appends a tag name to the known-tag list.
    pub fn add_tag(&mut self, t: String)
        ensures
            final(self)@.tags == old(self)@.tags.push(t@),
            final(self)@.notes == old(self)@.notes,
            final(self)@.scratchpad == old(self)@.scratchpad,
            final(self)@.logbook == old(self)@.logbook,
            old(self)@.wf() ==> final(self)@.wf(),
    {
        let ghost t0 = self@.tags;
        self.tags.push(t);
        proof {
            assert forall|j: int| 0 <= j < self@.tags.len() implies #[trigger] self@.tags[j]
                == t0.push(t@)[j] by {
                if j < t0.len() {
                    assert(self.tags@[j] == old(self).tags@[j]);
                }
            }
            assert(self@.tags =~= t0.push(t@));
            assert(self@.notes =~= old(self)@.notes);
        }
    }

    /// Removes the tag at `idx` from the known-tag list and takes its
    /// name off every note; every note keeps its other fields and its
    /// other tags, and the collection stays well formed.
    pub fn delete_tag(&mut self, idx: usize)
        requires
            old(self)@.wf(),
            idx < old(self)@.tags.len(),
        ensures
            final(self)@.wf(),
            final(self)@.tags == old(self)@.tags.remove(idx as int),
            final(self)@.scratchpad == old(self)@.scratchpad,
            final(self)@.logbook == old(self)@.logbook,
            final(self)@.notes.len() == old(self)@.notes.len(),
            forall|i: int|
                0 <= i < final(self)@.notes.len() ==> #[trigger] final(self)@.notes[i]
                    == (NoteView { tags: final(self)@.notes[i].tags, ..old(self)@.notes[i] }),
            forall|i: int, x: Seq<char>|
                0 <= i < final(self)@.notes.len() ==> (#[trigger] final(self)@.notes[i].tags
                    .contains(x) <==> (old(self)@.notes[i].tags.contains(x) && x != old(
                self)@.tags[idx as int])),
    {
        let ghost u0 = self@;
        let name = clone_tag(&self.tags, idx);
        self.tags.remove(idx);
        let ghost mid = self@;
        let mut i: usize = 0;
        while i < self.notes.len()
            invariant
                i <= self.notes@.len(),
                u0.wf(),
                u0 == old(self)@,
                name@ == u0.tags[idx as int],
                self@.tags == mid.tags,
                mid.tags == u0.tags.remove(idx as int),
                self@.scratchpad == u0.scratchpad,
                self@.logbook == u0.logbook,
                self@.notes.len() == u0.notes.len(),
                forall|k: int|
                    i <= k < self@.notes.len() ==> #[trigger] self@.notes[k] == u0.notes[k],
                forall|k: int|
                    0 <= k < i ==> #[trigger] self@.notes[k] == (NoteView {
                        tags: self@.notes[k].tags,
                        ..u0.notes[k]
                    }) && self@.notes[k].wf(),
                forall|k: int, x: Seq<char>|
                    0 <= k < i ==> ((#[trigger] self@.notes[k].tags.contains(x)) <==> (
                    u0.notes[k].tags.contains(x) && x != u0.tags[idx as int])),
            decreases self.notes@.len() - i,
        {
            let ghost dstart = self@.notes;
            let ghost vstart = self.notes@;
            let mut n = self.notes.remove(i);
            proof {
                assert(n@ == dstart[i as int]);
                assert(dstart[i as int] == u0.notes[i as int]);
                assert(n@.wf());
            }
            n.remove_tag(&name);
            let ghost nv2 = n@;
            self.notes.insert(i, n);
            proof {
                assert forall|k: int|
                    0 <= k < self@.notes.len() implies #[trigger] self@.notes[k] == (if k
                    == i as int {
                    nv2
                } else {
                    dstart[k]
                }) by {
                    if k < i {
                        assert(self.notes@[k] == vstart[k]);
                    } else if k > i {
                        assert(self.notes@[k] == vstart.remove(i as int)[k - 1]);
                        assert(vstart.remove(i as int)[k - 1] == vstart[k]);
                    }
                }
            }
            i = i + 1;
        }
    }
}

/// Every tag name listed at or after `from` is carried by some note.
pub open spec fn spec_tags_from_notes(tags: Seq<Seq<char>>, from: int, notes: Seq<NoteView>) -> bool {
    forall|k: int| #![trigger tags[k]]
        from <= k < tags.len() ==> exists|a: int, b: int|
            0 <= a < notes.len() && 0 <= b < notes[a].tags.len() && tags[k]
                == #[trigger] notes[a].tags[b]
}

impl UserData {
    /// Renames the tag at `idx`: the list entry takes the new name, and
    /// every note that carried the old name carries the new name instead;
    /// notes keep their other fields and other tags.
    pub fn rename_tag(&mut self, idx: usize, new_name: String)
        requires
            old(self)@.wf(),
            idx < old(self)@.tags.len(),
        ensures
            final(self)@.wf(),
            final(self)@.tags == old(self)@.tags.update(idx as int, new_name@),
            final(self)@.scratchpad == old(self)@.scratchpad,
            final(self)@.logbook == old(self)@.logbook,
            final(self)@.notes.len() == old(self)@.notes.len(),
            forall|i: int|
                0 <= i < final(self)@.notes.len() ==> #[trigger] final(self)@.notes[i]
                    == (NoteView { tags: final(self)@.notes[i].tags, ..old(self)@.notes[i] }),
            forall|i: int, x: Seq<char>|
                0 <= i < final(self)@.notes.len() && x != old(self)@.tags[idx as int] && x
                    != new_name@ ==> (#[trigger] final(self)@.notes[i].tags.contains(x) <==> old(
                self)@.notes[i].tags.contains(x)),
            forall|i: int|
                0 <= i < final(self)@.notes.len() ==> (#[trigger] final(self)@.notes[i].tags
                    .contains(new_name@) <==> (old(self)@.notes[i].tags.contains(new_name@)
                    || old(self)@.notes[i].tags.contains(old(self)@.tags[idx as int]))),
            forall|i: int|
                0 <= i < final(self)@.notes.len() && new_name@ != old(self)@.tags[idx as int]
                    ==> !(#[trigger] final(self)@.notes[i].tags.contains(
                    old(self)@.tags[idx as int],
                )),
    {
        let ghost u0 = self@;
        let old_name = clone_tag(&self.tags, idx);
        self.tags.remove(idx);
        self.tags.insert(idx, crate::text::to_string_of(new_name.as_str()));
        proof {
            assert forall|k: int| 0 <= k < self@.tags.len() implies #[trigger] self@.tags[k]
                == u0.tags.update(idx as int, new_name@)[k] by {
                if k < idx {
                    assert(self.tags@[k] == old(self).tags@.remove(idx as int)[k]);
                } else if k > idx {
                    assert(self.tags@[k] == old(self).tags@.remove(idx as int)[k - 1]);
                }
            }
            assert(self@.tags =~= u0.tags.update(idx as int, new_name@));
        }
        let ghost tags_mid = self@.tags;
        let mut i: usize = 0;
        while i < self.notes.len()
            invariant
                i <= self.notes@.len(),
                u0.wf(),
                u0 == old(self)@,
                old_name@ == u0.tags[idx as int],
                new_name@ == new_name@,
                self@.tags == tags_mid,
                self@.scratchpad == u0.scratchpad,
                self@.logbook == u0.logbook,
                self@.notes.len() == u0.notes.len(),
                forall|k: int|
                    i <= k < self@.notes.len() ==> #[trigger] self@.notes[k] == u0.notes[k],
                forall|k: int|
                    0 <= k < i ==> #[trigger] self@.notes[k] == (NoteView {
                        tags: self@.notes[k].tags,
                        ..u0.notes[k]
                    }) && self@.notes[k].wf(),
                forall|k: int, x: Seq<char>|
                    0 <= k < i && x != u0.tags[idx as int] && x != new_name@ ==> (
                    #[trigger] self@.notes[k].tags.contains(x) <==> u0.notes[k].tags.contains(
                        x,
                    )),
                forall|k: int|
                    0 <= k < i ==> (#[trigger] self@.notes[k].tags.contains(new_name@) <==> (
                    u0.notes[k].tags.contains(new_name@) || u0.notes[k].tags.contains(
                        u0.tags[idx as int],
                    ))),
                forall|k: int|
                    0 <= k < i && new_name@ != u0.tags[idx as int] ==> !(
                    #[trigger] self@.notes[k].tags.contains(u0.tags[idx as int])),
            decreases self.notes@.len() - i,
        {
            let ghost dstart = self@.notes;
            let ghost vstart = self.notes@;
            let mut n = self.notes.remove(i);
            proof {
                assert(n@ == dstart[i as int]);
                assert(dstart[i as int] == u0.notes[i as int]);
                assert(n@.wf());
            }
            let had = n.has_tag(&old_name);
            if had {
                n.remove_tag(&old_name);
                let ghost mid_tags = n@.tags;
                n.add_tag(crate::text::to_string_of(new_name.as_str()));
                proof {
                    assert forall|x: Seq<char>|
                        #[trigger] n@.tags.contains(x) implies (mid_tags.contains(x) || x
                        == new_name@) by {
                        if n@.tags != mid_tags {
                            let w = choose|w: int|
                                0 <= w < n@.tags.len() && n@.tags[w] == x;
                            if w < mid_tags.len() {
                                assert(mid_tags[w] == x);
                            }
                        }
                    }
                    assert forall|x: Seq<char>|
                        mid_tags.contains(x) || x == new_name@ implies #[trigger] n@
                        .tags.contains(x) by {
                        if mid_tags.contains(x) {
                            let w = choose|w: int|
                                0 <= w < mid_tags.len() && mid_tags[w] == x;
                            assert(n@.tags[w] == x);
                        } else {
                            if mid_tags.contains(new_name@) {
                            } else {
                                assert(n@.tags[n@.tags.len() - 1] == new_name@);
                            }
                        }
                    }
                }
            }
            let ghost nv2 = n@;
            self.notes.insert(i, n);
            proof {
                assert forall|k: int|
                    0 <= k < self@.notes.len() implies #[trigger] self@.notes[k] == (if k
                    == i as int {
                    nv2
                } else {
                    dstart[k]
                }) by {
                    if k < i {
                        assert(self.notes@[k] == vstart[k]);
                    } else if k > i {
                        assert(self.notes@[k] == vstart.remove(i as int)[k - 1]);
                        assert(vstart.remove(i as int)[k - 1] == vstart[k]);
                    }
                }
            }
            i = i + 1;
        }
    }
}

fn tags_contain(tags: &Vec<String>, t: &String) -> (b: bool)
    ensures
        b == tags.deep_view().contains(t@),
{
    let mut i: usize = 0;
    while i < tags.len()
        invariant
            i <= tags@.len(),
            forall|k: int| 0 <= k < i ==> #[trigger] tags.deep_view()[k] != t@,
        decreases tags@.len() - i,
    {
        if tags[i].eq(t) {
            proof {
                assert(tags.deep_view()[i as int] == tags@[i as int]@);
            }
            return true;
        }
        proof {
            assert(tags.deep_view()[i as int] == tags@[i as int]@);
        }
        i = i + 1;
    }
    proof {
        if tags.deep_view().contains(t@) {
            let w = choose|k: int| 0 <= k < tags.deep_view().len() && tags.deep_view()[k] == t@;
            assert(tags.deep_view()[w] != t@);
        }
    }
    false
}

impl UserData {
    /// Registers every tag that some note carries but the known-tag list
    /// misses, appending each in the order encountered; the existing list
    /// stays as a prefix, and nothing not carried by a note is added.
    pub fn add_missing_tags(&mut self)
        requires
            old(self)@.wf(),
        ensures
            final(self)@.wf(),
            final(self)@.notes == old(self)@.notes,
            final(self)@.scratchpad == old(self)@.scratchpad,
            final(self)@.logbook == old(self)@.logbook,
            final(self)@.tags.len() >= old(self)@.tags.len(),
            final(self)@.tags.take(old(self)@.tags.len() as int) == old(self)@.tags,
            forall|a: int, b: int|
                0 <= a < final(self)@.notes.len() && 0 <= b < final(self)@.notes[a].tags.len()
                    ==> final(self)@.tags.contains(#[trigger] final(self)@.notes[a].tags[b]),
            spec_tags_from_notes(
                final(self)@.tags,
                old(self)@.tags.len() as int,
                final(self)@.notes,
            ),
    {
        let ghost u0 = self@;
        let ghost old_len = self@.tags.len();
        let mut i: usize = 0;
        while i < self.notes.len()
            invariant
                i <= self.notes@.len(),
                u0 == old(self)@,
                u0.wf(),
                self@.notes == u0.notes,
                self@.scratchpad == u0.scratchpad,
                self@.logbook == u0.logbook,
                self@.tags.len() >= old_len,
                old_len == u0.tags.len(),
                self@.tags.take(old_len as int) == u0.tags,
                forall|a: int, b: int|
                    0 <= a < i && 0 <= b < self@.notes[a].tags.len() ==> self@.tags.contains(
                        #[trigger] self@.notes[a].tags[b],
                    ),
                spec_tags_from_notes(self@.tags, old_len as int, self@.notes),
            decreases self.notes@.len() - i,
        {
            let tag_count = self.notes[i].tags.len();
            let mut j: usize = 0;
            while j < tag_count
                invariant
                    i < self.notes@.len(),
                    j <= tag_count,
                    tag_count == self@.notes[i as int].tags.len(),
                    u0 == old(self)@,
                    u0.wf(),
                    self@.notes == u0.notes,
                    self@.scratchpad == u0.scratchpad,
                    self@.logbook == u0.logbook,
                    self@.tags.len() >= old_len,
                    old_len == u0.tags.len(),
                    self@.tags.take(old_len as int) == u0.tags,
                    forall|a: int, b: int|
                        0 <= a < i && 0 <= b < self@.notes[a].tags.len() ==> self@.tags.contains(
                            #[trigger] self@.notes[a].tags[b],
                        ),
                    forall|b: int|
                        0 <= b < j ==> self@.tags.contains(
                            #[trigger] self@.notes[i as int].tags[b],
                        ),
                    spec_tags_from_notes(self@.tags, old_len as int, self@.notes),
                decreases tag_count - j,
            {
                let t = crate::text::to_string_of(self.notes[i].tags[j].as_str());
                proof {
                    assert(self@.notes[i as int] == self.notes@[i as int]@);
                    assert(self@.notes[i as int].tags[j as int]
                        == self.notes@[i as int].tags@[j as int]@);
                    assert(t@ == self@.notes[i as int].tags[j as int]);
                }
                if !tags_contain(&self.tags, &t) {
                    let ghost tags0 = self@.tags;
                    self.tags.push(t);
                    proof {
                        assert forall|q: int|
                            0 <= q < self@.tags.len() implies #[trigger] self@.tags[q] == (if q
                            < tags0.len() {
                            tags0[q]
                        } else {
                            self@.notes[i as int].tags[j as int]
                        }) by {
                            if q < tags0.len() {
                                assert(self.tags@[q] == old(self).tags@[q] || true);
                            }
                        }
                        assert(self@.tags.take(old_len as int) =~= tags0.take(old_len as int));
                        assert forall|x: Seq<char>|
                            tags0.contains(x) implies self@.tags.contains(x) by {
                            let w = choose|w: int| 0 <= w < tags0.len() && tags0[w] == x;
                            assert(self@.tags[w] == x);
                        }
                        assert(self@.tags[self@.tags.len() - 1]
                            == self@.notes[i as int].tags[j as int]);
                        assert(self@.tags.contains(self@.notes[i as int].tags[j as int]));
                        assert(spec_tags_from_notes(self@.tags, old_len as int, self@.notes))
                            by {
                            assert forall|k: int| #![trigger self@.tags[k]]
                                old_len <= k < self@.tags.len() implies exists|a: int, b: int|
                                0 <= a < self@.notes.len() && 0 <= b
                                    < self@.notes[a].tags.len() && self@.tags[k]
                                    == #[trigger] self@.notes[a].tags[b] by {
                                if k < tags0.len() {
                                    assert(self@.tags[k] == tags0[k]);
                                    assert(spec_tags_from_notes(
                                        tags0,
                                        old_len as int,
                                        self@.notes,
                                    ));
                                } else {
                                    assert(self@.tags[k]
                                        == self@.notes[i as int].tags[j as int]);
                                }
                            }
                        }
                    }
                }
                j = j + 1;
            }
            proof {
                assert forall|a: int, b: int|
                    0 <= a < i + 1 && 0 <= b < self@.notes[a].tags.len() implies self@
                    .tags.contains(#[trigger] self@.notes[a].tags[b]) by {}
            }
            i = i + 1;
        }
    }
}

fn clone_tag(tags: &Vec<String>, idx: usize) -> (r: String)
    requires
        idx < tags@.len(),
    ensures
        r@ == tags.deep_view()[idx as int],
{
    let v = str_chars(tags[idx].as_str());
    let r = crate::text::chars_string(&v);
    proof {
        assert(tags.deep_view()[idx as int] == tags@[idx as int]@);
    }
    r
}

} // verus!
