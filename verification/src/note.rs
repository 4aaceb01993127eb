//! The note entity: its data model, its deadline-aware priority score, and
//! the read-only views derived from its text.
//!
//! Dates are day numbers (days since the calendar epoch used by the host).
//! Priorities and progress are stored in thousandths of the unit interval.
//! The final score is an integer in units of 1/120000 of a priority unit,
//! so that a base priority `p` (in thousandths) corresponds to the score
//! `p * 120`; this keeps the score exact where the reference formula uses
//! fractions with denominator 120 (the panic range in hours).

use vstd::prelude::*;
use crate::color::{Rgb, spec_color_from_tag, spec_gamma_multiply, color_from_tag, gamma_multiply,
    GAMMA_MULT_PERMILLE};
use crate::text::{Sep, spec_split, spec_join, spec_lines, spec_contains_sub, spec_find_sep,
    spec_find_sub, find_first_sub, lemma_find_sub,
    lemma_first_line, lemma_split_bounds, find_sep, str_chars,
    chars_string, split_chars, join_chars, lines_chars, contains_sub, subvec, clone_chars};
use vstd::string::StrSliceExecFns;

verus! {

/// Largest day-number magnitude the scoring arithmetic admits; wide enough
/// for every date chrono can represent (about 262143 years from the epoch).
pub const DAY_RANGE: i64 = 100_000_000;

/// The range of hours within which a deadline boosts the score: five
/// workdays of 24 hours.
pub const PANIC_RANGE_HOURS: i64 = 120;

/// Number of characters the truncated clean text keeps before an ellipsis.
pub const TRUNCATE_CHARS: usize = 200;

/// Estimated characters per rendered row, for the height heuristic.
pub const CHARS_PER_ROW: usize = 15;

/// When a note is due: never, on a fixed date, or periodically from a start
/// date with an interval in days.
#[derive(Clone, Copy, PartialEq, Eq, Structural, Debug)]
pub enum Deadline {
    Eternal,
    Periodic { start: i64, days: u16 },
    Fixed(i64),
}

/// A single user-created note.
#[derive(Debug)]
pub struct Note {
    pub text: String,
    pub tags: Vec<String>,
    pub id: u128,
    pub depends: Vec<u128>,
    pub color: Rgb,
    pub progress: u32,
    pub priority: u32,
    pub deadline: Deadline,
    pub complete: bool,
    pub created: i64,
}

/// The mathematical model of a note.
pub ghost struct NoteView {
    pub text: Seq<char>,
    pub tags: Seq<Seq<char>>,
    pub id: u128,
    pub depends: Seq<u128>,
    pub color: Rgb,
    pub progress: u32,
    pub priority: u32,
    pub deadline: Deadline,
    pub complete: bool,
    pub created: i64,
}

impl View for Note {
    type V = NoteView;

    open spec fn view(&self) -> NoteView {
        NoteView {
            text: self.text@,
            tags: self.tags.deep_view(),
            id: self.id,
            depends: self.depends@,
            color: self.color,
            progress: self.progress,
            priority: self.priority,
            deadline: self.deadline,
            complete: self.complete,
            created: self.created,
        }
    }
}

pub open spec fn spec_deadline_wf(d: Deadline) -> bool {
    match d {
        Deadline::Eternal => true,
        Deadline::Fixed(date) => -DAY_RANGE <= date <= DAY_RANGE,
        Deadline::Periodic { start, days } => -DAY_RANGE <= start <= DAY_RANGE,
    }
}

impl NoteView {
    /// Well-formedness: fractional fields stay in the unit interval
    /// (thousandths), dates stay in the supported range, tags hold no
    /// duplicate, and the dependency ids are strictly increasing.
    pub open spec fn wf(self) -> bool {
        &&& self.priority <= 1000
        &&& self.progress <= 1000
        &&& spec_deadline_wf(self.deadline)
        &&& -DAY_RANGE <= self.created <= DAY_RANGE
        &&& forall|i: int, j: int| 0 <= i < j < self.tags.len() ==> self.tags[i] != self.tags[j]
        &&& forall|i: int, j: int|
            0 <= i < j < self.depends.len() ==> self.depends[i] < self.depends[j]
    }
}

/// The first occurrence on or after `today` when stepping from `start` in
/// increments of `k` days (the occurrences are `start`, `start + k`, ...;
/// a start in the future is itself the next occurrence).
pub open spec fn spec_next_occurrence(start: int, k: int, today: int) -> int
    recommends
        k >= 1,
    decreases today - start,
    when k >= 1
{
    if k >= 1 && start < today {
        if start + k >= today {
            start + k
        } else {
            spec_next_occurrence(start + k, k, today)
        }
    } else {
        start
    }
}

/// The contribution of the deadline to the score, in units of 1/120000 of
/// a priority unit: `(120 - clamped_remaining_hours) * 1000`.
///
/// Remaining hours are clamped to the panic range from above in every
/// branch, so a deadline far in the future contributes nothing; an overdue
/// fixed deadline is not clamped from below, so its contribution grows
/// without bound as it ages.
pub open spec fn spec_deadline_term(d: Deadline, today: int) -> int {
    match d {
        Deadline::Eternal => 0,
        Deadline::Fixed(date) => {
            let rem = if 24 * (date - today) <= PANIC_RANGE_HOURS {
                24 * (date - today)
            } else {
                PANIC_RANGE_HOURS as int
            };
            (PANIC_RANGE_HOURS - rem) * 1000
        },
        Deadline::Periodic { start, days } => {
            let k = if days >= 1 {
                days as int
            } else {
                1
            };
            let next = spec_next_occurrence(start as int, k, today);
            let rem = if 24 * (next - today) <= PANIC_RANGE_HOURS {
                24 * (next - today)
            } else {
                PANIC_RANGE_HOURS as int
            };
            (PANIC_RANGE_HOURS - rem) * 1000
        },
    }
}

/// The score used to order notes: base priority (thousandths) times 120,
/// plus the deadline term.
pub open spec fn spec_final_score(n: NoteView, today: int) -> int {
    n.priority * 120 + spec_deadline_term(n.deadline, today)
}

/// The next periodic occurrence lies in `[today, today + k)` whenever the
/// start is not in the future, and is the start itself otherwise.
pub proof fn lemma_next_occurrence_range(start: int, k: int, today: int)
    requires
        k >= 1,
    ensures
        start < today ==> today <= spec_next_occurrence(start, k, today) < today + k,
        start >= today ==> spec_next_occurrence(start, k, today) == start,
    decreases today - start,
{
    if start < today && start + k < today {
        lemma_next_occurrence_range(start + k, k, today);
    }
}

impl Note {
    /// The deadline-aware score of this note as of `today`, exactly
    /// `spec_final_score`. Recomputed on every query; never mutates.
    pub fn get_final_prio(&self, today: i64) -> (score: i64)
        requires
            self@.wf(),
            -DAY_RANGE <= today <= DAY_RANGE,
        ensures
            score == spec_final_score(self@, today as int),
    {
        let base: i64 = (self.priority as i64) * 120;
        match self.deadline {
            Deadline::Eternal => base,
            Deadline::Fixed(date) => {
                let hours: i64 = 24 * (date - today);
                let rem: i64 = if hours <= PANIC_RANGE_HOURS {
                    hours
                } else {
                    PANIC_RANGE_HOURS
                };
                base + (PANIC_RANGE_HOURS - rem) * 1000
            },
            Deadline::Periodic { start, days } => {
                let k: i64 = if days >= 1 {
                    days as i64
                } else {
                    1
                };
                let mut next: i64 = start;
                if next < today {
                    while next + k < today
                        invariant
                            k >= 1,
                            k <= 65535,
                            -DAY_RANGE <= today <= DAY_RANGE,
                            -DAY_RANGE <= next < today,
                            spec_next_occurrence(start as int, k as int, today as int)
                                == spec_next_occurrence(next as int, k as int, today as int),
                        decreases today - next,
                    {
                        next = next + k;
                    }
                    next = next + k;
                }
                let hours: i64 = 24 * (next - today);
                let rem: i64 = if hours <= PANIC_RANGE_HOURS {
                    hours
                } else {
                    PANIC_RANGE_HOURS
                };
                base + (PANIC_RANGE_HOURS - rem) * 1000
            },
        }
    }
}

/// The tokens of `parts` that do not contain "http", in order.
pub open spec fn spec_keep_tokens(parts: Seq<Seq<char>>) -> Seq<Seq<char>>
    decreases parts.len(),
{
    if parts.len() == 0 {
        Seq::empty()
    } else if spec_contains_sub(parts[0], "http"@) {
        spec_keep_tokens(parts.drop_first())
    } else {
        seq![parts[0]] + spec_keep_tokens(parts.drop_first())
    }
}

/// The tokens of `parts` that do contain "http", in order.
pub open spec fn spec_link_tokens(parts: Seq<Seq<char>>) -> Seq<Seq<char>>
    decreases parts.len(),
{
    if parts.len() == 0 {
        Seq::empty()
    } else if spec_contains_sub(parts[0], "http"@) {
        seq![parts[0]] + spec_link_tokens(parts.drop_first())
    } else {
        spec_link_tokens(parts.drop_first())
    }
}

/// The first line of the text, or a fixed placeholder for empty text.
pub open spec fn spec_title(text: Seq<char>) -> Seq<char> {
    if spec_lines(text).len() == 0 {
        "Default"@
    } else {
        spec_lines(text)[0]
    }
}

/// All lines of the text joined back with newlines.
pub open spec fn spec_body(text: Seq<char>) -> Seq<char> {
    spec_join(spec_lines(text), seq!['\n'])
}

/// The text with every space-delimited token containing "http" removed,
/// the rest joined by single spaces, and a newline appended.
pub open spec fn spec_clean_text(text: Seq<char>) -> Seq<char> {
    spec_join(spec_keep_tokens(spec_split(text, Sep::Space)), seq![' ']).push('\n')
}

/// The clean text cut to `TRUNCATE_CHARS` characters with an ellipsis when
/// it is longer than that.
pub open spec fn spec_clean_text_truncated(text: Seq<char>) -> Seq<char> {
    let c = spec_clean_text(text);
    if c.len() > TRUNCATE_CHARS {
        c.take(TRUNCATE_CHARS as int) + seq!['.', '.', '.']
    } else {
        c
    }
}

/// The clean text without its first line, the remaining lines joined by
/// single spaces.
pub open spec fn spec_excerpt(text: Seq<char>) -> Seq<char> {
    let ls = spec_lines(spec_clean_text(text));
    if ls.len() <= 1 {
        Seq::empty()
    } else {
        spec_join(ls.skip(1), seq![' '])
    }
}

/// The whitespace-delimited tokens of the text that contain "http".
pub open spec fn spec_links(text: Seq<char>) -> Seq<Seq<char>> {
    spec_link_tokens(spec_split(text, Sep::SpaceOrNewline))
}

/// The number of extra row breaks the height heuristic charges for the
/// given lines: one per `CHARS_PER_ROW` characters of each line.
pub open spec fn spec_break_count(ls: Seq<Seq<char>>) -> int
    decreases ls.len(),
{
    if ls.len() == 0 {
        0
    } else {
        (ls[0].len() as int) / (CHARS_PER_ROW as int) + spec_break_count(ls.drop_first())
    }
}

/// The estimated rendered height: lines plus estimated row breaks of the
/// truncated clean text, times the line height in pixels.
pub open spec fn spec_approx_height(text: Seq<char>, line_height: u32) -> int {
    let ls = spec_lines(spec_clean_text_truncated(text));
    (ls.len() + spec_break_count(ls)) * line_height
}

pub open spec fn spec_contains_markdown(text: Seq<char>) -> bool {
    ||| spec_contains_sub(text, seq!['#', ' '])
    ||| spec_contains_sub(text, seq!['*', ' '])
    ||| spec_contains_sub(text, seq!['-', ' '])
    ||| spec_contains_sub(text, seq!['1', '.', ' '])
    ||| spec_contains_sub(text, seq!['['])
}

/// The fill color of a note: its stored color when it has no tags, else
/// the color derived from all tag names run together; darkened either way.
pub open spec fn spec_note_color(n: NoteView) -> Rgb {
    if n.tags.len() == 0 {
        spec_gamma_multiply(n.color, GAMMA_MULT_PERMILLE)
    } else {
        spec_gamma_multiply(
            spec_color_from_tag(spec_join(n.tags, Seq::empty())),
            GAMMA_MULT_PERMILLE,
        )
    }
}

impl Note {
    /// The first line of the note's text, or "Default" for empty text.
    pub fn get_title(&self) -> (t: &str)
        ensures
            t@ == spec_title(self@.text),
    {
        let tc = str_chars(self.text.as_str());
        if tc.len() == 0 {
            "Default"
        } else {
            let i = find_sep(&tc, 0, Sep::Newline);
            proof {
                lemma_first_line(self.text@);
                assert(tc@.skip(0) =~= self.text@);
            }
            self.text.as_str().substring_char(0, i)
        }
    }

    /// Every line of the text, joined back with newlines.
    pub fn get_body(&self) -> (s: String)
        ensures
            s@ == spec_body(self@.text),
    {
        let tc = str_chars(self.text.as_str());
        let ls = lines_chars(&tc);
        let mut nl: Vec<char> = Vec::new();
        nl.push('\n');
        proof {
            assert(nl@ =~= seq!['\n']);
        }
        let joined = join_chars(&ls, &nl);
        chars_string(&joined)
    }

    /// The text with every space-delimited token containing "http"
    /// removed, the rest joined by spaces, and a newline appended.
    pub fn get_clean_text(&self) -> (s: String)
        ensures
            s@ == spec_clean_text(self@.text),
    {
        let tc = str_chars(self.text.as_str());
        let parts = split_chars(&tc, Sep::Space);
        let pat = str_chars("http");
        let mut kept: Vec<Vec<char>> = Vec::new();
        let mut i: usize = parts.len();
        proof {
            assert(parts.deep_view().skip(parts.len() as int)
                =~= Seq::<Seq<char>>::empty());
        }
        while i > 0
            invariant
                i <= parts.len(),
                pat@ == "http"@,
                kept.deep_view() == spec_keep_tokens(parts.deep_view().skip(i as int)),
            decreases i,
        {
            i = i - 1;
            let ghost kv = kept@;
            let ghost kd = kept.deep_view();
            let tok = clone_chars(&parts[i]);
            if !contains_sub(&tok, &pat) {
                kept.insert(0, tok);
                proof {
                    let pd = parts.deep_view();
                    assert(pd.skip(i as int)[0] == pd[i as int]);
                    assert(pd.skip(i as int).drop_first() =~= pd.skip(i + 1));
                    assert(tok@ == pd[i as int]);
                    assert(kept@ == kv.insert(0, tok));
                    assert forall|j: int| 0 <= j < kept@.len() implies kept.deep_view()[j]
                        == (seq![pd[i as int]] + spec_keep_tokens(pd.skip(i + 1)))[j] by {
                        if j == 0 {
                            assert(kept@[0] == tok);
                        } else {
                            assert(kept@[j] == kv[j - 1]);
                            assert(kd[j - 1] == kv[j - 1].deep_view());
                        }
                    }
                    assert(kept.deep_view() =~= seq![pd[i as int]] + spec_keep_tokens(
                        pd.skip(i + 1)));
                }
            } else {
                proof {
                    let pd = parts.deep_view();
                    assert(pd.skip(i as int)[0] == pd[i as int]);
                    assert(pd.skip(i as int).drop_first() =~= pd.skip(i + 1));
                    assert(tok@ == pd[i as int]);
                }
            }
        }
        proof {
            assert(parts.deep_view().skip(0) =~= parts.deep_view());
        }
        let mut sp: Vec<char> = Vec::new();
        sp.push(' ');
        proof {
            assert(sp@ =~= seq![' ']);
        }
        let mut joined = join_chars(&kept, &sp);
        joined.push('\n');
        chars_string(&joined)
    }

    /// The clean text cut to `TRUNCATE_CHARS` characters, with an ellipsis
    /// when something was cut.
    pub fn get_clean_text_truncated(&self) -> (s: String)
        ensures
            s@ == spec_clean_text_truncated(self@.text),
    {
        let clean = self.get_clean_text();
        let cc = str_chars(clean.as_str());
        if cc.len() > TRUNCATE_CHARS {
            let mut head = subvec(&cc, 0, TRUNCATE_CHARS);
            head.push('.');
            head.push('.');
            head.push('.');
            proof {
                assert(head@ =~= cc@.take(TRUNCATE_CHARS as int) + seq!['.', '.', '.']);
            }
            chars_string(&head)
        } else {
            clean
        }
    }

    /// The clean text without its first line, lines joined by spaces.
    pub fn get_excerpt(&self) -> (s: String)
        ensures
            s@ == spec_excerpt(self@.text),
    {
        let clean = self.get_clean_text();
        let cc = str_chars(clean.as_str());
        let ls = lines_chars(&cc);
        if ls.len() <= 1 {
            String::new()
        } else {
            let mut rest: Vec<Vec<char>> = Vec::new();
            let mut i: usize = 1;
            while i < ls.len()
                invariant
                    1 <= i <= ls.len(),
                    rest@.len() == i - 1,
                    forall|j: int|
                        0 <= j < i - 1 ==> #[trigger] rest@[j].deep_view()
                            == ls.deep_view()[j + 1],
                decreases ls.len() - i,
            {
                let ghost rv = rest@;
                let tok = clone_chars(&ls[i]);
                proof {
                    assert(tok.deep_view() =~= tok@);
                    assert(tok@ == ls@[i as int]@);
                    assert(ls.deep_view()[i as int] == ls@[i as int].deep_view());
                    assert(ls@[i as int].deep_view() =~= ls@[i as int]@);
                }
                rest.push(tok);
                proof {
                    assert forall|j: int| 0 <= j < i implies #[trigger] rest@[j].deep_view()
                        == ls.deep_view()[j + 1] by {
                        if j < i - 1 {
                            assert(rest@[j] == rv[j]);
                        } else {
                            assert(rest@[j] == tok);
                        }
                    }
                }
                i = i + 1;
            }
            proof {
                assert forall|j: int| 0 <= j < rest@.len() implies rest.deep_view()[j]
                    == ls.deep_view().skip(1)[j] by {
                    assert(rest@[j].deep_view() == ls.deep_view()[j + 1]);
                }
                assert(rest.deep_view() =~= ls.deep_view().skip(1));
            }
            let mut sp: Vec<char> = Vec::new();
            sp.push(' ');
            proof {
                assert(sp@ =~= seq![' ']);
            }
            let joined = join_chars(&rest, &sp);
            chars_string(&joined)
        }
    }

    /// The whitespace-delimited tokens of the text that contain "http",
    /// in their original order.
    pub fn get_links(&self) -> (links: Vec<String>)
        ensures
            links.deep_view() == spec_links(self@.text),
    {
        let tc = str_chars(self.text.as_str());
        let parts = split_chars(&tc, Sep::SpaceOrNewline);
        let pat = str_chars("http");
        let mut links: Vec<String> = Vec::new();
        let mut i: usize = parts.len();
        while i > 0
            invariant
                i <= parts.len(),
                pat@ == "http"@,
                links.deep_view() == spec_link_tokens(parts.deep_view().skip(i as int)),
            decreases i,
        {
            i = i - 1;
            let ghost lv = links@;
            let ghost ld = links.deep_view();
            let tok = clone_chars(&parts[i]);
            proof {
                let pd = parts.deep_view();
                assert(pd.skip(i as int)[0] == pd[i as int]);
                assert(pd.skip(i as int).drop_first() =~= pd.skip(i + 1));
                assert(tok@ == pd[i as int]);
            }
            if contains_sub(&tok, &pat) {
                let s = chars_string(&tok);
                links.insert(0, s);
                proof {
                    let pd = parts.deep_view();
                    assert forall|j: int| 0 <= j < links@.len() implies links.deep_view()[j]
                        == (seq![pd[i as int]] + spec_link_tokens(pd.skip(i + 1)))[j] by {
                        if j > 0 {
                            assert(links@[j] == lv[j - 1]);
                            assert(ld[j - 1] == lv[j - 1].deep_view());
                        }
                    }
                    assert(links.deep_view() =~= seq![pd[i as int]] + spec_link_tokens(
                        pd.skip(i + 1)));
                }
            }
        }
        proof {
            assert(parts.deep_view().skip(0) =~= parts.deep_view());
        }
        links
    }

    /// Whether the text holds one of the markers the renderer reads as
    /// markdown.
    pub fn contains_markdown(&self) -> (found: bool)
        ensures
            found == spec_contains_markdown(self@.text),
    {
        let tc = str_chars(self.text.as_str());
        let mut p1: Vec<char> = Vec::new();
        p1.push('#');
        p1.push(' ');
        let mut p2: Vec<char> = Vec::new();
        p2.push('*');
        p2.push(' ');
        let mut p3: Vec<char> = Vec::new();
        p3.push('-');
        p3.push(' ');
        let mut p4: Vec<char> = Vec::new();
        p4.push('1');
        p4.push('.');
        p4.push(' ');
        let mut p5: Vec<char> = Vec::new();
        p5.push('[');
        proof {
            assert(p1@ =~= seq!['#', ' ']);
            assert(p2@ =~= seq!['*', ' ']);
            assert(p3@ =~= seq!['-', ' ']);
            assert(p4@ =~= seq!['1', '.', ' ']);
            assert(p5@ =~= seq!['[']);
        }
        contains_sub(&tc, &p1) || contains_sub(&tc, &p2) || contains_sub(&tc, &p3)
            || contains_sub(&tc, &p4) || contains_sub(&tc, &p5)
    }

    /// The note's fill color: derived from its tags when it has any, else
    /// its stored color; darkened for use as a background.
    pub fn get_color(&self) -> (c: Rgb)
        ensures
            c == spec_note_color(self@),
    {
        if self.tags.len() == 0 {
            gamma_multiply(&self.color, GAMMA_MULT_PERMILLE)
        } else {
            let mut tv: Vec<Vec<char>> = Vec::new();
            let mut i: usize = 0;
            while i < self.tags.len()
                invariant
                    i <= self.tags.len(),
                    tv@.len() == i,
                    forall|j: int|
                        0 <= j < i ==> #[trigger] tv@[j].deep_view()
                            == self.tags.deep_view()[j],
                decreases self.tags.len() - i,
            {
                let ghost tw = tv@;
                let tok = str_chars(self.tags[i].as_str());
                proof {
                    assert(tok.deep_view() =~= tok@);
                    assert(tok@ == self.tags@[i as int]@);
                    assert(self.tags.deep_view()[i as int] == self.tags@[i as int].deep_view());
                }
                tv.push(tok);
                proof {
                    assert forall|j: int| 0 <= j < i + 1 implies #[trigger] tv@[j].deep_view()
                        == self.tags.deep_view()[j] by {
                        if j < i {
                            assert(tv@[j] == tw[j]);
                        } else {
                            assert(tv@[j] == tok);
                        }
                    }
                }
                i = i + 1;
            }
            proof {
                assert forall|j: int| 0 <= j < tv@.len() implies tv.deep_view()[j]
                    == self.tags.deep_view()[j] by {
                    assert(tv@[j].deep_view() == self.tags.deep_view()[j]);
                }
                assert(tv.deep_view() =~= self.tags.deep_view());
            }
            let sep: Vec<char> = Vec::new();
            let joined = join_chars(&tv, &sep);
            proof {
                assert(sep@ =~= Seq::<char>::empty());
            }
            let s = chars_string(&joined);
            let c = color_from_tag(s.as_str());
            gamma_multiply(&c, GAMMA_MULT_PERMILLE)
        }
    }

    /// The estimated rendered height in pixels: lines plus estimated row
    /// breaks of the truncated clean text, times the line height.
    pub fn get_approx_height(&self, line_height: u32) -> (h: u64)
        ensures
            h == spec_approx_height(self@.text, line_height),
    {
        let trunc = self.get_clean_text_truncated();
        let cc = str_chars(trunc.as_str());
        let ls = lines_chars(&cc);
        proof {
            let c = spec_clean_text(self@.text);
            assert(cc@.len() <= TRUNCATE_CHARS + 3);
            if cc@.len() > 0 && cc@.last() == '\n' {
                lemma_split_bounds(cc@.drop_last(), Sep::Newline);
            } else if cc@.len() > 0 {
                lemma_split_bounds(cc@, Sep::Newline);
            }
        }
        let mut breaks: u64 = 0;
        let mut i: usize = ls.len();
        while i > 0
            invariant
                i <= ls.len(),
                ls.deep_view().len() <= TRUNCATE_CHARS + 4,
                forall|j: int|
                    0 <= j < ls.deep_view().len() ==> #[trigger] ls.deep_view()[j].len()
                        <= TRUNCATE_CHARS + 3,
                breaks == spec_break_count(ls.deep_view().skip(i as int)),
                breaks <= (ls.deep_view().len() - i) * 14,
            decreases i,
        {
            i = i - 1;
            proof {
                let ld = ls.deep_view();
                assert(ld.skip(i as int)[0] == ld[i as int]);
                assert(ld.skip(i as int).drop_first() =~= ld.skip(i + 1));
                assert(ld[i as int] == ls@[i as int].deep_view());
                assert(ls@[i as int]@ =~= ls@[i as int].deep_view());
                assert(ld[i as int].len() <= TRUNCATE_CHARS + 3);
                assert((ls@[i as int]@.len() as int) / (CHARS_PER_ROW as int) <= 14);
                assert((ls.deep_view().len() - i) * 14 == (ls.deep_view().len() - i - 1) * 14
                    + 14) by (nonlinear_arith);
            }
            breaks = breaks + (ls[i].len() / CHARS_PER_ROW) as u64;
        }
        proof {
            assert(ls.deep_view().skip(0) =~= ls.deep_view());
        }
        let count = ls.len() as u64;
        let units: u64 = count + breaks;
        proof {
            assert(units as int * (line_height as int) < 0x8000_0000_0000_0000) by (nonlinear_arith)
                requires
                    units <= 3100,
                    0 <= line_height < 0x1_0000_0000,
            ;
        }
        units * (line_height as u64)
    }
}

/// Relies on chrono's `Utc::now().timestamp_micros()`: the current time in
/// microseconds since the Unix epoch. Time-dependent, so nothing is
/// promised of the value.
#[verifier::external_body]
fn now_timestamp_micros() -> i64 {
    chrono::Utc::now().timestamp_micros()
}

/// Relies on chrono's `Utc::now().date_naive().num_days_from_ce()`: the
/// current date as a day number. Time-dependent, so only the range is
/// promised: chrono's calendar is limited to about ±262143 years, whose
/// day numbers stay far inside ±100 million.
#[verifier::external_body]
pub fn today_day_number() -> (d: i64)
    ensures
        -DAY_RANGE <= d <= DAY_RANGE,
{
    chrono::Datelike::num_days_from_ce(&chrono::Utc::now().date_naive()) as i64
}

impl Note {
    /// A fresh note: empty text, no tags or dependencies, the fixed
    /// default gray, zero priority and progress, no deadline, created
    /// today with an id drawn from the creation time in microseconds.
    pub fn new() -> (n: Note)
        ensures
            n@.wf(),
            n@.text.len() == 0,
            n@.tags.len() == 0,
            n@.depends.len() == 0,
            n@.color == (Rgb { r: 200, g: 200, b: 200 }),
            n@.progress == 0,
            n@.priority == 0,
            n@.deadline == Deadline::Eternal,
            !n@.complete,
            -DAY_RANGE <= n@.created <= DAY_RANGE,
    {
        let micros = now_timestamp_micros();
        let id: u128 = if micros >= 0 {
            micros as u128
        } else {
            0
        };
        Note {
            text: String::new(),
            tags: Vec::new(),
            id,
            depends: Vec::new(),
            color: Rgb { r: 200, g: 200, b: 200 },
            progress: 0,
            priority: 0,
            deadline: Deadline::Eternal,
            complete: false,
            created: today_day_number(),
        }
    }
}

impl Note {
    /// Adds a tag name unless the note already carries it.
    pub fn add_tag(&mut self, t: String)
        requires
            old(self)@.wf(),
        ensures
            final(self)@.wf(),
            final(self)@.tags == (if old(self)@.tags.contains(t@) {
                old(self)@.tags
            } else {
                old(self)@.tags.push(t@)
            }),
            final(self)@ == (NoteView { tags: final(self)@.tags, ..old(self)@ }),
    {
        let ghost v0 = self@;
        let mut i: usize = 0;
        while i < self.tags.len()
            invariant
                i <= self.tags.len(),
                self@ == v0,
                v0 == old(self)@,
                v0.wf(),
                forall|j: int| 0 <= j < i ==> #[trigger] v0.tags[j] != t@,
            decreases self.tags.len() - i,
        {
            if self.tags[i].eq(&t) {
                proof {
                    assert(v0.tags[i as int] == self.tags@[i as int]@);
                    assert(v0.tags.contains(t@));
                }
                return ;
            }
            proof {
                assert(v0.tags[i as int] == self.tags@[i as int]@);
            }
            i = i + 1;
        }
        proof {
            if v0.tags.contains(t@) {
                let w = choose|j: int| 0 <= j < v0.tags.len() && v0.tags[j] == t@;
                assert(v0.tags[w] != t@);
            }
        }
        let ghost tags0 = self.tags@;
        self.tags.push(t);
        proof {
            assert forall|j: int| 0 <= j < self@.tags.len() implies #[trigger] self@.tags[j] == (
            v0.tags.push(t@))[j] by {
                if j < tags0.len() {
                    assert(self.tags@[j] == tags0[j]);
                }
            }
            assert(self@.tags =~= v0.tags.push(t@));
        }
    }

    /// Whether the note carries the tag name.
    pub fn has_tag(&self, t: &String) -> (b: bool)
        ensures
            b == self@.tags.contains(t@),
    {
        let mut i: usize = 0;
        while i < self.tags.len()
            invariant
                i <= self.tags.len(),
                forall|j: int| 0 <= j < i ==> #[trigger] self@.tags[j] != t@,
            decreases self.tags.len() - i,
        {
            if self.tags[i].eq(t) {
                proof {
                    assert(self@.tags[i as int] == self.tags@[i as int]@);
                }
                return true;
            }
            proof {
                assert(self@.tags[i as int] == self.tags@[i as int]@);
            }
            i = i + 1;
        }
        proof {
            if self@.tags.contains(t@) {
                let w = choose|j: int| 0 <= j < self@.tags.len() && self@.tags[j] == t@;
                assert(self@.tags[w] != t@);
            }
        }
        false
    }

    /// Removes a tag name, if the note carries it; every other tag keeps
    /// its place.
    pub fn remove_tag(&mut self, t: &String)
        requires
            old(self)@.wf(),
        ensures
            final(self)@.wf(),
            !final(self)@.tags.contains(t@),
            forall|x: Seq<char>|
                #[trigger] final(self)@.tags.contains(x) <==> (old(self)@.tags.contains(x) && x
                    != t@),
            final(self)@ == (NoteView { tags: final(self)@.tags, ..old(self)@ }),
    {
        let ghost v0 = self@;
        let mut i: usize = 0;
        while i < self.tags.len()
            invariant
                i <= self.tags.len(),
                self@ == v0,
                v0 == old(self)@,
                v0.wf(),
                forall|j: int| 0 <= j < i ==> #[trigger] v0.tags[j] != t@,
            decreases self.tags.len() - i,
        {
            if self.tags[i].eq(t) {
                proof {
                    assert(v0.tags[i as int] == self.tags@[i as int]@);
                }
                let ghost p = i as int;
                self.tags.remove(i);
                proof {
                    let fin = self@.tags;
                    assert forall|j: int| 0 <= j < fin.len() implies #[trigger] fin[j] == (if j
                        < p {
                        v0.tags[j]
                    } else {
                        v0.tags[j + 1]
                    }) by {
                        assert(fin[j] == self.tags@[j]@);
                    }
                    assert forall|j: int| 0 <= j < fin.len() implies #[trigger] fin[j] != t@ by {
                        if j >= p {
                            assert(v0.tags[p] != v0.tags[j + 1]);
                        }
                    }
                    assert forall|x: Seq<char>|
                        #[trigger] fin.contains(x) implies (v0.tags.contains(x) && x != t@) by {
                        let j = choose|j: int| 0 <= j < fin.len() && fin[j] == x;
                        let w = if j < p {
                            j
                        } else {
                            j + 1
                        };
                        assert(v0.tags[w] == x);
                    }
                    assert forall|x: Seq<char>|
                        v0.tags.contains(x) && x != t@ implies #[trigger] fin.contains(x) by {
                        let j = choose|j: int| 0 <= j < v0.tags.len() && v0.tags[j] == x;
                        if j < p {
                            assert(fin[j] == x);
                        } else if j > p {
                            assert(fin[j - 1] == x);
                        } else {
                            assert(v0.tags[p] == t@);
                        }
                    }
                    if fin.contains(t@) {
                        assert(v0.tags.contains(t@) && t@ != t@);
                    }
                }
                return ;
            }
            proof {
                assert(v0.tags[i as int] == self.tags@[i as int]@);
            }
            i = i + 1;
        }
        proof {
            if self@.tags.contains(t@) {
                let w = choose|j: int| 0 <= j < v0.tags.len() && v0.tags[j] == t@;
                assert(v0.tags[w] != t@);
            }
        }
    }

    /// Toggles a dependency edge: membership of `id` in the dependency set
    /// flips, every other id keeps its membership; the set stays sorted.
    pub fn toggle_dependency(&mut self, id: u128)
        requires
            old(self)@.wf(),
        ensures
            final(self)@.wf(),
            final(self)@.depends.contains(id) <==> !old(self)@.depends.contains(id),
            forall|x: u128|
                x != id ==> (final(self)@.depends.contains(x) <==> old(self)@.depends.contains(
                    x,
                )),
            final(self)@ == (NoteView { depends: final(self)@.depends, ..old(self)@ }),
    {
        let ghost v0 = self@;
        let mut p: usize = 0;
        while p < self.depends.len() && self.depends[p] < id
            invariant
                p <= self.depends.len(),
                self@ == v0,
                v0 == old(self)@,
                v0.wf(),
                forall|j: int| 0 <= j < p ==> #[trigger] v0.depends[j] < id,
            decreases self.depends.len() - p,
        {
            p = p + 1;
        }
        let present = p < self.depends.len() && self.depends[p] == id;
        proof {
            if !present && v0.depends.contains(id) {
                let w = choose|j: int| 0 <= j < v0.depends.len() && v0.depends[j] == id;
                if w >= p && p < v0.depends.len() {
                    assert(v0.depends[p as int] <= v0.depends[w]);
                }
            }
        }
        if present {
            let ghost q = p as int;
            self.depends.remove(p);
            proof {
                let fin = self@.depends;
                assert forall|x: u128| #[trigger] fin.contains(x) implies v0.depends.contains(x)
                    && x != id by {
                    let j = choose|j: int| 0 <= j < fin.len() && fin[j] == x;
                    let w = if j < q {
                        j
                    } else {
                        j + 1
                    };
                    assert(v0.depends[w] == x);
                    if w != q {
                        assert(v0.depends[q] != v0.depends[w]);
                    }
                }
                assert forall|x: u128|
                    v0.depends.contains(x) && x != id implies #[trigger] fin.contains(x) by {
                    let j = choose|j: int| 0 <= j < v0.depends.len() && v0.depends[j] == x;
                    if j < q {
                        assert(fin[j] == x);
                    } else {
                        assert(j != q);
                        assert(fin[j - 1] == x);
                    }
                }
                assert(v0.depends[q] == id);
                assert(v0.depends.contains(id));
                assert forall|i: int, j: int| 0 <= i < j < fin.len() implies fin[i] < fin[j] by {
                    let wi = if i < q {
                        i
                    } else {
                        i + 1
                    };
                    let wj = if j < q {
                        j
                    } else {
                        j + 1
                    };
                    assert(v0.depends[wi] < v0.depends[wj]);
                }
            }
        } else {
            let ghost q = p as int;
            self.depends.insert(p, id);
            proof {
                let fin = self@.depends;
                assert(fin == v0.depends.insert(q, id));
                assert(fin[q] == id);
                assert(fin.contains(id));
                assert forall|x: u128| #[trigger] fin.contains(x) && x != id implies v0
                    .depends.contains(x) by {
                    let j = choose|j: int| 0 <= j < fin.len() && fin[j] == x;
                    if j < q {
                        assert(v0.depends[j] == x);
                    } else {
                        assert(v0.depends[j - 1] == x);
                    }
                }
                assert forall|x: u128|
                    v0.depends.contains(x) && x != id implies #[trigger] fin.contains(x) by {
                    let j = choose|j: int| 0 <= j < v0.depends.len() && v0.depends[j] == x;
                    if j < q {
                        assert(fin[j] == x);
                    } else {
                        assert(fin[j + 1] == x);
                    }
                }
                assert(q < v0.depends.len() ==> v0.depends[q] > id);
                assert forall|i: int, j: int| 0 <= i < j < fin.len() implies fin[i] < fin[j] by {
                    if j < q {
                    } else if i < q && j == q {
                        assert(v0.depends[i] < id);
                    } else if i < q && j > q {
                        assert(fin[j] == v0.depends[j - 1]);
                        if j - 1 == q {
                            assert(v0.depends[i] < id);
                            assert(id < v0.depends[q]);
                        } else {
                            assert(v0.depends[i] < v0.depends[j - 1]);
                        }
                    } else if i == q {
                        assert(fin[j] == v0.depends[j - 1]);
                        if j - 1 == q {
                            assert(id < v0.depends[q]);
                        } else {
                            assert(id < v0.depends[q]);
                            assert(v0.depends[q] < v0.depends[j - 1]);
                        }
                    } else {
                        assert(fin[i] == v0.depends[i - 1] && fin[j] == v0.depends[j - 1]);
                    }
                }
                if v0.depends.contains(id) {
                    let w = choose|j: int| 0 <= j < v0.depends.len() && v0.depends[j] == id;
                    assert(v0.depends[w] < id || v0.depends[w] > id);
                }
            }
        }
    }
}

impl Default for Note {
    /// The all-empty note: like `new`, but with id zero and the epoch as
    /// its creation date, so that the value is fully determined.
    fn default() -> (n: Note)
        ensures
            n@.wf(),
            n@.text.len() == 0,
            n@.tags.len() == 0,
            n@.id == 0,
            n@.depends.len() == 0,
            n@.color == (Rgb { r: 200, g: 200, b: 200 }),
            n@.progress == 0,
            n@.priority == 0,
            n@.deadline == Deadline::Eternal,
            !n@.complete,
            n@.created == 0,
    {
        Note {
            text: String::new(),
            tags: Vec::new(),
            id: 0,
            depends: Vec::new(),
            color: Rgb { r: 200, g: 200, b: 200 },
            progress: 0,
            priority: 0,
            deadline: Deadline::Eternal,
            complete: false,
            created: 0,
        }
    }
}

/// The display text of a link: what stands between the first "//" and the
/// next "/", or nothing when the token holds no "//".
pub open spec fn spec_link_text(s: Seq<char>) -> Seq<char> {
    let f = spec_find_sub(s, seq!['/', '/']);
    if f < 0 {
        Seq::empty()
    } else {
        let rest = s.skip(f + 2);
        rest.take(spec_find_sep(rest, Sep::Slash))
    }
}

/// The host part of a link token, for display: the characters between the
/// first "//" and the following "/", or the empty string when there is no
/// "//".
pub fn link_text(raw_link: &str) -> (t: &str)
    ensures
        t@ == spec_link_text(raw_link@),
{
    let v = str_chars(raw_link);
    let mut pat: Vec<char> = Vec::new();
    pat.push('/');
    pat.push('/');
    proof {
        assert(pat@ =~= seq!['/', '/']);
    }
    match find_first_sub(&v, &pat) {
        None => {
            proof {
                reveal_strlit("");
                assert(""@ =~= Seq::<char>::empty());
            }
            ""
        },
        Some(f) => {
            proof {
                lemma_find_sub(v@, pat@);
            }
            let n = raw_link.unicode_len();
            let rest = raw_link.substring_char(f + 2, n);
            let rest_v = str_chars(rest);
            let g = crate::text::find_sep(&rest_v, 0, Sep::Slash);
            proof {
                assert(rest_v@.skip(0) =~= rest_v@);
                assert(rest@ =~= raw_link@.skip(f + 2));
            }
            rest.substring_char(0, g)
        },
    }
}

/// An eternal note's score is exactly its base priority (scaled by 120):
/// no deadline term is added.
pub proof fn lemma_eternal_score(n: NoteView, today: int)
    requires
        n.deadline is Eternal,
    ensures
        spec_final_score(n, today) == n.priority * 120,
{
}

/// A fixed deadline at or beyond the panic range adds nothing: the
/// remaining hours are clamped to the range, so the score equals the base
/// priority however far away the date lies.
pub proof fn lemma_far_fixed_score(n: NoteView, today: int)
    requires
        n.deadline matches Deadline::Fixed(date) && 24 * (date - today) >= PANIC_RANGE_HOURS,
    ensures
        spec_final_score(n, today) == n.priority * 120,
{
}

/// An overdue fixed deadline strictly raises the score above the base
/// priority, without an upper bound on the raise.
pub proof fn lemma_overdue_fixed_score(n: NoteView, today: int)
    requires
        n.deadline matches Deadline::Fixed(date) && date < today,
    ensures
        spec_final_score(n, today) > n.priority * 120,
{
}

} // verus!
