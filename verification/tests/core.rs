//! Behavior of the note model: colors, scoring, derived text views, tag
//! and dependency editing, and the prioritized orderings.

use meteora::color::{Rgb, color_from_tag, gamma_multiply, readable_text, GAMMA_MULT_PERMILLE};
use meteora::note::{Deadline, Note, link_text};
use meteora::userdata::{LogDay, ScratchPad, UserData};

fn plain_note(id: u128, priority: u32, deadline: Deadline) -> Note {
    let mut n = Note::default();
    n.id = id;
    n.priority = priority;
    n.deadline = deadline;
    n
}

#[test]
fn color_from_tag_is_deterministic() {
    let a = color_from_tag("work");
    let b = color_from_tag("work");
    assert_eq!(a, b);
    let c = color_from_tag("home");
    let d = color_from_tag("home");
    assert_eq!(c, d);
}

#[test]
fn readable_text_returns_one_of_two_constants() {
    let dark = Rgb { r: 40, g: 40, b: 40 };
    let light = Rgb { r: 230, g: 230, b: 230 };
    let on_white = readable_text(&Rgb { r: 255, g: 255, b: 255 });
    let on_black = readable_text(&Rgb { r: 0, g: 0, b: 0 });
    assert_eq!(on_white, dark);
    assert_eq!(on_black, light);
    // luminance 587 * 204 = 119748 is just below the threshold of 120000,
    // 587 * 205 = 120335 just above: the choice flips exactly there
    let below = readable_text(&Rgb { r: 0, g: 204, b: 0 });
    let above = readable_text(&Rgb { r: 0, g: 205, b: 0 });
    assert_eq!(below, light);
    assert_eq!(above, dark);
}

#[test]
fn gamma_multiply_scales_channels() {
    let c = Rgb { r: 100, g: 200, b: 50 };
    let d = gamma_multiply(&c, GAMMA_MULT_PERMILLE);
    assert_eq!(d, Rgb { r: 80, g: 160, b: 40 });
    let full = gamma_multiply(&c, 1000);
    assert_eq!(full, c);
}

#[test]
fn eternal_score_is_base_priority() {
    let n = plain_note(1, 500, Deadline::Eternal);
    // the score carries the priority in thousandths, scaled by 120
    assert_eq!(n.get_final_prio(738000), 500 * 120);
}

#[test]
fn far_future_fixed_deadline_adds_nothing() {
    let today = 738000;
    let n = plain_note(1, 700, Deadline::Fixed(today + 100));
    assert_eq!(n.get_final_prio(today), 700 * 120);
}

#[test]
fn near_fixed_deadline_boosts_score() {
    let today = 738000;
    // due in 2 days: 48 remaining hours, weight (120 - 48) / 120
    let n = plain_note(1, 0, Deadline::Fixed(today + 2));
    assert_eq!(n.get_final_prio(today), (120 - 48) * 1000);
}

#[test]
fn overdue_fixed_deadline_raises_above_base() {
    let today = 738000;
    let n = plain_note(1, 200, Deadline::Fixed(today - 1));
    // 24 hours overdue: weight (120 + 24) / 120, unbounded above
    assert_eq!(n.get_final_prio(today), 200 * 120 + (120 + 24) * 1000);
    assert!(n.get_final_prio(today) > 200 * 120);
}

#[test]
fn periodic_deadline_steps_to_next_occurrence() {
    let today = 738000;
    let n = plain_note(1, 0, Deadline::Periodic { start: today - 3, days: 7 });
    // next occurrence 4 days out: 96 remaining hours
    assert_eq!(n.get_final_prio(today), (120 - 96) * 1000);
    // a zero interval steps by one day, so an occurrence lands today:
    // zero remaining hours, full weight
    let m = plain_note(2, 0, Deadline::Periodic { start: today - 3, days: 0 });
    assert_eq!(m.get_final_prio(today), 120 * 1000);
}

#[test]
fn empty_note_has_placeholder_title_and_no_links() {
    let n = Note::default();
    assert_eq!(n.get_title(), "Default");
    assert!(n.get_links().is_empty());
}

#[test]
fn links_and_clean_text_separate_urls() {
    let mut n = Note::default();
    n.text = String::from("Buy milk http://store.example/x see also https://two.example");
    let links = n.get_links();
    assert_eq!(links.len(), 2);
    assert_eq!(links[0], "http://store.example/x");
    assert_eq!(links[1], "https://two.example");
    let clean = n.get_clean_text();
    assert_eq!(clean, "Buy milk see also\n");
    assert!(clean.contains("Buy milk"));
    assert!(!clean.contains("http"));
}

#[test]
fn title_is_first_line() {
    let mut n = Note::default();
    n.text = String::from("first line\nsecond line");
    assert_eq!(n.get_title(), "first line");
}

#[test]
fn body_joins_all_lines() {
    let mut n = Note::default();
    n.text = String::from("a\nb\nc");
    assert_eq!(n.get_body(), "a\nb\nc");
    n.text = String::from("a\n");
    assert_eq!(n.get_body(), "a");
}

#[test]
fn excerpt_drops_first_line() {
    let mut n = Note::default();
    n.text = String::from("title\nbody one\nbody two");
    assert_eq!(n.get_excerpt(), "body one body two");
}

#[test]
fn truncation_cuts_at_two_hundred_characters() {
    let mut n = Note::default();
    n.text = "a".repeat(250);
    let t = n.get_clean_text_truncated();
    assert_eq!(t.chars().count(), 203);
    assert!(t.ends_with("..."));
    let mut short = Note::default();
    short.text = String::from("short");
    assert_eq!(short.get_clean_text_truncated(), "short\n");
}

#[test]
fn approx_height_counts_lines_and_breaks() {
    let mut n = Note::default();
    n.text = String::from("abcde");
    assert_eq!(n.get_approx_height(10), 10);
    // thirty characters make one line plus two estimated breaks
    n.text = "b".repeat(30);
    assert_eq!(n.get_approx_height(10), 30);
}

#[test]
fn markdown_markers_are_detected() {
    let mut n = Note::default();
    n.text = String::from("# heading");
    assert!(n.contains_markdown());
    n.text = String::from("plain words");
    assert!(!n.contains_markdown());
}

#[test]
fn link_text_extracts_host() {
    assert_eq!(link_text("http://store.example/x"), "store.example");
    assert_eq!(link_text("https://two.example"), "two.example");
    assert_eq!(link_text("no url here"), "");
}

#[test]
fn note_color_comes_from_tags_when_present() {
    let mut n = Note::default();
    n.color = Rgb { r: 100, g: 100, b: 100 };
    assert_eq!(n.get_color(), gamma_multiply(&n.color, GAMMA_MULT_PERMILLE));
    n.tags.push(String::from("work"));
    let from_tag = gamma_multiply(&color_from_tag("work"), GAMMA_MULT_PERMILLE);
    assert_eq!(n.get_color(), from_tag);
}

#[test]
fn tags_add_and_remove() {
    let mut n = Note::default();
    n.add_tag(String::from("a"));
    n.add_tag(String::from("b"));
    n.add_tag(String::from("a"));
    assert_eq!(n.tags, vec![String::from("a"), String::from("b")]);
    n.remove_tag(&String::from("a"));
    assert_eq!(n.tags, vec![String::from("b")]);
}

#[test]
fn dependencies_toggle_and_stay_sorted() {
    let mut n = Note::default();
    n.toggle_dependency(5);
    n.toggle_dependency(2);
    n.toggle_dependency(9);
    assert_eq!(n.depends, vec![2, 5, 9]);
    n.toggle_dependency(5);
    assert_eq!(n.depends, vec![2, 9]);
}

#[test]
fn notes_insert_get_delete() {
    let mut u = UserData::new();
    u.insert_note(plain_note(7, 100, Deadline::Eternal));
    u.insert_note(plain_note(3, 200, Deadline::Eternal));
    u.insert_note(plain_note(5, 300, Deadline::Eternal));
    assert!(u.get_note(3).is_some());
    assert!(u.get_note(4).is_none());
    assert_eq!(u.notes.len(), 3);
    assert_eq!(u.notes[0].id, 3);
    assert_eq!(u.notes[1].id, 5);
    assert_eq!(u.notes[2].id, 7);
    // same id replaces
    u.insert_note(plain_note(5, 999, Deadline::Eternal));
    assert_eq!(u.notes.len(), 3);
    assert_eq!(u.get_note(5).unwrap().priority, 999);
    u.delete_note(5);
    assert!(u.get_note(5).is_none());
    assert_eq!(u.notes.len(), 2);
}

#[test]
fn create_note_carries_active_tags() {
    let mut u = UserData::new();
    let id = u.create_note(vec![String::from("inbox")]);
    let n = u.get_note(id).unwrap();
    assert_eq!(n.text, "");
    assert_eq!(n.tags, vec![String::from("inbox")]);
    assert_eq!(n.priority, 0);
    assert!(!n.complete);
}

#[test]
fn list_notes_orders_by_score_descending() {
    let mut u = UserData::new();
    u.insert_note(plain_note(1, 200, Deadline::Eternal));
    u.insert_note(plain_note(2, 900, Deadline::Eternal));
    u.insert_note(plain_note(3, 500, Deadline::Eternal));
    let order = u.list_notes(738000);
    assert_eq!(order, vec![2, 3, 1]);
}

#[test]
fn list_notes_breaks_ties_by_older_id() {
    let mut u = UserData::new();
    u.insert_note(plain_note(11, 400, Deadline::Eternal));
    u.insert_note(plain_note(4, 400, Deadline::Eternal));
    let order = u.list_notes(738000);
    assert_eq!(order, vec![4, 11]);
}

#[test]
fn board_hides_completed_notes_and_filters() {
    let today = 738000;
    let mut done = plain_note(1, 900, Deadline::Eternal);
    done.complete = true;
    done.text = String::from("finished work");
    let mut tagged = plain_note(2, 500, Deadline::Eternal);
    tagged.tags.push(String::from("work"));
    tagged.text = String::from("Write the Report");
    let mut other = plain_note(3, 100, Deadline::Eternal);
    other.text = String::from("groceries");
    let mut u = UserData::new();
    u.insert_note(done);
    u.insert_note(tagged);
    u.insert_note(other);

    let no_filter: Vec<String> = Vec::new();
    let board = u.board_note_ids(today, &no_filter, "");
    assert_eq!(board, vec![2, 3]);
    // the list view keeps completed notes
    let list = u.list_note_ids(today, &no_filter, "");
    assert_eq!(list, vec![1, 2, 3]);
    // active tags narrow the board
    let active = vec![String::from("work")];
    assert_eq!(u.board_note_ids(today, &active, ""), vec![2]);
    // the search filter is case-insensitive
    assert_eq!(u.board_note_ids(today, &no_filter, "REPORT"), vec![2]);
    assert_eq!(u.board_note_ids(today, &no_filter, "nothing"), Vec::<u128>::new());
}

#[test]
fn userdata_tag_management() {
    let mut u = UserData::new();
    u.add_tag(String::from("keep"));
    u.add_tag(String::from("drop"));
    let mut n = plain_note(1, 0, Deadline::Eternal);
    n.add_tag(String::from("drop"));
    n.add_tag(String::from("keep"));
    u.insert_note(n);
    u.delete_tag(1);
    assert_eq!(u.tags, vec![String::from("keep")]);
    assert_eq!(u.get_note(1).unwrap().tags, vec![String::from("keep")]);
}

#[test]
fn rename_tag_touches_list_and_notes() {
    let mut u = UserData::new();
    u.add_tag(String::from("wrok"));
    let mut n = plain_note(1, 0, Deadline::Eternal);
    n.add_tag(String::from("wrok"));
    n.add_tag(String::from("other"));
    u.insert_note(n);
    u.rename_tag(0, String::from("work"));
    assert_eq!(u.tags, vec![String::from("work")]);
    let renamed = u.get_note(1).unwrap();
    assert!(renamed.has_tag(&String::from("work")));
    assert!(renamed.has_tag(&String::from("other")));
    assert!(!renamed.has_tag(&String::from("wrok")));
}

#[test]
fn missing_tags_are_registered() {
    let mut u = UserData::new();
    u.add_tag(String::from("old"));
    let mut n = plain_note(1, 0, Deadline::Eternal);
    n.add_tag(String::from("old"));
    n.add_tag(String::from("new"));
    u.insert_note(n);
    u.add_missing_tags();
    assert_eq!(u.tags, vec![String::from("old"), String::from("new")]);
}

#[test]
fn scratchpad_and_logbook_hold_plain_values() {
    let mut u = UserData::new();
    u.scratchpad.sections.push(String::from("quick thought"));
    u.logbook.push(LogDay { day: 738000, entries: vec![Note::default()] });
    assert_eq!(u.scratchpad.sections.len(), 1);
    assert_eq!(u.logbook[0].day, 738000);
    let pad = ScratchPad { sections: Vec::new() };
    assert!(pad.sections.is_empty());
}
