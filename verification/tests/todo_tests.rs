use todomvc::codec::{decode_entries, encode_entries};
use todomvc::entry::Entry;
use todomvc::filter::Filter;
use todomvc::state::{resolve_filtered_index, State, StateError};

fn entry(description: &str, completed: bool, editing: bool) -> Entry {
    Entry { description: String::from(description), completed, editing }
}

fn state_with(entries: Vec<Entry>, filter: Filter) -> State {
    State { entries, filter, value: String::new(), edit_value: String::new() }
}

fn descriptions(s: &State) -> Vec<String> {
    let mut out = Vec::new();
    let mut i = 0;
    while i < s.entries.len() {
        out.push(s.entries[i].description.clone());
        i += 1;
    }
    out
}

fn assert_entries_equal(a: &[Entry], b: &[Entry]) {
    assert_eq!(a.len(), b.len());
    let mut i = 0;
    while i < a.len() {
        assert_eq!(a[i].description, b[i].description);
        assert_eq!(a[i].completed, b[i].completed);
        assert_eq!(a[i].editing, b[i].editing);
        i += 1;
    }
}

#[test]
fn filter_all_fits_everything() {
    let done = entry("done", true, false);
    let open = entry("open", false, false);
    assert!(Filter::All.fits(&done));
    assert!(Filter::All.fits(&open));
}

#[test]
fn filter_active_completed_partition() {
    let done = entry("done", true, false);
    let open = entry("open", false, false);
    assert!(!Filter::Active.fits(&done));
    assert!(Filter::Completed.fits(&done));
    assert!(Filter::Active.fits(&open));
    assert!(!Filter::Completed.fits(&open));
}

#[test]
fn filter_links_and_labels() {
    assert_eq!(Filter::All.as_href(), "#/");
    assert_eq!(Filter::Active.as_href(), "#/active");
    assert_eq!(Filter::Completed.as_href(), "#/completed");
    assert_eq!(Filter::All.label(), "All");
    assert_eq!(Filter::Active.label(), "Active");
    assert_eq!(Filter::Completed.label(), "Completed");
}

#[test]
fn add_empty_leaves_entries_unchanged() {
    let mut s = state_with(vec![entry("keep", false, false)], Filter::All);
    s.value = String::from("draft");
    s.add("");
    assert_eq!(s.entries.len(), 1);
    assert_eq!(s.value, "");
}

#[test]
fn add_blank_leaves_entries_unchanged() {
    let mut s = state_with(vec![entry("keep", false, false)], Filter::All);
    s.value = String::from("draft");
    s.add("   ");
    assert_eq!(s.entries.len(), 1);
    assert_eq!(s.value, "");
}

#[test]
fn add_trims_description() {
    let mut s = state_with(vec![], Filter::All);
    s.value = String::from(" Buy milk ");
    s.add(" Buy milk ");
    assert_eq!(s.entries.len(), 1);
    assert_eq!(s.entries[0].description, "Buy milk");
    assert!(!s.entries[0].completed);
    assert!(!s.entries[0].editing);
    assert_eq!(s.value, "");
}

#[test]
fn toggle_resolves_against_filtered_view() {
    let mut s = state_with(
        vec![entry("A", false, false), entry("B", true, false), entry("C", false, false)],
        Filter::Active,
    );
    let r = s.toggle(1);
    assert!(r.is_ok());
    assert!(!s.entries[0].completed); // A untouched
    assert!(s.entries[1].completed); // B untouched
    assert!(s.entries[2].completed); // C flipped
}

#[test]
fn resolve_filtered_index_maps_to_absolute() {
    let entries =
        vec![entry("A", false, false), entry("B", true, false), entry("C", false, false)];
    assert_eq!(resolve_filtered_index(&entries, Filter::Active, 0), Ok(0));
    assert_eq!(resolve_filtered_index(&entries, Filter::Active, 1), Ok(2));
    assert_eq!(resolve_filtered_index(&entries, Filter::Completed, 0), Ok(1));
    assert_eq!(
        resolve_filtered_index(&entries, Filter::Active, 2),
        Err(StateError::IndexOutOfRange)
    );
}

#[test]
fn clear_completed_keeps_survivors_in_order() {
    let mut s = state_with(
        vec![
            entry("A", false, false),
            entry("B", true, false),
            entry("C", true, false),
            entry("D", false, false),
        ],
        Filter::All,
    );
    s.clear_completed();
    assert_eq!(descriptions(&s), vec![String::from("A"), String::from("D")]);
}

#[test]
fn complete_edit_empty_equals_remove() {
    let make = || {
        state_with(
            vec![entry("A", false, false), entry("B", true, false), entry("C", false, true)],
            Filter::Active,
        )
    };
    let mut via_complete = make();
    let mut via_remove = make();
    let r1 = via_complete.complete_edit(1, String::new());
    let r2 = via_remove.remove(1);
    assert_eq!(r1, r2);
    assert_entries_equal(&via_complete.entries, &via_remove.entries);
}

#[test]
fn complete_edit_sets_description_and_flips_editing() {
    let mut s = state_with(
        vec![entry("A", false, false), entry("B", true, true)],
        Filter::Completed,
    );
    let r = s.complete_edit(0, String::from("B2"));
    assert!(r.is_ok());
    assert_eq!(s.entries[1].description, "B2");
    assert!(s.entries[1].completed);
    assert!(!s.entries[1].editing); // was true, flipped to false
    assert_eq!(s.entries[0].description, "A");
}

#[test]
fn complete_edit_flips_editing_even_when_not_editing() {
    let mut s = state_with(vec![entry("A", false, false)], Filter::All);
    let r = s.complete_edit(0, String::from("A2"));
    assert!(r.is_ok());
    assert_eq!(s.entries[0].description, "A2");
    assert!(s.entries[0].editing); // flipped from false to true, as specified
}

#[test]
fn remove_out_of_range_is_error_and_no_change() {
    let mut s = state_with(
        vec![entry("A", false, false), entry("B", true, false)],
        Filter::Active,
    );
    let r = s.remove(1); // filtered view has one member only
    assert_eq!(r, Err(StateError::IndexOutOfRange));
    assert_eq!(s.entries.len(), 2);
    assert_eq!(s.entries[0].description, "A");
    assert_eq!(s.entries[1].description, "B");
}

#[test]
fn remove_resolves_against_filtered_view() {
    let mut s = state_with(
        vec![entry("A", false, false), entry("B", true, false), entry("C", false, false)],
        Filter::Active,
    );
    let r = s.remove(1);
    assert!(r.is_ok());
    assert_eq!(descriptions(&s), vec![String::from("A"), String::from("B")]);
}

#[test]
fn is_all_completed_empty_view_is_false() {
    let s = state_with(vec![], Filter::All);
    assert!(!s.is_all_completed());
    let t = state_with(vec![entry("A", false, false)], Filter::Completed);
    assert!(!t.is_all_completed());
}

#[test]
fn is_all_completed_consults_first_of_view_only() {
    let s = state_with(
        vec![entry("A", true, false), entry("B", false, false)],
        Filter::All,
    );
    assert!(s.is_all_completed()); // first is completed, B is ignored
    let t = state_with(
        vec![entry("A", false, false), entry("B", true, false)],
        Filter::All,
    );
    assert!(!t.is_all_completed());
}

#[test]
fn totals_count_whole_collection() {
    let s = state_with(
        vec![entry("A", true, false), entry("B", false, false), entry("C", true, false)],
        Filter::Active,
    );
    assert_eq!(s.total(), 3);
    assert_eq!(s.total_completed(), 2);
}

#[test]
fn toggle_all_sets_only_fitting_entries() {
    let mut s = state_with(
        vec![entry("A", false, false), entry("B", true, false), entry("C", false, false)],
        Filter::Active,
    );
    s.toggle_all(true);
    assert!(s.entries[0].completed);
    assert!(s.entries[1].completed); // already true, fits Active? no — untouched, stays true
    assert!(s.entries[2].completed);
    let mut t = state_with(
        vec![entry("A", false, false), entry("B", true, false)],
        Filter::Completed,
    );
    t.toggle_all(false);
    assert!(!t.entries[0].completed); // did not fit Completed, untouched
    assert!(!t.entries[1].completed); // fitted, set to false
}

#[test]
fn toggle_edit_and_clear_all_edit() {
    let mut s = state_with(
        vec![entry("A", false, false), entry("B", true, false), entry("C", false, false)],
        Filter::Active,
    );
    let r = s.toggle_edit(1);
    assert!(r.is_ok());
    assert!(!s.entries[0].editing);
    assert!(!s.entries[1].editing);
    assert!(s.entries[2].editing); // second active entry is C
    s.clear_all_edit();
    assert!(!s.entries[0].editing && !s.entries[1].editing && !s.entries[2].editing);
}

#[test]
fn toggle_edit_out_of_range_is_error() {
    let mut s = state_with(vec![entry("A", true, false)], Filter::Active);
    assert_eq!(s.toggle_edit(0), Err(StateError::IndexOutOfRange));
    assert_eq!(s.toggle(0), Err(StateError::IndexOutOfRange));
    assert_eq!(s.complete_edit(0, String::from("x")), Err(StateError::IndexOutOfRange));
}

#[test]
fn start_edit_buffers_description_and_marks_single_editor() {
    let mut s = state_with(
        vec![entry("A", false, true), entry("B", true, false), entry("C", false, false)],
        Filter::Active,
    );
    let r = s.start_edit(1);
    assert!(r.is_ok());
    // the buffered description comes from the absolute position 1,
    // while the editing flag lands on the second *active* entry, C
    assert_eq!(s.edit_value, "B");
    assert!(!s.entries[0].editing);
    assert!(!s.entries[1].editing);
    assert!(s.entries[2].editing);
}

#[test]
fn start_edit_out_of_range_is_error() {
    let mut s = state_with(vec![entry("A", true, false)], Filter::Active);
    assert_eq!(s.start_edit(0), Err(StateError::IndexOutOfRange));
    assert_eq!(s.start_edit(7), Err(StateError::IndexOutOfRange));
}

#[test]
fn submit_edit_trims_and_commits_buffer() {
    let mut s = state_with(vec![entry("A", false, true)], Filter::All);
    s.update_edit_value(String::from("  A fixed  "));
    let r = s.submit_edit(0);
    assert!(r.is_ok());
    assert_eq!(s.entries[0].description, "A fixed");
    assert_eq!(s.edit_value, "");
}

#[test]
fn submit_edit_blank_buffer_removes_entry() {
    let mut s = state_with(
        vec![entry("A", false, false), entry("B", false, true)],
        Filter::All,
    );
    s.update_edit_value(String::from("   "));
    let r = s.submit_edit(1);
    assert!(r.is_ok());
    assert_eq!(descriptions(&s), vec![String::from("A")]);
}

#[test]
fn update_value_and_update_edit_value_assign() {
    let mut s = state_with(vec![], Filter::All);
    s.update_value(String::from("typing"));
    assert_eq!(s.value, "typing");
    s.update_edit_value(String::from("editing"));
    assert_eq!(s.edit_value, "editing");
    s.set_filter(Filter::Completed);
    assert!(matches!(s.filter, Filter::Completed));
}

#[test]
fn encode_decode_round_trip() {
    let entries = vec![
        entry("Buy milk", false, false),
        entry("a;b,c=d;description=2;x", true, false),
        entry("", false, true),
        entry("true,editing=false;", true, true),
    ];
    let wire = encode_entries(&entries);
    let back = decode_entries(wire.as_str()).expect("round trip must decode");
    assert_entries_equal(&entries, &back);
}

#[test]
fn encode_empty_collection_round_trips() {
    let entries: Vec<Entry> = vec![];
    let wire = encode_entries(&entries);
    assert_eq!(wire, "0;");
    let back = decode_entries(wire.as_str()).expect("empty collection must decode");
    assert_eq!(back.len(), 0);
}

#[test]
fn encode_produces_named_fields() {
    let entries = vec![entry("abc", true, false)];
    let wire = encode_entries(&entries);
    assert_eq!(wire, "1;description=3;abc,completed=true,editing=false;");
}

#[test]
fn decode_accepts_handwritten_wire_text() {
    let wire = "2;description=1;x,completed=false,editing=true;description=0;,completed=true,editing=false;";
    let v = decode_entries(wire).expect("well-formed wire text must decode");
    assert_eq!(v.len(), 2);
    assert_eq!(v[0].description, "x");
    assert!(!v[0].completed);
    assert!(v[0].editing);
    assert_eq!(v[1].description, "");
    assert!(v[1].completed);
    assert!(!v[1].editing);
}

#[test]
fn decode_rejects_garbage() {
    assert!(decode_entries("").is_none());
    assert!(decode_entries("nonsense").is_none());
    assert!(decode_entries(";").is_none());
    assert!(decode_entries("1;").is_none()); // announces one entry, holds none
    assert!(decode_entries("2;description=1;x,completed=false,editing=true;").is_none());
    assert!(decode_entries("1;description=9;x,completed=false,editing=true;").is_none());
    assert!(decode_entries("1;description=1;x,completed=maybe,editing=true;").is_none());
    assert!(decode_entries("99999999999999999999999999;").is_none());
    let valid = "1;description=1;x,completed=false,editing=true;";
    let mut with_trailer = String::from(valid);
    with_trailer.push_str("extra");
    assert!(decode_entries(valid).is_some());
    assert!(decode_entries(with_trailer.as_str()).is_none());
}
