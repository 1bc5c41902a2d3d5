use verso_core::store::make_note;
use verso_core::store::note_metadata_from;
use verso_core::store::plan_create;
use verso_core::store::plan_save;
use verso_core::store::sort_notes_by_modified;
use verso_core::store::NoteMetadata;
use verso_core::errors::IdFault;
use verso_core::errors::NoteError;

fn ids(v: &[&str]) -> Vec<String> {
    v.iter().map(|s| String::from(*s)).collect()
}

#[test]
fn save_then_read_round_trips_title_and_content() {
    let content = "# Hello\n\nBody";
    let plan = plan_save(None, content, &ids(&[])).unwrap();
    assert_eq!(plan.final_id, "Hello");
    assert_eq!(plan.title, "Hello");
    assert_eq!(plan.file_path, "Hello.md");
    assert_eq!(plan.old_id, None);
    // the caller writes `content` verbatim; reading it back derives the
    // same title and hands the bytes through unchanged
    let note = make_note(plan.final_id, plan.file_path, String::from(content), 7);
    assert_eq!(note.title, "Hello");
    assert_eq!(note.content, content);
    assert_eq!(note.modified, 7);
}

#[test]
fn fresh_saves_avoid_collisions() {
    let plan = plan_save(None, "# Hello\n", &ids(&["Hello", "Hello-1"])).unwrap();
    assert_eq!(plan.final_id, "Hello-2");
    assert_eq!(plan.file_path, "Hello-2.md");
}

#[test]
fn rename_produces_new_identifier() {
    // saving existing note "a" under a title that sanitizes to "b"
    let plan = plan_save(Some(&String::from("a")), "# b\n", &ids(&["a"])).unwrap();
    assert_eq!(plan.final_id, "b");
    assert_eq!(plan.old_id, Some(String::from("a")));
    assert_eq!(plan.old_path, Some(String::from("a.md")));
    assert_eq!(plan.file_path, "b.md");
}

#[test]
fn rename_avoids_collision_with_numeric_suffix() {
    let plan = plan_save(Some(&String::from("a")), "# b\n", &ids(&["a", "b"])).unwrap();
    assert_eq!(plan.final_id, "b-1");
    assert_eq!(plan.old_id, Some(String::from("a")));
}

#[test]
fn unchanged_leaf_saves_in_place() {
    let plan = plan_save(Some(&String::from("b")), "# b\n", &ids(&["a", "b"])).unwrap();
    assert_eq!(plan.final_id, "b");
    assert_eq!(plan.old_id, None);
    assert_eq!(plan.old_path, None);
}

#[test]
fn rename_keeps_directory_prefix() {
    let plan = plan_save(Some(&String::from("sub/a")), "# b\n", &ids(&["sub/a"])).unwrap();
    assert_eq!(plan.final_id, "sub/b");
    assert_eq!(plan.file_path, "sub/b.md");
    assert_eq!(plan.old_id, Some(String::from("sub/a")));
}

#[test]
fn probe_stops_at_the_notes_own_identifier() {
    // "b" is taken, and the probe's next candidate is the note's own
    // identifier: the save stays on "b-1" instead of jumping to "b-2"
    let plan = plan_save(Some(&String::from("b-1")), "# b\n", &ids(&["b", "b-1"])).unwrap();
    assert_eq!(plan.final_id, "b-1");
    assert_eq!(plan.old_id, Some(String::from("b-1")));
    assert_eq!(plan.old_path, Some(String::from("b-1.md")));
}

#[test]
fn saving_under_invalid_identifier_fails() {
    let r = plan_save(Some(&String::from("../x")), "# t\n", &ids(&[]));
    assert_eq!(r.err(), Some(NoteError::InvalidIdentifier(IdFault::ParentComponent)));
}

#[test]
fn created_notes_number_upward_from_untitled() {
    let p0 = plan_create(&ids(&[])).unwrap();
    assert_eq!(p0.id, "Untitled");
    assert_eq!(p0.title, "Untitled");
    assert_eq!(p0.content, "# Untitled\n\n");
    assert_eq!(p0.file_path, "Untitled.md");

    let p1 = plan_create(&ids(&["Untitled"])).unwrap();
    assert_eq!(p1.id, "Untitled-1");
    assert_eq!(p1.title, "Untitled 1");
    assert_eq!(p1.content, "# Untitled 1\n\n");

    let p2 = plan_create(&ids(&["Untitled", "Untitled-1"])).unwrap();
    assert_eq!(p2.id, "Untitled-2");
}

fn meta(id: &str, modified: i64) -> NoteMetadata {
    note_metadata_from(String::from(id), "# t\nbody", modified)
}

#[test]
fn listing_sorts_newest_first() {
    let sorted = sort_notes_by_modified(vec![meta("a", 1), meta("b", 3), meta("c", 2)]);
    let order: Vec<&str> = sorted.iter().map(|m| m.id.as_str()).collect();
    assert_eq!(order, ["b", "c", "a"]);
}

#[test]
fn listing_keeps_arrival_order_on_ties() {
    let sorted = sort_notes_by_modified(vec![meta("x", 2), meta("y", 2), meta("z", 2)]);
    let order: Vec<&str> = sorted.iter().map(|m| m.id.as_str()).collect();
    assert_eq!(order, ["x", "y", "z"]);
}

#[test]
fn metadata_carries_title_preview_and_stamp() {
    let m = note_metadata_from(String::from("n"), "# Top\nfirst line\nsecond", 42);
    assert_eq!(m.id, "n");
    assert_eq!(m.title, "Top");
    assert_eq!(m.preview, "first line second");
    assert_eq!(m.modified, 42);
}
