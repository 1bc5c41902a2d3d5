use verso_core::codec::id_from_abs_path;
use verso_core::codec::id_from_rel_path;
use verso_core::codec::is_markdown_extension;
use verso_core::codec::is_valid_id;
use verso_core::codec::is_visible_entry;
use verso_core::codec::note_rel_path;
use verso_core::errors::IdFault;
use verso_core::errors::NoteError;

#[test]
fn traversal_identifiers_are_rejected() {
    assert_eq!(
        note_rel_path("../x"),
        Err(NoteError::InvalidIdentifier(IdFault::ParentComponent))
    );
    assert_eq!(
        note_rel_path("a/../../b"),
        Err(NoteError::InvalidIdentifier(IdFault::ParentComponent))
    );
    assert_eq!(
        note_rel_path("/etc/passwd"),
        Err(NoteError::InvalidIdentifier(IdFault::AbsolutePath))
    );
    assert_eq!(
        note_rel_path("a\\b"),
        Err(NoteError::InvalidIdentifier(IdFault::Backslash))
    );
}

#[test]
fn malformed_identifiers_are_rejected() {
    assert_eq!(
        note_rel_path("a/./b"),
        Err(NoteError::InvalidIdentifier(IdFault::CurrentComponent))
    );
    assert_eq!(
        note_rel_path("a//b"),
        Err(NoteError::InvalidIdentifier(IdFault::EmptyComponent))
    );
    assert_eq!(
        note_rel_path("a/"),
        Err(NoteError::InvalidIdentifier(IdFault::EmptyComponent))
    );
    assert!(note_rel_path("").is_err());
    assert!(!is_valid_id("../x"));
    assert!(is_valid_id("a/b"));
}

#[test]
fn plain_identifiers_resolve() {
    assert_eq!(note_rel_path("a"), Ok(String::from("a.md")));
    assert_eq!(note_rel_path("sub/note"), Ok(String::from("sub/note.md")));
}

#[test]
fn dotted_stem_round_trips() {
    // suffix-based extension handling keeps dotted stems intact
    let p = note_rel_path("meeting.2024-01-15").unwrap();
    assert_eq!(p, "meeting.2024-01-15.md");
    assert_eq!(
        id_from_rel_path(&p),
        Some(String::from("meeting.2024-01-15"))
    );
}

#[test]
fn round_trip_plain_and_nested() {
    for id in ["a", "sub/note", "x.y", "deep/er/note"] {
        let p = note_rel_path(id).unwrap();
        assert_eq!(id_from_rel_path(&p).as_deref(), Some(id));
    }
}

#[test]
fn hidden_and_asset_paths_have_no_identifier() {
    assert_eq!(id_from_rel_path(".hidden.md"), None);
    assert_eq!(id_from_rel_path("assets/pic.md"), None);
    assert_eq!(id_from_rel_path(".git/x.md"), None);
    assert_eq!(id_from_rel_path("note.txt"), None);
    assert_eq!(id_from_rel_path("nodot"), None);
    assert_eq!(id_from_rel_path(".md"), None);
}

#[test]
fn absolute_paths_strip_the_root() {
    assert_eq!(
        id_from_abs_path("/home/u/notes", "/home/u/notes/x.md"),
        Some(String::from("x"))
    );
    assert_eq!(
        id_from_abs_path("/home/u/notes", "/home/u/notes/sub/y.md"),
        Some(String::from("sub/y"))
    );
    assert_eq!(id_from_abs_path("/home/u/notes", "/elsewhere/x.md"), None);
    assert_eq!(id_from_abs_path("/home/u/notes", "/home/u/notes"), None);
}

#[test]
fn visible_entries() {
    assert!(is_visible_entry("notes", true));
    assert!(!is_visible_entry(".git", true));
    assert!(!is_visible_entry("assets", true));
    assert!(is_visible_entry("assets", false));
    assert!(is_visible_entry(".hidden-file", false));
    // a directory name that failed text conversion arrives empty and is
    // walked; its entries carry no identifiers anyway
    assert!(is_visible_entry("", true));
}

#[test]
fn errors_describe_themselves() {
    assert_eq!(NoteError::NotInitialized.message(), "Folder not initialized");
    assert_eq!(NoteError::NotFound.message(), "Note not found");
    assert_eq!(NoteError::IoFailure.message(), "File operation failed");
    assert_eq!(NoteError::IndexFailure.message(), "Search index operation failed");
    assert_eq!(
        NoteError::InvalidIdentifier(IdFault::Backslash).message(),
        "Invalid note ID: backslashes not allowed"
    );
    assert_eq!(
        NoteError::InvalidIdentifier(IdFault::ParentComponent).message(),
        "Invalid note ID: parent directory references not allowed"
    );
}

#[test]
fn markdown_extensions() {
    assert!(is_markdown_extension("a/b/Note.md"));
    assert!(is_markdown_extension("X.MD"));
    assert!(is_markdown_extension("doc.markdown"));
    assert!(!is_markdown_extension("doc.txt"));
    assert!(!is_markdown_extension("plain"));
    assert!(!is_markdown_extension(".md"));
    assert!(!is_markdown_extension("a."));
}
