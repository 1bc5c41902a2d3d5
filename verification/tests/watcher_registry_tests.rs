use verso_core::assets::copied_asset_name;
use verso_core::assets::decode_clipboard_image;
use verso_core::assets::screenshot_asset_name;
use verso_core::assets::AssetError;
use verso_core::errors::IdFault;
use verso_core::errors::NoteError;
use verso_core::registry::index_dir_name;
use verso_core::registry::folder_key_from_url;
use verso_core::registry::normalize_folder_path;
use verso_core::registry::FolderRegistry;
use verso_core::registry::FolderState;
use verso_core::registry::IndexState;
use verso_core::store::note_metadata_from;
use verso_core::watcher::classify_event;
use verso_core::watcher::effective_kind;
use verso_core::watcher::reconcile_action;
use verso_core::watcher::ChangeKind;
use verso_core::watcher::DebounceTable;
use verso_core::watcher::RawEventKind;
use verso_core::watcher::ReconcileAction;

#[test]
fn two_events_within_half_a_second_yield_one_acceptance() {
    let mut t = DebounceTable::new();
    assert!(t.accept("notes/a.md", 1000));
    assert!(!t.accept("notes/a.md", 1400));
    // past the window the path is accepted again
    assert!(t.accept("notes/a.md", 1501));
}

#[test]
fn debouncing_is_per_path() {
    let mut t = DebounceTable::new();
    assert!(t.accept("a.md", 1000));
    assert!(t.accept("b.md", 1100));
    assert!(!t.accept("a.md", 1200));
    assert!(!t.accept("b.md", 1200));
}

#[test]
fn raw_events_classify() {
    assert_eq!(classify_event(RawEventKind::Create), Some(ChangeKind::Created));
    assert_eq!(classify_event(RawEventKind::Modify), Some(ChangeKind::Modified));
    assert_eq!(classify_event(RawEventKind::Remove), Some(ChangeKind::Deleted));
    assert_eq!(classify_event(RawEventKind::Any), Some(ChangeKind::Modified));
    assert_eq!(classify_event(RawEventKind::Other), None);
}

#[test]
fn vanished_modification_reports_as_deletion() {
    assert_eq!(effective_kind(ChangeKind::Modified, false), ChangeKind::Deleted);
    assert_eq!(effective_kind(ChangeKind::Modified, true), ChangeKind::Modified);
    assert_eq!(effective_kind(ChangeKind::Created, false), ChangeKind::Created);
}

#[test]
fn reconciliation_decisions() {
    match reconcile_action(ChangeKind::Modified, Some(String::from("# T\nbody")), true) {
        ReconcileAction::Reindex { title, content } => {
            assert_eq!(title, "T");
            assert_eq!(content, "# T\nbody");
        },
        _ => panic!("expected a reindex"),
    }
    assert!(matches!(
        reconcile_action(ChangeKind::Modified, None, false),
        ReconcileAction::Remove
    ));
    assert!(matches!(
        reconcile_action(ChangeKind::Modified, None, true),
        ReconcileAction::Nothing
    ));
    assert!(matches!(
        reconcile_action(ChangeKind::Deleted, None, false),
        ReconcileAction::Remove
    ));
}

#[test]
fn opening_a_folder_is_idempotent() {
    let mut reg = FolderRegistry::new();
    assert!(reg.open_folder(String::from("/home/u/notes")));
    assert!(!reg.open_folder(String::from("/home/u/notes")));
    assert_eq!(reg.folders.len(), 1);
    assert!(reg.open_folder(String::from("/home/u/other")));
    assert_eq!(reg.folders.len(), 2);
    assert_eq!(reg.last_folder.as_deref(), Some("/home/u/other"));
}

#[test]
fn unknown_folders_are_not_initialized() {
    let reg = FolderRegistry::new();
    assert_eq!(reg.folder_index("/nowhere").err(), Some(NoteError::NotInitialized));
    let mut reg2 = FolderRegistry::new();
    reg2.open_folder(String::from("/a"));
    assert_eq!(reg2.folder_index("/a"), Ok(0));
}

#[test]
fn fresh_folder_state_has_no_index_and_empty_cache() {
    let st = FolderState::new(String::from("/a"));
    assert_eq!(st.index_state, IndexState::Absent);
    assert!(st.cache.is_empty());
    assert!(!st.watching);
}

#[test]
fn cache_replacement_and_lookup() {
    let mut st = FolderState::new(String::from("/a"));
    st.replace_cache(vec![
        note_metadata_from(String::from("a"), "# A\n", 1),
        note_metadata_from(String::from("b"), "# B\n", 2),
    ]);
    assert_eq!(st.cache.len(), 2);
    assert_eq!(st.cached("a").map(|m| m.title.as_str()), Some("A"));
    assert_eq!(st.cached("zzz").map(|m| m.title.as_str()), None);
    // an insert displaces the entry of the same identifier
    st.cache_insert(note_metadata_from(String::from("a"), "# A2\n", 3));
    assert_eq!(st.cache.len(), 2);
    assert_eq!(st.cached("a").map(|m| m.title.as_str()), Some("A2"));
}

#[test]
fn deleting_a_nonexistent_note_twice_is_no_error() {
    let mut st = FolderState::new(String::from("/a"));
    st.replace_cache(vec![note_metadata_from(String::from("a"), "# A\n", 1)]);
    st.cache_remove("ghost");
    st.cache_remove("ghost");
    assert_eq!(st.cache.len(), 1);
    st.cache_remove("a");
    st.cache_remove("a");
    assert_eq!(st.cache.len(), 0);
}

#[test]
fn folder_keys_normalize() {
    assert_eq!(normalize_folder_path("  /home/u/notes  "), Ok(String::from("/home/u/notes")));
    assert!(normalize_folder_path("   ").is_err());
    assert_eq!(normalize_folder_path("file:///tmp/notes"), Ok(String::from("/tmp/notes")));
    assert!(normalize_folder_path("file://[bad").is_err());
}

#[test]
fn url_conversion_outcomes_map_exactly() {
    assert_eq!(
        folder_key_from_url(Some(String::from("/tmp/notes"))),
        Ok(String::from("/tmp/notes"))
    );
    assert_eq!(
        folder_key_from_url(None),
        Err(NoteError::InvalidIdentifier(IdFault::BadFolderUrl))
    );
}

#[test]
fn index_directories_are_stable_and_isolated() {
    let a = index_dir_name("/home/u/notes");
    let b = index_dir_name("/home/u/notes");
    let c = index_dir_name("/home/u/other");
    assert_eq!(a, b);
    assert_ne!(a, c);
    assert!(a.starts_with("search_indexes/"));
    assert!(a.len() > "search_indexes/".len());
}

#[test]
fn clipboard_payloads_decode_or_fail_distinctly() {
    assert_eq!(decode_clipboard_image("aGVsbG8="), Ok(Vec::from("hello".as_bytes())));
    assert_eq!(decode_clipboard_image("   "), Err(AssetError::EmptyPayload));
    assert_eq!(decode_clipboard_image("!!!not base64"), Err(AssetError::InvalidBase64));
}

#[test]
fn asset_names_avoid_collisions() {
    let (name, rel) = screenshot_asset_name(123, &Vec::new());
    assert_eq!(name, "screenshot-123.png");
    assert_eq!(rel, "assets/screenshot-123.png");
    let taken = vec![String::from("screenshot-123.png")];
    let (name2, _) = screenshot_asset_name(123, &taken);
    assert_eq!(name2, "screenshot-123-1.png");

    let (img, img_rel) = copied_asset_name("my pic", "png", &Vec::new());
    assert_eq!(img, "my pic.png");
    assert_eq!(img_rel, "assets/my pic.png");
    let taken2 = vec![String::from("my pic.png"), String::from("my pic-1.png")];
    let (img2, _) = copied_asset_name("my pic", "png", &taken2);
    assert_eq!(img2, "my pic-2.png");
}
