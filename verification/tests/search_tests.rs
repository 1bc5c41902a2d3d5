use verso_core::search::fallback_search;
use verso_core::search::needs_fallback;
use verso_core::search::search_query;
use verso_core::search::FallbackDoc;
use verso_core::search::IndexProbe;

fn doc(id: &str, title: &str, content: Option<&str>) -> FallbackDoc {
    FallbackDoc {
        id: String::from(id),
        title: String::from(title),
        preview: String::new(),
        modified: 0,
        content: content.map(String::from),
    }
}

#[test]
fn query_matching_one_title_returns_only_that_note() {
    let docs = vec![
        doc("alpha-project", "Alpha Project", Some("# Alpha Project\nplans")),
        doc("beta-notes", "Beta Notes", Some("# Beta Notes\nother")),
    ];
    let hits = fallback_search("alpha", &docs);
    assert_eq!(hits.len(), 1);
    assert_eq!(hits[0].id, "alpha-project");
    assert!(hits[0].score > 0);
}

#[test]
fn query_matching_nothing_returns_empty() {
    let docs = vec![
        doc("alpha-project", "Alpha Project", Some("plans")),
        doc("beta-notes", "Beta Notes", Some("other")),
    ];
    let hits = fallback_search("zebra", &docs);
    assert!(hits.is_empty());
}

#[test]
fn matching_is_case_insensitive() {
    let docs = vec![doc("a", "Alpha Project", Some("text"))];
    let hits = fallback_search("ALPHA", &docs);
    assert_eq!(hits.len(), 1);
}

#[test]
fn content_only_match_scores_below_title_match() {
    // the body-only match is still returned, ranked and scored lower
    let docs = vec![
        doc("body-only", "Unrelated", Some("the query word hides here")),
        doc("in-title", "query in title", Some("no match in body? yes: query")),
    ];
    let hits = fallback_search("query", &docs);
    assert_eq!(hits.len(), 2);
    assert_eq!(hits[0].id, "in-title");
    assert_eq!(hits[0].score, 55);
    assert_eq!(hits[1].id, "body-only");
    assert_eq!(hits[1].score, 10);
    assert!(hits[0].score > hits[1].score);
}

#[test]
fn title_only_match_scores_fifty() {
    let docs = vec![doc("t", "query here", Some("nothing else"))];
    let hits = fallback_search("query", &docs);
    assert_eq!(hits[0].score, 50);
}

#[test]
fn unreadable_content_still_matches_by_title() {
    let docs = vec![doc("t", "query here", None)];
    let hits = fallback_search("query", &docs);
    assert_eq!(hits.len(), 1);
    assert_eq!(hits[0].score, 50);
}

#[test]
fn invalid_identifiers_are_skipped() {
    let docs = vec![doc("../evil", "query", Some("query"))];
    let hits = fallback_search("query", &docs);
    assert!(hits.is_empty());
}

#[test]
fn results_cut_to_twenty() {
    let mut docs = Vec::new();
    for i in 0..25 {
        docs.push(doc(&format!("n{}", i), "query", Some("query")));
    }
    let hits = fallback_search("query", &docs);
    assert_eq!(hits.len(), 20);
}

#[test]
fn ties_keep_document_order() {
    let docs = vec![
        doc("first", "query", None),
        doc("second", "query", None),
    ];
    let hits = fallback_search("query", &docs);
    assert_eq!(hits[0].id, "first");
    assert_eq!(hits[1].id, "second");
}

#[test]
fn blank_queries_are_dismissed_before_any_search() {
    assert_eq!(search_query("   "), None);
    assert_eq!(search_query(""), None);
    assert_eq!(search_query("  term  "), Some(String::from("term")));
}

#[test]
fn fallback_runs_when_index_is_absent_failing_or_empty() {
    assert!(needs_fallback(&IndexProbe::Absent));
    assert!(needs_fallback(&IndexProbe::Error));
    assert!(needs_fallback(&IndexProbe::Hits(0)));
    assert!(!needs_fallback(&IndexProbe::Hits(3)));
}
