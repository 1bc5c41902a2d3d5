use verso_core::markdown::generate_preview;
use verso_core::markdown::strip_markdown;
use verso_core::text::extract_title;
use verso_core::text::extract_title_from_id;
use verso_core::text::is_effectively_empty;
use verso_core::text::sanitize_filename;

#[test]
fn title_from_heading() {
    assert_eq!(extract_title("# Hello\n\nBody"), "Hello");
}

#[test]
fn title_from_frontmatter_content() {
    // frontmatter is excluded from the title
    assert_eq!(extract_title("---\nkey: v\n---\n# Title\nBody"), "Title");
}

#[test]
fn preview_skips_frontmatter_and_title() {
    // frontmatter is excluded from the preview as well
    assert_eq!(generate_preview("---\nkey: v\n---\n# Title\nBody"), "Body");
}

#[test]
fn title_of_empty_content_is_untitled() {
    assert_eq!(extract_title(""), "Untitled");
    assert_eq!(extract_title("   \n\t\n"), "Untitled");
}

#[test]
fn title_from_first_nonblank_line_cut_to_fifty() {
    let long = "abcdefghij".repeat(6); // 60 chars
    let expect: String = long.chars().take(50).collect();
    assert_eq!(extract_title(&long), expect);
    assert_eq!(extract_title("\n\nplain line"), "plain line");
}

#[test]
fn heading_with_blank_title_falls_through() {
    // "#  " trims to "#", which is not blank, so it becomes the title
    assert_eq!(extract_title("#  \nnext"), "#");
}

#[test]
fn sanitize_replaces_and_falls_back() {
    assert_eq!(sanitize_filename("a/b:c*d?e\"f<g>h|i"), "a-b-c-d-e-f-g-h-i");
    assert_eq!(sanitize_filename("  spaced  "), "spaced");
    assert_eq!(sanitize_filename("   "), "Untitled");
    assert_eq!(sanitize_filename("\u{00A0}\u{FEFF}"), "Untitled");
    assert_eq!(sanitize_filename("a\\b"), "a-b");
}

#[test]
fn effectively_empty_sees_special_blanks() {
    assert!(is_effectively_empty(" \u{00A0}\u{FEFF}\t"));
    assert!(!is_effectively_empty(" x "));
}

#[test]
fn all_unicode_whitespace_counts_as_blank() {
    // vertical tab, form feed, next line, em space, ideographic space
    assert!(is_effectively_empty("\u{000B}\u{000C}\u{0085}\u{2003}\u{3000}"));
    assert_eq!(extract_title("\u{2003}\u{2003}\nplain"), "plain");
    assert_eq!(sanitize_filename("\u{2003}\u{000B}"), "Untitled");
    assert_eq!(sanitize_filename("\u{2003}name\u{2003}"), "name");
}

#[test]
fn strip_markdown_pairs() {
    assert_eq!(strip_markdown("**bold** and *it*"), "bold and it");
    assert_eq!(strip_markdown("~~gone~~ `code`"), "gone code");
    assert_eq!(strip_markdown("__deep__ _thin_"), "deep thin");
}

#[test]
fn strip_markdown_leaves_unmatched_delimiters() {
    assert_eq!(strip_markdown("**open"), "**open");
    assert_eq!(strip_markdown("a_b"), "a_b");
}

#[test]
fn strip_markdown_images_and_links() {
    assert_eq!(strip_markdown("see ![alt text](img.png) here"), "see alt text here");
    assert_eq!(strip_markdown("a [label](http://x) b"), "a label b");
}

#[test]
fn strip_markdown_image_empty_alt_collapses() {
    assert_eq!(strip_markdown("x ![](pic) y"), "x  y");
}

#[test]
fn strip_markdown_headings_and_lists() {
    assert_eq!(strip_markdown("## heading"), "heading");
    assert_eq!(strip_markdown("- item"), "item");
    assert_eq!(strip_markdown("12. numbered"), "numbered");
    assert_eq!(strip_markdown("- [x] done task"), "done task");
    assert_eq!(strip_markdown("- [ ] open task"), "open task");
}

#[test]
fn preview_joins_lines_and_cuts_at_two_hundred() {
    let p = generate_preview("# T\nfirst\n\nsecond");
    assert_eq!(p, "first second");
    let long_line = "a".repeat(300);
    let content = format!("# T\n{}", long_line);
    let p2 = generate_preview(&content);
    assert_eq!(p2.chars().count(), 200);
    assert!(p2.chars().all(|c| c == 'a'));
}

#[test]
fn humanized_titles() {
    assert_eq!(extract_title_from_id("meeting-notes_2024"), "Meeting Notes 2024");
    assert_eq!(extract_title_from_id("sub/dir-name"), "Dir Name");
    assert_eq!(extract_title_from_id("Untitled-1"), "Untitled 1");
    assert_eq!(extract_title_from_id("alpha"), "Alpha");
}
