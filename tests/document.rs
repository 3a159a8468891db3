use lsp_server::code_action::offers_quick_fix;
use lsp_server::document::{ContentChange, DocumentError, TextDocument};
use lsp_server::position::{Position, Range};
use tower_lsp::lsp_types::Url;

fn doc(text: &str, version: i32) -> TextDocument {
    TextDocument::new(
        Url::parse("file://somename").unwrap(),
        "rust".to_string(),
        version,
        text.to_string(),
    )
}

fn range(sl: u32, sc: u32, el: u32, ec: u32) -> Range {
    Range {
        start: Position { line: sl, character: sc },
        end: Position { line: el, character: ec },
    }
}

fn edit(r: Range, text: &str) -> ContentChange {
    ContentChange { range: Some(r), text: text.to_string() }
}

fn full(text: &str) -> ContentChange {
    ContentChange { range: None, text: text.to_string() }
}

#[test]
fn parse_content_change() {
    let text_document = doc("some\ncool over\nhere\nlast", 3);
    let content_change = edit(range(2, 2, 3, 1), "r");
    let new_text_doc = text_document.commit(vec![content_change], 3).unwrap();
    assert_eq!(new_text_doc.text, "some\ncool over\nherast".to_string());
}

#[test]
fn scenario_commit_sets_committed_version() {
    let d = doc("some\ncool over\nhere\nlast", 3);
    let d = d.commit(vec![edit(range(2, 2, 3, 1), "r")], 4).unwrap();
    assert_eq!(d.text, "some\ncool over\nherast");
    assert_eq!(d.get_version(), 4);
}

#[test]
fn batch_applies_in_reverse_order() {
    let d = doc("abc", 1);
    let changes = vec![edit(range(0, 0, 0, 1), "X"), edit(range(0, 2, 0, 3), "Y")];
    let d = d.commit(changes, 2).unwrap();
    assert_eq!(d.text, "XbY");
}

#[test]
fn forward_order_gives_another_text_when_lengths_change() {
    let reverse = doc("abc", 1)
        .commit(vec![edit(range(0, 0, 0, 1), "XX"), edit(range(0, 2, 0, 3), "Y")], 2)
        .unwrap();
    assert_eq!(reverse.text, "XXbY");
    // the same two edits, listed so that the one at the front goes first
    let forward = doc("abc", 1)
        .commit(vec![edit(range(0, 2, 0, 3), "Y"), edit(range(0, 0, 0, 1), "XX")], 2)
        .unwrap();
    assert_eq!(forward.text, "XXYc");
    assert_ne!(reverse.text, forward.text);
}

#[test]
fn disjoint_ascending_edits_interleave() {
    let d = doc("abcdef\nghij", 1);
    let changes = vec![
        edit(range(0, 1, 0, 2), "XYZ"),
        edit(range(0, 4, 0, 5), ""),
        edit(range(1, 0, 1, 2), "Q"),
    ];
    let d = d.commit(changes, 2).unwrap();
    assert_eq!(d.text, "aXYZcdf\nQij");
}

#[test]
fn end_past_text_is_clamped() {
    let d = doc("abcd", 1);
    assert_eq!(d.range_to_indices(&range(0, 1, 0, 9)), Ok(1..4));
    assert_eq!(d.select_range(&range(0, 1, 0, 9)), Ok("bcd"));
}

#[test]
fn inverted_range_is_swapped() {
    let d = doc("abcd", 1);
    assert_eq!(d.range_to_indices(&range(0, 3, 0, 1)), Ok(1..3));
    assert_eq!(d.select_range(&range(0, 3, 0, 1)), Ok("bc"));
}

#[test]
fn start_past_text_stays_inverted_after_clamp() {
    let d = doc("abcd", 1);
    // 6..8 clamps to 6..4, which is not swapped
    assert_eq!(d.range_to_indices(&range(0, 6, 0, 8)), Ok(6..4));
    // inverted 9..6 clamps to 9..4 as well
    assert_eq!(d.range_to_indices(&range(0, 9, 0, 6)), Ok(9..4));
    assert_eq!(d.range_to_indices(&range(0, 5, 0, 7)), Ok(5..4));
    // such a pair cannot cut the text
    assert_eq!(d.select_range(&range(0, 5, 0, 7)), Err(DocumentError::OutOfRangeOffset));
    let r = doc("abcd", 1).commit(vec![edit(range(0, 6, 0, 8), "x")], 2);
    assert!(matches!(r, Err(DocumentError::OutOfRangeOffset)));
}

#[test]
fn swap_may_reach_past_text() {
    let d = doc("abcd", 1);
    // the end is within the text, so no clamp; the swap then gives 2..6
    assert_eq!(d.range_to_indices(&range(0, 6, 0, 2)), Ok(2..6));
    assert_eq!(d.select_range(&range(0, 6, 0, 2)), Err(DocumentError::OutOfRangeOffset));
}

#[test]
fn start_at_text_end_with_end_past_it() {
    let d = doc("abcd", 1);
    assert_eq!(d.range_to_indices(&range(0, 4, 0, 7)), Ok(4..4));
}

#[test]
fn line_beyond_text_is_an_error() {
    let d = doc("ab\ncd", 1);
    assert_eq!(d.range_to_indices(&range(2, 0, 2, 0)), Err(DocumentError::OutOfRangeLine));
    assert_eq!(d.select_range(&range(0, 0, 5, 0)), Err(DocumentError::OutOfRangeLine));
}

#[test]
fn offset_inside_a_character_is_an_error() {
    let d = doc("\u{e9}x", 1);
    assert_eq!(d.range_to_indices(&range(0, 1, 0, 2)), Ok(1..2));
    assert_eq!(d.select_range(&range(0, 1, 0, 2)), Err(DocumentError::OutOfRangeOffset));
    assert_eq!(d.range_to_indices(&range(0, 0, 0, 2)), Ok(0..2));
    assert_eq!(d.select_range(&range(0, 2, 0, 3)), Ok("x"));
}

#[test]
fn trailing_newline_starts_a_line() {
    let d = doc("a\n", 1);
    assert_eq!(d.range_to_indices(&range(1, 0, 1, 0)), Ok(2..2));
    let d = d.commit(vec![edit(range(1, 0, 1, 0), "b")], 2).unwrap();
    assert_eq!(d.text, "a\nb");
}

#[test]
fn failed_change_fails_the_commit() {
    let d = doc("abc", 1);
    let r = d.commit(vec![edit(range(0, 0, 0, 1), "X"), edit(range(4, 0, 4, 0), "Y")], 2);
    assert!(matches!(r, Err(DocumentError::OutOfRangeLine)));
}

#[test]
fn full_replace_discards_earlier_edits() {
    let d = doc("abc", 1);
    let d = d.commit(vec![full("new"), edit(range(0, 0, 0, 2), "Q")], 2).unwrap();
    assert_eq!(d.text, "new");
}

#[test]
fn edits_after_full_replace_apply_to_new_text() {
    let d = doc("abc", 1);
    let d = d.commit(vec![edit(range(0, 0, 0, 1), "Z"), full("xyz")], 2).unwrap();
    assert_eq!(d.text, "Zyz");
}

#[test]
fn whole_document_round_trip() {
    let d = doc("ab\ncd", 1);
    assert_eq!(d.range_to_indices(&range(0, 0, 1, 2)), Ok(0..5));
    let d = d.commit(vec![edit(range(0, 0, 1, 2), "ab\ncd")], 2).unwrap();
    assert_eq!(d.text, "ab\ncd");
    assert_eq!(d.get_version(), 2);
}

#[test]
fn empty_commit_changes_only_version() {
    let d = doc("some text", 5);
    let d = d.commit(vec![], 9).unwrap();
    assert_eq!(d.text, "some text");
    assert_eq!(d.get_version(), 9);
    assert_eq!(d.get_language_id(), "rust");
}

#[test]
fn selection_matches_translation() {
    let d = doc("some\ncool over\nhere\nlast", 3);
    let r = range(1, 0, 1, 4);
    let span = d.range_to_indices(&r).unwrap();
    assert_eq!(span, 5..9);
    assert_eq!(d.select_range(&r), Ok(&d.text[span]));
    assert_eq!(d.select_range(&r), Ok("cool"));
}

#[test]
fn accessors_return_what_was_given() {
    let d = doc("x", 3);
    assert_eq!(d.get_uri(), Url::parse("file://somename").unwrap());
    assert_eq!(d.get_version(), 3);
    assert_eq!(d.get_language_id(), "rust".to_string());
}

#[test]
fn quick_fix_only_for_hello() {
    assert!(offers_quick_fix("hello"));
    assert!(!offers_quick_fix("hell"));
    assert!(!offers_quick_fix("hello "));
    assert!(!offers_quick_fix("Hello"));
    assert!(!offers_quick_fix(""));
}
