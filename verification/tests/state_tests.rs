use ygg::cards::{Card, CardId, CardKind, MethodModifier, Visibility};
use ygg::icons::{icon_for_fold_state, IconId, ICON_COUNT};
use ygg::state::{
    card_fold_states, card_slot_index, compute_line_offsets, FoldState, FoldSwitches,
    HighlightedSource, PathStatus, SourceError, SourceFile,
};

#[test]
fn line_offsets_handles_trailing_newline() {
    let c = "a\nbb\nccc\n";
    let offsets = compute_line_offsets(c);
    assert_eq!(offsets, vec![0, 2, 5, 9, 9]);
}

#[test]
fn line_offsets_handles_no_trailing_newline() {
    let c = "a\nbb";
    let offsets = compute_line_offsets(c);
    assert_eq!(offsets, vec![0, 2, 4]);
}

#[test]
fn line_offsets_of_empty_source_is_a_single_line() {
    assert_eq!(compute_line_offsets(""), vec![0, 0]);
}

#[test]
fn line_offsets_count_bytes_not_chars() {
    // "é" is two bytes in UTF-8.
    assert_eq!(compute_line_offsets("é\nx"), vec![0, 3, 4]);
}

fn card(kind: CardKind, docstring: Option<std::ops::Range<usize>>) -> Card {
    Card {
        id: CardId(0),
        kind,
        parent: None,
        depth: 0,
        name: "f".into(),
        visibility: Visibility::Public,
        modifier: MethodModifier::Plain,
        decorators: vec![],
        header_range: 0..0,
        body_range: None,
        full_range: 0..0,
        header_lines: 0..0,
        body_lines: None,
        full_lines: 0..0,
        docstring_lines: docstring.as_ref().map(|_| 1..2),
        docstring_range: docstring,
        lines: vec![],
    }
}

#[test]
fn two_slot_card_slots() {
    let c = card(CardKind::Function, None);
    assert_eq!(card_fold_states(&c).len(), 2);
    assert_eq!(card_slot_index(&c, FoldState::Folded), Some(0));
    assert_eq!(card_slot_index(&c, FoldState::Unfolded), Some(1));
    assert_eq!(card_slot_index(&c, FoldState::HeaderOnly), None);
}

#[test]
fn docstring_card_has_three_fold_slots() {
    let c = card(CardKind::Function, Some(1..5));
    let states = card_fold_states(&c);
    assert_eq!(states.len(), 3);
    assert_eq!(states[0], FoldState::Folded);
    assert_eq!(states[1], FoldState::HeaderOnly);
    assert_eq!(states[2], FoldState::Unfolded);
    assert_eq!(card_slot_index(&c, FoldState::HeaderOnly), Some(1));
}

#[test]
fn class_with_docstring_keeps_two_slots() {
    let c = card(CardKind::Class, Some(1..5));
    assert_eq!(card_fold_states(&c), vec![FoldState::Folded, FoldState::Unfolded]);
}

#[test]
fn snippet_cards_have_no_fold_slots() {
    let mut c = card(CardKind::Snippet, None);
    c.name = "import_statement".into();
    assert!(card_fold_states(&c).is_empty());
    assert_eq!(card_slot_index(&c, FoldState::Folded), None);
}

#[test]
fn press_lifecycle_commit_keeps_target() {
    let id = CardId(0);
    let mut state = FoldSwitches::new();
    state.set_fold_target(id, FoldState::Unfolded);
    state.begin_press(id, FoldState::Folded);
    assert_eq!(state.target(id), FoldState::Folded, "target redirected to clicked slot");
    assert!(state.press.is_some());
    state.commit_press();
    assert!(state.press.is_none());
    assert_eq!(state.target(id), FoldState::Folded, "commit keeps the new target");
}

#[test]
fn press_lifecycle_cancel_restores_target() {
    let id = CardId(0);
    let mut state = FoldSwitches::new();
    state.set_fold_target(id, FoldState::Unfolded);
    state.begin_press(id, FoldState::Folded);
    state.cancel_press();
    assert!(state.press.is_none());
    assert_eq!(state.target(id), FoldState::Unfolded, "cancel restores original target");
}

#[test]
fn cancel_restores_the_default_of_an_untouched_card() {
    let mut state = FoldSwitches::new();
    assert_eq!(state.target(CardId(7)), FoldState::Unfolded);
    state.begin_press(CardId(7), FoldState::HeaderOnly);
    assert_eq!(state.target(CardId(7)), FoldState::HeaderOnly);
    state.cancel_press();
    assert_eq!(state.target(CardId(7)), FoldState::Unfolded);
}

#[test]
fn press_leaves_other_cards_alone() {
    let mut state = FoldSwitches::new();
    state.set_fold_target(CardId(1), FoldState::Folded);
    state.begin_press(CardId(2), FoldState::Folded);
    assert_eq!(state.target(CardId(1)), FoldState::Folded);
    state.cancel_press();
    assert_eq!(state.target(CardId(1)), FoldState::Folded);
    assert_eq!(state.target(CardId(2)), FoldState::Unfolded);
}

#[test]
fn cancel_without_press_changes_nothing() {
    let mut state = FoldSwitches::new();
    state.set_fold_target(CardId(3), FoldState::Folded);
    state.cancel_press();
    assert_eq!(state.target(CardId(3)), FoldState::Folded);
    assert!(state.press.is_none());
}

#[test]
fn icons_follow_the_fold_slots() {
    assert_eq!(icon_for_fold_state(FoldState::Folded), IconId::Rows1);
    assert_eq!(icon_for_fold_state(FoldState::HeaderOnly), IconId::Rows2);
    assert_eq!(icon_for_fold_state(FoldState::Unfolded), IconId::Rows3);
    assert_eq!(IconId::ChevronDown.atlas_index(), 0);
    assert_eq!(IconId::Rows1.atlas_index(), 2);
    assert_eq!(IconId::Rows3.atlas_index(), 4);
    assert_eq!(ICON_COUNT, 5);
}

#[test]
fn source_lines_split_like_the_reader() {
    for (body, count, first) in [
        ("hello\nworld\n", 3, "hello"),
        ("a\r\nb\r\n", 3, "a"),
        ("single", 1, "single"),
        ("", 1, ""),
    ] {
        let sf = SourceFile::from_contents("/tmp/sample.txt".to_string(), body.to_string());
        assert_eq!(sf.lines.len(), count, "line count for body {:?}", body);
        assert_eq!(sf.lines[0], first);
        assert_eq!(sf.contents, body);
    }
}

#[test]
fn source_lines_strip_only_one_trailing_cr() {
    let sf = SourceFile::from_contents("x".to_string(), "a\r\r\nb\rc".to_string());
    assert_eq!(sf.lines, vec!["a\r".to_string(), "b\rc".to_string()]);
}

#[test]
fn reading_reports_typed_errors() {
    let missing = SourceFile::from_read("nope.txt".to_string(), PathStatus::Missing, None);
    assert_eq!(missing.unwrap_err(), SourceError::NotFound("nope.txt".to_string()));
    let dir = SourceFile::from_read("d".to_string(), PathStatus::Directory, None);
    assert_eq!(dir.unwrap_err(), SourceError::IsDirectory("d".to_string()));
    let bad = SourceFile::from_read("f".to_string(), PathStatus::Present, Some(Err("invalid UTF-8".to_string())));
    assert_eq!(
        bad.unwrap_err(),
        SourceError::Io { path: "f".to_string(), message: "invalid UTF-8".to_string() }
    );
    let ok = SourceFile::from_read("f".to_string(), PathStatus::Present, Some(Ok("x\ny".to_string()))).unwrap();
    assert_eq!(ok.lines, vec!["x".to_string(), "y".to_string()]);
}

#[test]
fn highlighted_source_counts_lines() {
    let src = SourceFile::from_contents("/tmp/x.py".to_string(), String::new());
    let hl = HighlightedSource::from_parts(src, vec![], vec![0, 0]);
    assert_eq!(hl.line_count(), 1);
    let src = SourceFile::from_contents("/tmp/x.py".to_string(), "a\nb".to_string());
    let hl = HighlightedSource::from_parts(src, vec![], compute_line_offsets("a\nb"));
    assert_eq!(hl.line_count(), 2);
    let src = SourceFile::from_contents("/tmp/x.py".to_string(), String::new());
    let hl = HighlightedSource::from_parts(src, vec![], vec![]);
    assert_eq!(hl.line_count(), 0);
}

#[test]
fn left_button_click_on_a_slot_sets_its_target() {
    let id = CardId(3);
    let mut s = FoldSwitches::new();
    assert!(s.on_left_button(true, Some((id, FoldState::Folded))));
    assert_eq!(s.target(id), FoldState::Folded, "the target moves on press");
    assert!(s.on_left_button(false, Some((id, FoldState::Folded))));
    assert!(s.press.is_none());
    assert_eq!(s.target(id), FoldState::Folded, "release on the slot commits");
}

#[test]
fn left_button_release_elsewhere_cancels() {
    let id = CardId(3);
    let mut s = FoldSwitches::new();
    s.set_fold_target(id, FoldState::Folded);
    assert!(s.on_left_button(true, Some((id, FoldState::Unfolded))));
    assert!(s.on_left_button(false, Some((CardId(4), FoldState::Unfolded))));
    assert!(s.press.is_none());
    assert_eq!(s.target(id), FoldState::Folded, "release off the slot restores the target");
    assert_eq!(s.target(CardId(4)), FoldState::Unfolded);
}

#[test]
fn left_button_events_without_a_slot_change_nothing() {
    let mut s = FoldSwitches::new();
    assert!(!s.on_left_button(true, None), "press over no slot");
    assert!(!s.on_left_button(false, None), "release with no press in progress");
    assert!(s.press.is_none());
    assert_eq!(s.target(CardId(0)), FoldState::Unfolded);
}
