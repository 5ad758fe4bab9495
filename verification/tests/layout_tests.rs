use ygg::analysis::analyze;
use ygg::cards::CardKind;
use ygg::cardtext::card_text;
use ygg::layout::{body_line_count, card_accent, children_of, docstring_line_count, preamble_lines, rope_spans, Accent};
use ygg::state::SourceFile;

fn load(path: &str, src: &str) -> ygg::analysis::Analysis {
    analyze(SourceFile::from_contents(path.to_string(), src.to_string())).expect("loads")
}

#[test]
fn method_text_is_dedented_to_its_signature() {
    let a = load("/tmp/w.py", "class A:\n    def m(self):\n        return 1\n");
    let m = &a.cards[1];
    assert_eq!(m.kind, CardKind::Method);
    let (text, kinds) = card_text(&a.highlighted, m);
    assert_eq!(text, "def m(self):\n    return 1");
    assert_eq!(kinds.len(), text.len());
}

#[test]
fn class_text_is_its_signature_only() {
    let a = load("/tmp/w.py", "class A:\n    def m(self):\n        return 1\n");
    let (text, _) = card_text(&a.highlighted, &a.cards[0]);
    // The header runs up to the start of the body, indentation included.
    assert_eq!(text, "class A:\n    ");
}

#[test]
fn top_level_function_text_is_unchanged() {
    let src = "@dec\ndef f():\n    pass\n";
    let a = load("/tmp/f.py", src);
    let (text, kinds) = card_text(&a.highlighted, &a.cards[0]);
    assert_eq!(text, "@dec\ndef f():\n    pass");
    assert_eq!(kinds, a.highlighted.kinds[0..text.len()].to_vec());
}

#[test]
fn line_counts_of_cards() {
    let a = load("/tmp/f.py", "@dec\ndef f():\n    \"doc\"\n    pass\nclass C:\n    x = 1\n");
    let f = &a.cards[0];
    // Decorator and signature stay visible when folded.
    assert_eq!(preamble_lines(f), 2);
    assert_eq!(body_line_count(f), 2);
    assert_eq!(docstring_line_count(f), Some(1));
    let c = &a.cards[1];
    assert_eq!(c.kind, CardKind::Class);
    // The header reaches into the body's first line, where the body starts.
    assert_eq!(preamble_lines(c), 2);
    assert_eq!(docstring_line_count(c), None);
}

#[test]
fn children_are_listed_under_their_parent() {
    let a = load("/tmp/w.py", "class A:\n    def m(self):\n        pass\n    def n(self):\n        pass\ndef f():\n    pass\n");
    assert_eq!(children_of(&a.cards, None), vec![0, 3]);
    assert_eq!(children_of(&a.cards, Some(a.cards[0].id)), vec![1, 2]);
    assert!(children_of(&a.cards, Some(a.cards[1].id)).is_empty());
}

#[test]
fn rope_spans_cover_first_to_last_row() {
    // Rows at depths 0, 1, 2, 1, 0 get ropes 0, 1, 2, 1, 0.
    let ids = vec![0usize, 1, 2, 1, 0];
    assert_eq!(rope_spans(&ids, 3), vec![Some((0, 4)), Some((1, 3)), Some((2, 2))]);
    assert_eq!(rope_spans(&ids, 4)[3], None);
}

#[test]
fn accents_follow_kind_then_modifier_then_visibility() {
    let a = load(
        "/tmp/w.py",
        "import os\nclass A:\n    @classmethod\n    def c(cls):\n        pass\n    @property\n    def p(self):\n        pass\n    def _h(self):\n        pass\ndef f():\n    pass\n",
    );
    let accents: Vec<Accent> = a.cards.iter().map(card_accent).collect();
    assert_eq!(
        accents,
        vec![Accent::Snippet, Accent::Spine, Accent::Classmethod, Accent::Property, Accent::Private, Accent::Public]
    );
    assert!(Accent::Private.is_narrow());
    assert!(Accent::Snippet.is_narrow());
    assert!(!Accent::Spine.is_narrow());
}
