use ygg::cards::{Card, CardKind, Visibility};
use ygg::language::{
    for_extension, for_path, supported_extensions, LanguageId, LanguageModule, MarkdownModule,
    PythonModule, RustModule,
};
use ygg::state::compute_line_offsets;
use ygg::tree::{parse_tree, Grammar};

fn extract_md(src: &str) -> Vec<Card> {
    let tree = parse_tree(Grammar::Markdown, src).expect("parses");
    let offs = compute_line_offsets(src);
    MarkdownModule.extract_cards(&tree, src, &offs)
}

fn extract_rs(src: &str) -> Vec<Card> {
    let tree = parse_tree(Grammar::Rust, src).expect("parses");
    let offs = compute_line_offsets(src);
    RustModule.extract_cards(&tree, src, &offs)
}

#[test]
fn single_h1_is_leaf_function() {
    let cards = extract_md("# Installation\n\nRun the thing.\n");
    assert_eq!(cards.len(), 1);
    assert_eq!(cards[0].kind, CardKind::Function);
    assert_eq!(cards[0].name, "Installation");
    assert_eq!(cards[0].depth, 0);
    assert!(cards[0].body_range.is_some());
}

#[test]
fn h1_with_h2_children_becomes_class() {
    let cards = extract_md("# Top\n\nProse.\n\n## Sub\n\nInner.\n");
    assert_eq!(cards.len(), 2);
    assert_eq!(cards[0].kind, CardKind::Class);
    assert_eq!(cards[0].name, "Top");
    assert_eq!(cards[0].depth, 0);
    assert!(cards[0].body_range.is_none());
    assert_eq!(cards[1].kind, CardKind::Function);
    assert_eq!(cards[1].name, "Sub");
    assert_eq!(cards[1].depth, 1);
    assert_eq!(cards[1].parent, Some(cards[0].id));
}

#[test]
fn three_level_hierarchy() {
    let src = "# Doc\n\n## A\n\n### A1\n\nContent.\n\n### A2\n\nMore.\n";
    let cards = extract_md(src);
    assert_eq!(cards.len(), 4);
    let shape: Vec<(CardKind, &str, usize)> =
        cards.iter().map(|c| (c.kind, c.name.as_str(), c.depth)).collect();
    assert_eq!(
        shape,
        vec![
            (CardKind::Class, "Doc", 0),
            (CardKind::Class, "A", 1),
            (CardKind::Function, "A1", 2),
            (CardKind::Function, "A2", 2),
        ],
    );
}

#[test]
fn sibling_h1s_are_both_top_level() {
    let src = "# First\n\nAlpha.\n\n# Second\n\nBeta.\n";
    let cards = extract_md(src);
    assert_eq!(cards.len(), 2);
    assert_eq!(cards[0].name, "First");
    assert_eq!(cards[0].depth, 0);
    assert_eq!(cards[0].parent, None);
    assert_eq!(cards[1].name, "Second");
    assert_eq!(cards[1].depth, 0);
    assert_eq!(cards[1].parent, None);
}

#[test]
fn inline_formatting_kept_in_heading_name() {
    let cards = extract_md("# The `main` function\n\nBody.\n");
    assert_eq!(cards[0].name, "The `main` function");
}

fn rs_sig(src: &str) -> Vec<(CardKind, String, Visibility, usize)> {
    extract_rs(src).iter().map(|c| (c.kind, c.name.clone(), c.visibility, c.depth)).collect()
}

#[test]
fn rust_top_level_pub_fn() {
    assert_eq!(rs_sig("pub fn greet() {}\n"), vec![(CardKind::Function, "greet".to_string(), Visibility::Public, 0)]);
}

#[test]
fn rust_top_level_private_fn() {
    assert_eq!(rs_sig("fn helper() {}\n"), vec![(CardKind::Function, "helper".to_string(), Visibility::Private, 0)]);
}

#[test]
fn rust_top_level_struct() {
    assert_eq!(
        rs_sig("pub struct Widget { x: i32 }\n"),
        vec![(CardKind::Class, "Widget".to_string(), Visibility::Public, 0)]
    );
}

#[test]
fn rust_top_level_enum() {
    assert_eq!(
        rs_sig("enum Color { Red, Green }\n"),
        vec![(CardKind::Class, "Color".to_string(), Visibility::Private, 0)]
    );
}

#[test]
fn rust_top_level_trait() {
    assert_eq!(
        rs_sig("pub trait Render { fn draw(&self); }\n"),
        vec![
            (CardKind::Class, "Render".to_string(), Visibility::Public, 0),
            (CardKind::Method, "draw".to_string(), Visibility::Private, 1),
        ]
    );
}

#[test]
fn rust_top_level_mod() {
    assert_eq!(
        rs_sig("mod utils { pub fn parse() {} }\n"),
        vec![
            (CardKind::Class, "utils".to_string(), Visibility::Private, 0),
            (CardKind::Method, "parse".to_string(), Visibility::Public, 1),
        ]
    );
}

#[test]
fn impl_block_with_trait_for_type_name() {
    let cards = extract_rs("impl Render for Widget { pub fn draw(&self) {} fn helper(&self) {} }\n");
    assert_eq!(cards.len(), 3);
    assert_eq!(cards[0].kind, CardKind::Class);
    assert_eq!(cards[0].name, "Render for Widget");
    assert_eq!(cards[0].depth, 0);
    assert_eq!(cards[1].kind, CardKind::Method);
    assert_eq!(cards[1].name, "draw");
    assert_eq!(cards[1].visibility, Visibility::Public);
    assert_eq!(cards[1].depth, 1);
    assert_eq!(cards[2].kind, CardKind::Method);
    assert_eq!(cards[2].name, "helper");
    assert_eq!(cards[2].visibility, Visibility::Private);
    assert_eq!(cards[2].parent, Some(cards[0].id));
}

#[test]
fn impl_inherent_uses_type_name() {
    let cards = extract_rs("impl Widget { fn new() -> Self { Widget } }\n");
    assert_eq!(cards[0].name, "Widget");
}

#[test]
fn nested_mod_deepens_children() {
    let cards = extract_rs("mod a { mod b { fn c() {} } }\n");
    assert_eq!(cards.len(), 3);
    assert_eq!((cards[0].depth, cards[0].name.as_str()), (0, "a"));
    assert_eq!((cards[1].depth, cards[1].name.as_str()), (1, "b"));
    assert_eq!((cards[2].depth, cards[2].name.as_str()), (2, "c"));
    assert_eq!(cards[2].kind, CardKind::Method);
}

#[test]
fn use_and_const_and_comments_skipped() {
    let cards = extract_rs("use std::io;\nconst X: i32 = 5;\n// comment\nfn main() {}\n");
    let names: Vec<&str> = cards.iter().map(|c| c.name.as_str()).collect();
    assert_eq!(names, vec!["main"]);
}

#[test]
fn unit_struct_has_no_body() {
    let cards = extract_rs("struct Marker;\n");
    assert_eq!(cards.len(), 1);
    assert!(cards[0].body_range.is_none());
}

#[test]
fn every_module_is_reachable_by_its_canonical_extension() {
    for l in [LanguageId::Python, LanguageId::Rust, LanguageId::Markdown] {
        let exts = l.extensions();
        assert!(!exts.is_empty(), "at least one extension");
        assert_eq!(for_extension(exts[0]), Some(l), "roundtrip");
    }
}

#[test]
fn module_names_and_extensions() {
    assert_eq!(PythonModule.name(), "Python");
    assert_eq!(RustModule.name(), "Rust");
    assert_eq!(MarkdownModule.name(), "Markdown");
    assert_eq!(PythonModule.extensions(), &["py", "pyi"]);
    assert_eq!(RustModule.extensions(), &["rs"]);
    assert_eq!(MarkdownModule.extensions(), &["md", "markdown"]);
    assert_eq!(LanguageId::Rust.name(), "Rust");
}

#[test]
fn extension_lookup_ignores_ascii_case() {
    assert_eq!(for_extension("PY"), Some(LanguageId::Python));
    assert_eq!(for_extension("Markdown"), Some(LanguageId::Markdown));
    assert_eq!(for_extension("txt"), None);
}

#[test]
fn path_lookup_uses_the_last_extension() {
    assert_eq!(for_path("/x/lib.rs"), Some(LanguageId::Rust));
    assert_eq!(for_path("/x/archive.tar.md"), Some(LanguageId::Markdown));
    assert_eq!(for_path("/x/Makefile"), None);
    assert_eq!(for_path("/x/.py"), None);
}

#[test]
fn supported_extensions_lists_every_language() {
    assert_eq!(supported_extensions(), vec!["py", "pyi", "rs", "md", "markdown"]);
}

fn name_of(l: Option<LanguageId>) -> Option<&'static str> {
    l.map(|l| l.name())
}

#[test]
fn extension_dispatch_cases() {
    assert_eq!(name_of(for_extension("py")), Some("Python"));
    assert_eq!(name_of(for_extension("PY")), Some("Python"));
    assert_eq!(name_of(for_extension("rs")), Some("Rust"));
    assert_eq!(name_of(for_extension("md")), Some("Markdown"));
    assert_eq!(name_of(for_extension("markdown")), Some("Markdown"));
    assert_eq!(name_of(for_extension("xyz")), None);
}

#[test]
fn path_dispatch_cases() {
    assert_eq!(name_of(for_path("foo.py")), Some("Python"));
    assert_eq!(name_of(for_path("src/main.rs")), Some("Rust"));
    assert_eq!(name_of(for_path("README.md")), Some("Markdown"));
    assert_eq!(name_of(for_path("Makefile")), None);
    assert_eq!(name_of(for_path("")), None);
}

fn assert_ranges_nest(cards: &[Card]) {
    for c in cards {
        assert!(c.full_range.start <= c.header_range.start, "{}", c.name);
        assert!(c.header_range.start <= c.header_range.end, "{}", c.name);
        assert!(c.header_range.end <= c.full_range.end, "{}", c.name);
        if let Some(b) = &c.body_range {
            assert_eq!(b.start, c.header_range.end, "{}", c.name);
            assert!(b.end <= c.full_range.end, "{}", c.name);
        }
    }
}

#[test]
fn rust_card_ranges_nest() {
    let cards = extract_rs("pub struct S { x: u8 }\nimpl S {\n    fn f(&self) -> u8 { self.x }\n}\nmod m {\n    fn g() {}\n}\n");
    assert_eq!(cards.len(), 5);
    assert_ranges_nest(&cards);
    // A function's body is its block: the header ends where `{` starts.
    let f = &cards[2];
    assert_eq!(f.name, "f");
    assert!(f.body_range.is_some());
}

#[test]
fn markdown_card_ranges_nest() {
    let cards = extract_md("# A\n\nIntro.\n\n## B\n\nText.\n\n# C\n");
    assert_eq!(cards.len(), 3);
    assert_ranges_nest(&cards);
    // The leaf section's prose follows its heading.
    assert!(cards[1].body_range.is_some());
    // A section with subsections has no prose body of its own.
    assert!(cards[0].body_range.is_none());
}
