use ygg::cards::{byte_range_to_line_range, whole_file_snippet, Card, CardKind, LineId, MethodModifier, Visibility};
use ygg::language::{LanguageModule, PythonModule};
use ygg::state::compute_line_offsets;
use ygg::tree::{parse_tree, Grammar};

fn extract(src: &str) -> Vec<Card> {
    let tree = parse_tree(Grammar::Python, src).expect("parses");
    let offs = compute_line_offsets(src);
    PythonModule.extract_cards(&tree, src, &offs)
}

fn sig(c: &Card) -> (CardKind, &str, Visibility, MethodModifier, usize) {
    (c.kind, c.name.as_str(), c.visibility, c.modifier, c.depth)
}

fn sigs(src: &str) -> Vec<(CardKind, String, Visibility, MethodModifier, usize)> {
    extract(src)
        .iter()
        .map(|c| {
            let (k, n, v, m, d) = sig(c);
            (k, n.to_string(), v, m, d)
        })
        .collect()
}

fn s(
    k: CardKind,
    n: &str,
    v: Visibility,
    m: MethodModifier,
    d: usize,
) -> (CardKind, String, Visibility, MethodModifier, usize) {
    (k, n.to_string(), v, m, d)
}

use CardKind::{Class, Function, Method, Snippet};
use MethodModifier::{Classmethod, Plain, Property, Staticmethod};
use Visibility::{Private, Public};

#[test]
fn extraction_simple_function() {
    assert_eq!(sigs("def greet():\n    pass\n"), vec![s(Function, "greet", Public, Plain, 0)]);
}

#[test]
fn extraction_private_function() {
    assert_eq!(sigs("def _helper():\n    pass\n"), vec![s(Function, "_helper", Private, Plain, 0)]);
}

#[test]
fn extraction_dunder_is_public() {
    assert_eq!(
        sigs("def __init__(self):\n    pass\n"),
        vec![s(Function, "__init__", Public, Plain, 0)]
    );
}

#[test]
fn extraction_class_with_methods() {
    assert_eq!(
        sigs("class Widget:\n    def open(self):\n        pass\n    def close(self):\n        pass\n"),
        vec![
            s(Class, "Widget", Public, Plain, 0),
            s(Method, "open", Public, Plain, 1),
            s(Method, "close", Public, Plain, 1),
        ]
    );
}

#[test]
fn extraction_classmethod() {
    assert_eq!(
        sigs("class W:\n    @classmethod\n    def make(cls):\n        return cls()\n"),
        vec![s(Class, "W", Public, Plain, 0), s(Method, "make", Public, Classmethod, 1)]
    );
}

#[test]
fn extraction_staticmethod_and_instance() {
    assert_eq!(
        sigs("class W:\n    @staticmethod\n    def util():\n        pass\n    def run(self):\n        pass\n"),
        vec![
            s(Class, "W", Public, Plain, 0),
            s(Method, "util", Public, Staticmethod, 1),
            s(Method, "run", Public, Plain, 1),
        ]
    );
}

#[test]
fn extraction_property() {
    assert_eq!(
        sigs("class W:\n    @property\n    def area(self):\n        return 0\n"),
        vec![s(Class, "W", Public, Plain, 0), s(Method, "area", Public, Property, 1)]
    );
}

#[test]
fn extraction_decorator_stack() {
    assert_eq!(
        sigs("class W:\n    @someother\n    @classmethod\n    def f(cls):\n        pass\n"),
        vec![s(Class, "W", Public, Plain, 0), s(Method, "f", Public, Classmethod, 1)]
    );
}

#[test]
fn extraction_nested_class() {
    assert_eq!(
        sigs("class Outer:\n    class Inner:\n        def m(self):\n            pass\n    def outer_m(self):\n        pass\n"),
        vec![
            s(Class, "Outer", Public, Plain, 0),
            s(Class, "Inner", Public, Plain, 1),
            s(Method, "m", Public, Plain, 2),
            s(Method, "outer_m", Public, Plain, 1),
        ]
    );
}

#[test]
fn extraction_snippets_for_orphan_top_level() {
    assert_eq!(
        sigs("import os\nCONST = 1\ndef f():\n    pass\n"),
        vec![
            s(Snippet, "import_statement", Public, Plain, 0),
            s(Snippet, "expression_statement", Public, Plain, 0),
            s(Function, "f", Public, Plain, 0),
        ]
    );
}

fn decorators(src: &str, idx: usize) -> Vec<String> {
    extract(src)[idx].decorators.clone()
}

#[test]
fn decorators_none_on_plain_function() {
    assert!(decorators("def f():\n    pass\n", 0).is_empty());
}

#[test]
fn decorators_classmethod_preserved() {
    assert_eq!(decorators("class W:\n    @classmethod\n    def make(cls):\n        pass\n", 1), vec!["classmethod"]);
}

#[test]
fn decorators_dataclass_on_class() {
    assert_eq!(decorators("@dataclass\nclass A:\n    x: int = 0\n", 0), vec!["dataclass"]);
}

#[test]
fn decorators_abstractmethod_on_method() {
    assert_eq!(
        decorators("class A:\n    @abstractmethod\n    def m(self):\n        pass\n", 1),
        vec!["abstractmethod"]
    );
}

#[test]
fn decorators_dotted_kept_whole() {
    assert_eq!(
        decorators("class A:\n    @abc.abstractmethod\n    def m(self):\n        pass\n", 1),
        vec!["abc.abstractmethod"]
    );
}

#[test]
fn decorators_call_args_stripped() {
    assert_eq!(decorators("@functools.wraps(f)\ndef g():\n    pass\n", 0), vec!["functools.wraps"]);
}

#[test]
fn decorators_stacked_in_source_order() {
    assert_eq!(
        decorators("class A:\n    @someother\n    @classmethod\n    def f(cls):\n        pass\n", 1),
        vec!["someother", "classmethod"]
    );
}

#[test]
fn decorators_custom_passes_through() {
    assert_eq!(decorators("@my_decorator\ndef f():\n    pass\n", 0), vec!["my_decorator"]);
}

fn flags(src: &str, idx: usize) -> (bool, bool) {
    let c = &extract(src)[idx];
    (c.is_abstract(), c.is_dataclass())
}

#[test]
fn flags_plain_function() {
    assert_eq!(flags("def f():\n    pass\n", 0), (false, false));
}

#[test]
fn flags_abstractmethod_bare() {
    assert_eq!(flags("class A:\n    @abstractmethod\n    def m(self):\n        pass\n", 1), (true, false));
}

#[test]
fn flags_abstractmethod_dotted() {
    assert_eq!(flags("class A:\n    @abc.abstractmethod\n    def m(self):\n        pass\n", 1), (true, false));
}

#[test]
fn flags_abstractclassmethod() {
    assert_eq!(flags("class A:\n    @abstractclassmethod\n    def m(cls):\n        pass\n", 1), (true, false));
}

#[test]
fn flags_dataclass_bare() {
    assert_eq!(flags("@dataclass\nclass A:\n    x: int = 0\n", 0), (false, true));
}

#[test]
fn flags_dataclass_dotted() {
    assert_eq!(flags("@dataclasses.dataclass\nclass A:\n    x: int = 0\n", 0), (false, true));
}

#[test]
fn flags_dataclass_on_method_ignored() {
    assert_eq!(flags("class A:\n    @dataclass\n    def m(self):\n        pass\n", 1), (false, false));
}

fn has_docstring(src: &str, idx: usize) -> (bool, bool) {
    let c = &extract(src)[idx];
    (c.docstring_range.is_some(), c.docstring_lines.is_some())
}

#[test]
fn docstring_absent_on_plain_function() {
    assert_eq!(has_docstring("def f():\n    pass\n", 0), (false, false));
}

#[test]
fn docstring_on_function() {
    assert_eq!(has_docstring("def f():\n    \"short\"\n    pass\n", 0), (true, true));
}

#[test]
fn docstring_on_method() {
    assert_eq!(has_docstring("class A:\n    def m(self):\n        \"doc\"\n        return 1\n", 1), (true, true));
}

#[test]
fn docstring_absent_on_method() {
    assert_eq!(has_docstring("class A:\n    def m(self):\n        return 1\n", 1), (false, false));
}

#[test]
fn docstring_needs_string_first_statement() {
    assert_eq!(has_docstring("def f():\n    x = 1\n    return x\n", 0), (false, false));
}

#[test]
fn docstring_triple_quoted() {
    assert_eq!(has_docstring("def f():\n    \"\"\"triple\"\"\"\n    pass\n", 0), (true, true));
}

#[test]
fn logical_lines_cover_full_range() {
    let src = "def f():\n    \"d\"\n    pass\n";
    let cards = extract(src);
    let c = &cards[0];
    assert_eq!(c.lines.len(), 3);
    for (i, line) in c.lines.iter().enumerate() {
        assert_eq!(line.line_index_in_card, i as u32);
        assert!(line.byte_range.start >= c.full_range.start);
        assert!(line.byte_range.end <= c.full_range.end);
    }
    assert_eq!(c.lines[0].id, LineId(0));
}

#[test]
fn logical_lines_populated_for_snippets() {
    let src = "import os\nCONST = 1\n";
    let cards = extract(src);
    assert_eq!(cards[0].kind, CardKind::Snippet);
    assert_eq!(cards[0].lines.len(), 1);
}

#[test]
fn parent_links_are_set() {
    let src = "class A:\n    def m(self):\n        pass\n";
    let cards = extract(src);
    assert_eq!(cards.len(), 2);
    let class_id = cards[0].id;
    assert_eq!(cards[0].parent, None);
    assert_eq!(cards[1].parent, Some(class_id));
}

#[test]
fn ranges_are_consistent() {
    let src = "def f(x):\n    return x\n";
    let cards = extract(src);
    let c = &cards[0];
    assert!(c.full_range.start <= c.header_range.start);
    assert!(c.header_range.end <= c.full_range.end);
    let body = c.body_range.as_ref().unwrap();
    assert!(body.start >= c.header_range.end);
    assert!(body.end <= c.full_range.end);
}

#[test]
fn decorator_extends_full_range_upward() {
    let src = "@classmethod\ndef f(cls):\n    pass\n";
    let cards = extract(src);
    assert_eq!(cards.len(), 1);
    let c = &cards[0];
    assert_eq!(&src[c.full_range.clone()].chars().next(), &Some('@'));
    assert_eq!(&src[c.header_range.clone()].chars().next(), &Some('d'));
}

#[test]
fn card_ids_are_positions_in_the_list() {
    let cards = extract("class A:\n    def m(self):\n        pass\ndef f():\n    pass\n");
    for (i, c) in cards.iter().enumerate() {
        assert_eq!(c.id.0 as usize, i);
    }
}

#[test]
fn byte_range_to_line_range_maps_bytes_to_lines() {
    let offs = compute_line_offsets("a\nbb\nccc\n");
    // "bb" + its newline: bytes 2..5 lie on line 1 only.
    assert_eq!(byte_range_to_line_range(&(2..5), &offs), 1..2);
    // From the middle of line 0 into line 2.
    assert_eq!(byte_range_to_line_range(&(1..7), &offs), 0..3);
}

#[test]
fn whole_file_snippet_spans_everything() {
    let src = "x = 1\ny = 2\n";
    let offs = compute_line_offsets(src);
    let cards = whole_file_snippet(src, &offs);
    assert_eq!(cards.len(), 1);
    assert_eq!(cards[0].kind, CardKind::Snippet);
    assert_eq!(cards[0].full_range, 0..src.len());
}
