use ygg::header::{HeaderModel, KeywordBadge, ParamChip, ParamKind};
use ygg::language::{LanguageModule, MarkdownModule, PythonModule, RustModule};
use ygg::tree::{parse_tree, Grammar, SyntaxNode};

fn find_all<'a>(n: &'a SyntaxNode, pred: &dyn Fn(&SyntaxNode) -> bool, out: &mut Vec<&'a SyntaxNode>) {
    if pred(n) {
        out.push(n);
        return;
    }
    for c in &n.children {
        find_all(c, pred, out);
    }
}

fn py_header(src: &str) -> HeaderModel {
    let tree = parse_tree(Grammar::Python, src).expect("parses");
    for child in &tree.children {
        match child.kind.as_str() {
            "function_definition" | "class_definition" | "decorated_definition" => {
                return PythonModule.build_header(child, src).expect("builder should accept this node");
            }
            _ => {}
        }
    }
    panic!("no definition node found at root in test source:\n{src}");
}

fn rs_header(src: &str) -> HeaderModel {
    let tree = parse_tree(Grammar::Rust, src).expect("parses");
    for child in &tree.children {
        if let Some(h) = RustModule.build_header(child, src) {
            return h;
        }
    }
    panic!("no item node found at root in test source:\n{src}");
}

fn is_heading(n: &SyntaxNode) -> bool {
    n.kind == "atx_heading" || n.kind == "setext_heading"
}

fn md_header(src: &str) -> HeaderModel {
    let tree = parse_tree(Grammar::Markdown, src).expect("parses");
    let mut hs = Vec::new();
    find_all(&tree, &is_heading, &mut hs);
    let heading = hs.first().unwrap_or_else(|| panic!("no heading node in:\n{src}"));
    MarkdownModule.build_header(heading, src).expect("builder should accept this heading")
}

fn decorator_texts(h: &HeaderModel) -> Vec<&str> {
    h.prelude.decorators.iter().map(|d| d.text.as_str()).collect()
}

fn chip(p: &ParamChip) -> (&str, Option<&str>, Option<&str>, ParamKind) {
    (p.name.as_str(), p.ty.as_ref().map(|t| t.text.as_str()), p.default.as_deref(), p.kind)
}

// ---- Python ----

#[test]
fn python_keyword_and_name() {
    for (src, kw, name) in [
        ("def f(): pass\n", KeywordBadge::Def, "f"),
        ("async def g(): pass\n", KeywordBadge::AsyncDef, "g"),
        ("class Widget: pass\n", KeywordBadge::Class, "Widget"),
    ] {
        let h = py_header(src);
        assert_eq!(h.prelude.keyword, kw);
        assert_eq!(h.name, name);
        assert!(h.prelude.decorators.is_empty());
    }
}

#[test]
fn python_decorators_preserved() {
    let cases: [(&str, &[&str]); 5] = [
        ("@decor\ndef f(): pass\n", &["decor"]),
        ("@functools.wraps(original)\ndef f(): pass\n", &["functools.wraps"]),
        ("@abc.abstractmethod\ndef f(): pass\n", &["abc.abstractmethod"]),
        ("@first\n@second\n@third\ndef f(): pass\n", &["first", "second", "third"]),
        ("@dataclass\nclass C: pass\n", &["dataclass"]),
    ];
    for (src, expected) in cases {
        assert_eq!(decorator_texts(&py_header(src)), expected.to_vec());
    }
}

#[test]
fn python_params() {
    let cases: Vec<(&str, Vec<(&str, Option<&str>, Option<&str>, ParamKind)>)> = vec![
        ("def f(): pass\n", vec![]),
        ("def f(x): pass\n", vec![("x", None, None, ParamKind::Regular)]),
        ("def f(x: int): pass\n", vec![("x", Some("int"), None, ParamKind::Regular)]),
        ("def f(x=5): pass\n", vec![("x", None, Some("5"), ParamKind::Regular)]),
        ("def f(x: int = 5): pass\n", vec![("x", Some("int"), Some("5"), ParamKind::Regular)]),
        ("def f(*args): pass\n", vec![("args", None, None, ParamKind::Star)]),
        ("def f(**kwargs): pass\n", vec![("kwargs", None, None, ParamKind::Kwargs)]),
        (
            "def f(a, *, b): pass\n",
            vec![("a", None, None, ParamKind::Regular), ("", None, None, ParamKind::Star), ("b", None, None, ParamKind::Regular)],
        ),
        (
            "def f(a, /, b): pass\n",
            vec![("a", None, None, ParamKind::Regular), ("", None, None, ParamKind::Slash), ("b", None, None, ParamKind::Regular)],
        ),
        (
            "def f(a, b, /, c, *, d, **kw): pass\n",
            vec![
                ("a", None, None, ParamKind::Regular),
                ("b", None, None, ParamKind::Regular),
                ("", None, None, ParamKind::Slash),
                ("c", None, None, ParamKind::Regular),
                ("", None, None, ParamKind::Star),
                ("d", None, None, ParamKind::Regular),
                ("kw", None, None, ParamKind::Kwargs),
            ],
        ),
    ];
    for (src, expected) in cases {
        let h = py_header(src);
        let got: Vec<_> = h.params.iter().map(chip).collect();
        assert_eq!(got, expected, "params of {src:?}");
    }
}

#[test]
fn python_return_type() {
    for (src, expected) in [
        ("def f(): pass\n", None),
        ("def f() -> int: pass\n", Some("int")),
        ("def f() -> dict[str, list[int]]: pass\n", Some("dict[str, list[int]]")),
    ] {
        let h = py_header(src);
        assert_eq!(h.return_type.as_ref().map(|t| t.text.as_str()), expected);
    }
}

#[test]
fn python_docstring_detection() {
    for (src, present) in [
        ("def f():\n    pass\n", false),
        ("def f():\n    'one-liner'\n    pass\n", true),
        ("def f():\n    \"\"\"Multi\n    line.\n    \"\"\"\n    pass\n", true),
        ("def f():\n    # just a comment\n    pass\n", false),
        ("class C:\n    \"\"\"About C.\"\"\"\n    pass\n", true),
    ] {
        let h = py_header(src);
        assert_eq!(h.docstring.is_some(), present);
        if let Some(ds) = h.docstring {
            assert!(ds.byte_range.end <= src.len());
            assert!(ds.text.contains('\'') || ds.text.contains('"'));
        }
    }
}

#[test]
fn realistic_decorated_async_function() {
    let src = "\
@auth_required
@cache.memoize(ttl=300)
async def fetch_user(
    user_id: int,
    /,
    *,
    include_email: bool = False,
) -> User:
    \"\"\"Look up a user by ID.\"\"\"
    return await db.get(user_id)
";
    let h = py_header(src);
    assert_eq!(h.prelude.keyword, KeywordBadge::AsyncDef);
    assert_eq!(h.name, "fetch_user");
    assert_eq!(decorator_texts(&h), vec!["auth_required", "cache.memoize"]);
    let kinds: Vec<ParamKind> = h.params.iter().map(|p| p.kind).collect();
    assert_eq!(kinds, vec![ParamKind::Regular, ParamKind::Slash, ParamKind::Star, ParamKind::Regular]);
    assert_eq!(h.params[3].default.as_deref(), Some("False"));
    assert_eq!(h.params[3].ty.as_ref().map(|t| t.text.as_str()), Some("bool"));
    assert_eq!(h.return_type.as_ref().map(|t| t.text.as_str()), Some("User"));
    assert!(h.docstring.is_some());
}

#[test]
fn non_definition_node_yields_none() {
    let src = "x = 5\n";
    let tree = parse_tree(Grammar::Python, src).expect("parses");
    for child in &tree.children {
        assert!(PythonModule.build_header(child, src).is_none());
    }
}

// ---- Rust ----

#[test]
fn rust_keyword_and_name() {
    for (src, kw, name) in [
        ("fn greet() {}\n", KeywordBadge::Fn, "greet"),
        ("pub fn open() {}\n", KeywordBadge::Fn, "open"),
        ("struct Widget;\n", KeywordBadge::Struct, "Widget"),
        ("pub struct Widget { x: i32 }\n", KeywordBadge::Struct, "Widget"),
        ("enum Color { Red, Green, Blue }\n", KeywordBadge::Enum, "Color"),
        ("trait Render { fn draw(&self); }\n", KeywordBadge::Trait, "Render"),
        ("mod utils {}\n", KeywordBadge::Mod, "utils"),
    ] {
        let h = rs_header(src);
        assert_eq!(h.prelude.keyword, kw, "keyword of {src:?}");
        assert_eq!(h.name, name);
    }
}

#[test]
fn rust_impl_name() {
    for (src, name) in [
        ("impl Widget { fn open(&self) {} }\n", "Widget"),
        ("impl Render for Widget { fn draw(&self) {} }\n", "Render for Widget"),
    ] {
        let h = rs_header(src);
        assert_eq!(h.prelude.keyword, KeywordBadge::Impl);
        assert_eq!(h.name, name);
    }
}

fn param_view(p: &ParamChip) -> (&str, Option<&str>, ParamKind) {
    (p.name.as_str(), p.ty.as_ref().map(|t| t.text.as_str()), p.kind)
}

#[test]
fn rust_params_bare_functions() {
    let cases: Vec<(&str, Vec<(&str, Option<&str>, ParamKind)>)> = vec![
        ("fn f() {}\n", vec![]),
        ("fn f(x: i32) {}\n", vec![("x", Some("i32"), ParamKind::Regular)]),
        ("impl Foo { fn m(&self) {} }\n", vec![]),
        (
            "fn sum(a: i32, b: i32, c: i32) -> i32 { a + b + c }\n",
            vec![
                ("a", Some("i32"), ParamKind::Regular),
                ("b", Some("i32"), ParamKind::Regular),
                ("c", Some("i32"), ParamKind::Regular),
            ],
        ),
    ];
    for (src, expected) in cases {
        let h = rs_header(src);
        let got: Vec<_> = h.params.iter().map(param_view).collect();
        assert_eq!(got, expected);
    }
}

#[test]
fn method_with_self_receiver() {
    let src = "impl Foo { fn bar(&mut self, x: i32) -> bool { true } }\n";
    let tree = parse_tree(Grammar::Rust, src).expect("parses");
    let impl_item = &tree.children[0];
    let body = impl_item
        .children
        .iter()
        .find(|c| c.field.as_deref() == Some("body"))
        .unwrap();
    let fn_item = body.children.iter().find(|c| c.kind == "function_item").unwrap();
    let h = RustModule.build_header(fn_item, src).unwrap();
    assert_eq!(h.prelude.keyword, KeywordBadge::Fn);
    assert_eq!(h.name, "bar");
    let got: Vec<_> = h.params.iter().map(param_view).collect();
    assert_eq!(
        got,
        vec![("&mut self", None, ParamKind::Regular), ("x", Some("i32"), ParamKind::Regular)],
    );
    assert_eq!(h.return_type.as_ref().map(|t| t.text.as_str()), Some("bool"));
}

#[test]
fn rust_return_type() {
    for (src, expected) in [
        ("fn f() {}\n", None),
        ("fn f() -> i32 { 0 }\n", Some("i32")),
        ("fn f() -> Option<Vec<String>> { None }\n", Some("Option<Vec<String>>")),
        ("fn f() -> Result<(), Error> { Ok(()) }\n", Some("Result<(), Error>")),
    ] {
        let h = rs_header(src);
        assert_eq!(h.return_type.as_ref().map(|t| t.text.as_str()), expected);
    }
}

#[test]
fn non_item_node_yields_none() {
    let src = "const X: i32 = 5;\n";
    let tree = parse_tree(Grammar::Rust, src).expect("parses");
    for child in &tree.children {
        if child.kind == "const_item" {
            assert!(RustModule.build_header(child, src).is_none());
        }
    }
}

// ---- Markdown ----

#[test]
fn atx_heading_levels() {
    for (src, level, name) in [
        ("# Installation\n", 1u8, "Installation"),
        ("## Quick start\n", 2, "Quick start"),
        ("### Details\n", 3, "Details"),
        ("#### Notes\n", 4, "Notes"),
        ("##### More\n", 5, "More"),
        ("###### Deepest\n", 6, "Deepest"),
    ] {
        let h = md_header(src);
        assert_eq!(h.prelude.keyword, KeywordBadge::Heading(level));
        assert_eq!(h.name, name);
        assert!(h.params.is_empty());
        assert!(h.return_type.is_none());
        assert!(h.docstring.is_none());
    }
}

#[test]
fn setext_heading_levels() {
    for (src, level, name) in [
        ("Installation\n============\n", 1u8, "Installation"),
        ("Quick start\n-----------\n", 2, "Quick start"),
    ] {
        let h = md_header(src);
        assert_eq!(h.prelude.keyword, KeywordBadge::Heading(level));
        assert_eq!(h.name, name);
    }
}

#[test]
fn inline_formatting_kept_as_source() {
    for (src, name) in [
        ("# *Emphasized*\n", "*Emphasized*"),
        ("# The `main` function\n", "The `main` function"),
        ("# See [docs](./d.md)\n", "See [docs](./d.md)"),
    ] {
        assert_eq!(md_header(src).name, name);
    }
}

#[test]
fn trailing_whitespace_trimmed() {
    let h = md_header("# Installation   \n");
    assert_eq!(h.name, "Installation");
}

fn first_non_heading(n: &SyntaxNode) -> Option<&SyntaxNode> {
    if !is_heading(n) && n.kind != "document" {
        return Some(n);
    }
    for c in &n.children {
        if let Some(x) = first_non_heading(c) {
            return Some(x);
        }
    }
    None
}

#[test]
fn non_heading_node_yields_none() {
    let src = "Just a paragraph of text.\n";
    let tree = parse_tree(Grammar::Markdown, src).expect("parses");
    if let Some(n) = first_non_heading(&tree) {
        assert!(MarkdownModule.build_header(n, src).is_none());
    }
}

#[test]
fn multiple_headings_processed_independently() {
    let src = "# Top\n\n## Sub\n\n### Deep\n";
    let tree = parse_tree(Grammar::Markdown, src).expect("parses");
    let mut headings = Vec::new();
    find_all(&tree, &is_heading, &mut headings);
    assert_eq!(headings.len(), 3);
    let results: Vec<_> = headings
        .into_iter()
        .map(|n| MarkdownModule.build_header(n, src).unwrap())
        .collect();
    assert_eq!(
        results.iter().map(|h| h.prelude.keyword).collect::<Vec<_>>(),
        vec![KeywordBadge::Heading(1), KeywordBadge::Heading(2), KeywordBadge::Heading(3)],
    );
    assert_eq!(results.iter().map(|h| h.name.as_str()).collect::<Vec<_>>(), vec!["Top", "Sub", "Deep"]);
}
