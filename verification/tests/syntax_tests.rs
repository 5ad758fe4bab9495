use ygg::analysis::{analyze, LoadError};
use ygg::cardtext::{dedent_with_kinds, next_run, runs};
use ygg::language::{LanguageId, LanguageModule, MarkdownModule, PythonModule, RustModule};
use ygg::state::SourceFile;
use ygg::syntax::{paint_captures, Highlighter, TokenKind};
use ygg::tree::Grammar;

#[test]
fn capture_names_map_to_kinds() {
    assert_eq!(TokenKind::from_capture_name("keyword"), TokenKind::Keyword);
    assert_eq!(TokenKind::from_capture_name("keyword.control"), TokenKind::Keyword);
    assert_eq!(TokenKind::from_capture_name("function.builtin"), TokenKind::FunctionBuiltin);
    assert_eq!(TokenKind::from_capture_name("function.method"), TokenKind::Function);
    assert_eq!(TokenKind::from_capture_name("function.macro"), TokenKind::Function);
    assert_eq!(TokenKind::from_capture_name("constant.builtin"), TokenKind::ConstantBuiltin);
    assert_eq!(TokenKind::from_capture_name("constructor"), TokenKind::Class);
    assert_eq!(TokenKind::from_capture_name("punctuation.special"), TokenKind::Punctuation);
    assert_eq!(TokenKind::from_capture_name("punctuation.bracket"), TokenKind::Punctuation);
    assert_eq!(TokenKind::from_capture_name("string.escape"), TokenKind::String);
    assert_eq!(TokenKind::from_capture_name("escape"), TokenKind::EscapeInString);
    assert_eq!(TokenKind::from_capture_name("variable"), TokenKind::Default);
}

#[test]
fn palette_colors() {
    assert_eq!(TokenKind::Default.color(), (220, 222, 230));
    assert_eq!(TokenKind::Keyword.color(), (116, 199, 236));
    assert_eq!(TokenKind::Comment.color(), (100, 115, 140));
    assert_eq!(TokenKind::Punctuation.color(), (170, 170, 185));
}

#[test]
fn narrower_captures_win_over_wider_ones() {
    // capture 0: wide "function" span over bytes 0..10; capture 1: a
    // keyword inside it at 0..3.
    let kinds = vec![TokenKind::Function, TokenKind::Keyword, TokenKind::Default];
    let caps = vec![(0usize, 10usize, 0u32), (0, 3, 1), (4, 6, 2), (8, 20, 1)];
    let out = paint_captures(&caps, &kinds, 12);
    assert_eq!(out.len(), 12);
    assert_eq!(&out[0..3], &[TokenKind::Keyword; 3]);
    assert_eq!(&out[3..10], &[TokenKind::Function; 7]);
    // The capture running past the end is dropped; the Default capture
    // paints nothing.
    assert_eq!(&out[10..12], &[TokenKind::Default; 2]);
}

#[test]
fn python_source_is_highlighted() {
    let h = Highlighter::new_for_language(Grammar::Python).expect("query compiles");
    let src = "def f():\n    return 1\n";
    let kinds = h.highlight(src);
    assert_eq!(kinds.len(), src.len());
    assert_eq!(&kinds[0..3], &[TokenKind::Keyword; 3]);
    assert_eq!(kinds[20], TokenKind::Number);
}

#[test]
fn dedent_strips_continuation_lines_only() {
    let text = "def f():\n        x = 1\n      y\n";
    let kinds: Vec<TokenKind> = (0..text.len())
        .map(|i| if i % 2 == 0 { TokenKind::Keyword } else { TokenKind::Default })
        .collect();
    let (out, out_kinds) = dedent_with_kinds(text, &kinds, 4);
    assert_eq!(out, "def f():\n    x = 1\n  y\n");
    assert_eq!(out_kinds.len(), out.len());
    // The first kept byte of the second line was byte 13 of the input.
    assert_eq!(out_kinds[9], kinds[13]);
}

#[test]
fn dedent_stops_at_the_first_non_space() {
    let text = "a\n  \tb\n";
    let kinds = vec![TokenKind::Default; text.len()];
    let (out, out_kinds) = dedent_with_kinds(text, &kinds, 8);
    assert_eq!(out, "a\n\tb\n");
    assert_eq!(out_kinds.len(), out.len());
}

#[test]
fn dedent_by_zero_returns_everything() {
    let text = "x\n    y";
    let kinds = vec![TokenKind::Comment; text.len() + 2];
    let (out, out_kinds) = dedent_with_kinds(text, &kinds, 0);
    assert_eq!(out, text);
    assert_eq!(out_kinds, kinds);
}

#[test]
fn dedent_keeps_multibyte_characters_in_step() {
    let text = "é\n  ü";
    let kinds: Vec<TokenKind> =
        vec![TokenKind::String, TokenKind::String, TokenKind::Default, TokenKind::Default, TokenKind::Default, TokenKind::Number, TokenKind::Number];
    let (out, out_kinds) = dedent_with_kinds(text, &kinds, 2);
    assert_eq!(out, "é\nü");
    assert_eq!(
        out_kinds,
        vec![TokenKind::String, TokenKind::String, TokenKind::Default, TokenKind::Number, TokenKind::Number]
    );
}

#[test]
fn runs_split_by_kind() {
    let text = "ab cd";
    let kinds = vec![TokenKind::Keyword, TokenKind::Keyword, TokenKind::Default, TokenKind::Type, TokenKind::Type];
    assert_eq!(
        runs(text, &kinds),
        vec![(0, 2, TokenKind::Keyword), (2, 3, TokenKind::Default), (3, 5, TokenKind::Type)]
    );
    assert_eq!(next_run(text, &kinds, 5), None);
    assert!(runs("", &kinds).is_empty());
}

#[test]
fn runs_end_on_character_boundaries() {
    // 'é' is two bytes whose kinds differ; the run is pushed to the end
    // of the character.
    let text = "éx";
    let kinds = vec![TokenKind::String, TokenKind::Default, TokenKind::Default];
    assert_eq!(next_run(text, &kinds, 0), Some((0, 2, TokenKind::String)));
    assert_eq!(runs(text, &kinds), vec![(0, 2, TokenKind::String), (2, 3, TokenKind::Default)]);
}

#[test]
fn analyze_python_file() {
    let file = SourceFile::from_contents("/tmp/x.py".to_string(), "def f():\n    pass\n".to_string());
    let a = analyze(file).expect("loads");
    assert_eq!(a.language, LanguageId::Python);
    assert_eq!(a.highlighted.line_offsets, vec![0, 9, 18, 18]);
    assert_eq!(a.highlighted.kinds.len(), 18);
    assert_eq!(a.highlighted.line_count(), 3);
    assert_eq!(a.cards.len(), 1);
    assert_eq!(a.cards[0].name, "f");
}

#[test]
fn analyze_refuses_unknown_extension() {
    let file = SourceFile::from_contents("/tmp/data.json".to_string(), "{}".to_string());
    assert_eq!(analyze(file).unwrap_err(), LoadError::NoLanguage("/tmp/data.json".to_string()));
}

#[test]
fn analyze_markdown_without_highlight_query() {
    // The markdown grammar ships no highlight query: an empty query still
    // compiles and paints every byte Default.
    let file = SourceFile::from_contents("/tmp/R.md".to_string(), "# T\n\nx\n".to_string());
    let a = analyze(file).expect("loads");
    assert_eq!(a.language, LanguageId::Markdown);
    assert!(a.highlighted.kinds.iter().all(|k| *k == TokenKind::Default));
    assert_eq!(a.cards.len(), 1);
}

#[test]
fn highlight_queries_by_language() {
    assert!(PythonModule.highlights_query().contains("@keyword"));
    assert!(RustModule.highlights_query().contains("@keyword"));
    assert_eq!(MarkdownModule.highlights_query(), "");
    assert_eq!(Highlighter::new_python().expect("compiles").query, PythonModule.highlights_query());
}

#[test]
fn dedent_cuts_each_later_line_by_its_own_leading_spaces() {
    let text = "  def f():\n      x\n  y\n\n    z";
    let kinds = vec![TokenKind::Default; text.len()];
    let (out, k) = dedent_with_kinds(text, &kinds, 4);
    // The first line stays; later lines lose min(4, leading spaces).
    assert_eq!(out, "  def f():\n  x\ny\n\nz");
    assert_eq!(k.len(), out.len());
}

/// Every byte of the first occurrence of `needle` in `source` gets the
/// kind `expected`, and there is one kind per byte.
fn highlights_python(source: &str, needle: &str, expected: TokenKind) {
    let h = Highlighter::new_python().expect("parser loads");
    let kinds = h.highlight(source);
    assert_eq!(kinds.len(), source.len(), "kinds vec matches source byte length");
    let start = source.find(needle).unwrap_or_else(|| panic!("needle {:?} not in source", needle));
    let end = start + needle.len();
    for i in start..end {
        assert_eq!(kinds[i], expected, "byte {i} of {:?} expected {expected:?}, got {:?}", source, kinds[i]);
    }
}

#[test]
fn highlights_python_keyword_def() {
    highlights_python("def foo():\n    pass\n", "def", TokenKind::Keyword);
}

#[test]
fn highlights_python_keyword_class() {
    highlights_python("class Foo:\n    pass\n", "class", TokenKind::Keyword);
}

#[test]
fn highlights_python_keyword_if() {
    highlights_python("if x: pass\n", "if", TokenKind::Keyword);
}

#[test]
fn highlights_python_function_name() {
    highlights_python("def greet(n): return n\n", "greet", TokenKind::Function);
}

#[test]
fn highlights_python_class_name() {
    highlights_python("class Widget: pass\n", "Widget", TokenKind::Class);
}

#[test]
fn highlights_python_string_single() {
    highlights_python("x = 'hello'\n", "'hello'", TokenKind::String);
}

#[test]
fn highlights_python_string_double() {
    highlights_python("x = \"hi\"\n", "\"hi\"", TokenKind::String);
}

#[test]
fn highlights_python_number_int() {
    highlights_python("x = 42\n", "42", TokenKind::Number);
}

#[test]
fn highlights_python_number_float() {
    highlights_python("x = 3.14\n", "3.14", TokenKind::Number);
}

#[test]
fn highlights_python_comment_line() {
    highlights_python("# note\nx = 1\n", "# note", TokenKind::Comment);
}

#[test]
fn highlights_python_type_annotation() {
    highlights_python("def f(x: int) -> int: return x\n", "int", TokenKind::Type);
}

#[test]
fn highlights_python_decorator_as_function() {
    highlights_python("@classmethod\ndef f(cls): pass\n", "classmethod", TokenKind::Function);
}

#[test]
fn highlights_python_constant_builtin_none() {
    highlights_python("x = None\n", "None", TokenKind::ConstantBuiltin);
}

#[test]
fn highlights_python_operator_plus() {
    highlights_python("x = 1 + 2\n", "+", TokenKind::Operator);
}
