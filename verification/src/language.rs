//! Language registry: one module per supported language, and the
//! dispatch from a file extension or path to its module.

use vstd::prelude::*;
use vstd::string::*;
use crate::cards::{block_cards, card_views, extract_cards as python_cards, sorted, Card, CardView};
use crate::header::{opt_header_view, HeaderModel, HeaderView};
use crate::text::{ascii_lower, extension_of, lower_eq, path_extension};
use crate::tree::{size, Grammar, SyntaxNode};

pub mod markdown;
pub mod rust;

verus! {

/// One pluggable language implementation.
pub trait LanguageModule {
    /// The cards this language extracts from a parsed tree.
    spec fn spec_cards(&self, root: SyntaxNode, line_offsets: Seq<usize>) -> Seq<CardView>;

    /// The header this language builds for a node.
    spec fn spec_header(&self, node: SyntaxNode) -> Option<HeaderView>;

    /// The display name.
    spec fn spec_name(&self) -> Seq<char>;

    /// The file extensions this language claims.
    spec fn spec_extensions(&self) -> Seq<Seq<char>>;

    /// Display name.
    fn name(&self) -> (n: &'static str)
        ensures
            n@ == self.spec_name(),
    ;

    /// File extensions this language claims, without the leading dot; the
    /// first is the canonical one.
    fn extensions(&self) -> (e: &'static [&'static str])
        ensures
            e@.len() >= 1,
            crate::filetree::str_views(e@) == self.spec_extensions(),
    ;

    /// The grammar this module parses with.
    spec fn spec_grammar(&self) -> Grammar;

    /// The grammar this module parses with.
    fn grammar(&self) -> (g: Grammar)
        ensures
            g == self.spec_grammar(),
    ;

    /// The tree-sitter language of the grammar.
    fn language(&self) -> tree_sitter::Language;

    /// The highlight query source (empty for a language without one).
    fn highlights_query(&self) -> (q: &'static str)
        ensures
            q@ == crate::syntax::highlights_of(self.spec_grammar()),
    ;


    /// Walk a parsed tree and return its cards in source order.
    fn extract_cards(&self, tree: &SyntaxNode, source: &str, line_offsets: &[usize]) -> (out: Vec<
        Card,
    >)
        requires
            sorted(line_offsets@),
            self.spec_cards(*tree, line_offsets@).len() <= u32::MAX,
        ensures
            card_views(out@) == self.spec_cards(*tree, line_offsets@),
    ;

    /// Build the header of a definition node.
    fn build_header(&self, node: &SyntaxNode, source: &str) -> (r: Option<HeaderModel>)
        ensures
            opt_header_view(r) == self.spec_header(*node),
    ;
}

/// Python: `def` / `class` cards.
pub struct PythonModule;

/// Rust: item cards.
pub struct RustModule;

/// Markdown: section cards.
pub struct MarkdownModule;

impl LanguageModule for PythonModule {
    open spec fn spec_grammar(&self) -> Grammar {
        Grammar::Python
    }

    open spec fn spec_name(&self) -> Seq<char> {
        "Python"@
    }

    open spec fn spec_extensions(&self) -> Seq<Seq<char>> {
        seq!["py"@, "pyi"@]
    }

    open spec fn spec_cards(&self, root: SyntaxNode, line_offsets: Seq<usize>) -> Seq<CardView> {
        block_cards(root.children@, line_offsets, None, 0, 0)
    }

    open spec fn spec_header(&self, node: SyntaxNode) -> Option<HeaderView> {
        crate::header::python::python_header(node)
    }

    fn name(&self) -> &'static str {
        "Python"
    }

    fn extensions(&self) -> (e: &'static [&'static str]) {
        let e: &'static [&'static str] = &["py", "pyi"];
        assert(e@.len() == 2);
        assert(crate::filetree::str_views(e@) =~= seq!["py"@, "pyi"@]);
        e
    }

    fn grammar(&self) -> (g: Grammar) {
        Grammar::Python
    }

    fn language(&self) -> tree_sitter::Language {
        crate::syntax::grammar_language(Grammar::Python)
    }

    fn highlights_query(&self) -> (q: &'static str) {
        crate::syntax::highlights_query(Grammar::Python)
    }

    fn extract_cards(&self, tree: &SyntaxNode, source: &str, line_offsets: &[usize]) -> (out: Vec<
        Card,
    >) {
        python_cards(tree, source, line_offsets)
    }

    fn build_header(&self, node: &SyntaxNode, source: &str) -> (r: Option<HeaderModel>) {
        crate::header::python::build_header(node, source)
    }
}

impl LanguageModule for RustModule {
    open spec fn spec_grammar(&self) -> Grammar {
        Grammar::Rust
    }

    open spec fn spec_name(&self) -> Seq<char> {
        "Rust"@
    }

    open spec fn spec_extensions(&self) -> Seq<Seq<char>> {
        seq!["rs"@]
    }

    open spec fn spec_cards(&self, root: SyntaxNode, line_offsets: Seq<usize>) -> Seq<CardView> {
        crate::language::rust::items_cards(root.children@, line_offsets, None, 0, 0)
    }

    open spec fn spec_header(&self, node: SyntaxNode) -> Option<HeaderView> {
        crate::header::rust::rust_header(node)
    }

    fn name(&self) -> &'static str {
        "Rust"
    }

    fn extensions(&self) -> (e: &'static [&'static str]) {
        let e: &'static [&'static str] = &["rs"];
        assert(e@.len() == 1);
        assert(crate::filetree::str_views(e@) =~= seq!["rs"@]);
        e
    }

    fn grammar(&self) -> (g: Grammar) {
        Grammar::Rust
    }

    fn language(&self) -> tree_sitter::Language {
        crate::syntax::grammar_language(Grammar::Rust)
    }

    fn highlights_query(&self) -> (q: &'static str) {
        crate::syntax::highlights_query(Grammar::Rust)
    }

    fn extract_cards(&self, tree: &SyntaxNode, source: &str, line_offsets: &[usize]) -> (out: Vec<
        Card,
    >) {
        crate::language::rust::extract_rust_cards(tree, source, line_offsets)
    }

    fn build_header(&self, node: &SyntaxNode, source: &str) -> (r: Option<HeaderModel>) {
        crate::header::rust::build_header(node, source)
    }
}

impl LanguageModule for MarkdownModule {
    open spec fn spec_grammar(&self) -> Grammar {
        Grammar::Markdown
    }

    open spec fn spec_name(&self) -> Seq<char> {
        "Markdown"@
    }

    open spec fn spec_extensions(&self) -> Seq<Seq<char>> {
        seq!["md"@, "markdown"@]
    }

    open spec fn spec_cards(&self, root: SyntaxNode, line_offsets: Seq<usize>) -> Seq<CardView> {
        crate::language::markdown::sections_cards(root.children@, line_offsets, None, 0, 0)
    }

    open spec fn spec_header(&self, node: SyntaxNode) -> Option<HeaderView> {
        crate::header::markdown::markdown_header(node)
    }

    fn name(&self) -> &'static str {
        "Markdown"
    }

    fn extensions(&self) -> (e: &'static [&'static str]) {
        let e: &'static [&'static str] = &["md", "markdown"];
        assert(e@.len() == 2);
        assert(crate::filetree::str_views(e@) =~= seq!["md"@, "markdown"@]);
        e
    }

    fn grammar(&self) -> (g: Grammar) {
        Grammar::Markdown
    }

    fn language(&self) -> tree_sitter::Language {
        crate::syntax::grammar_language(Grammar::Markdown)
    }

    fn highlights_query(&self) -> (q: &'static str) {
        crate::syntax::highlights_query(Grammar::Markdown)
    }

    fn extract_cards(&self, tree: &SyntaxNode, source: &str, line_offsets: &[usize]) -> (out: Vec<
        Card,
    >) {
        crate::language::markdown::extract_markdown_cards(tree, source, line_offsets)
    }

    fn build_header(&self, node: &SyntaxNode, source: &str) -> (r: Option<HeaderModel>) {
        crate::header::markdown::build_header(node, source)
    }
}

/// The registered languages, in registry order.
#[derive(Debug, Clone, Copy, PartialEq, Eq, Structural)]
pub enum LanguageId {
    Python,
    Rust,
    Markdown,
}

/// The language a lowercased extension selects.
pub open spec fn language_for(lower_ext: Seq<char>) -> Option<LanguageId> {
    if lower_ext == "py"@ || lower_ext == "pyi"@ {
        Some(LanguageId::Python)
    } else if lower_ext == "rs"@ {
        Some(LanguageId::Rust)
    } else if lower_ext == "md"@ || lower_ext == "markdown"@ {
        Some(LanguageId::Markdown)
    } else {
        None
    }
}

impl LanguageId {
    /// The module of the language's display name.
    pub open spec fn spec_name(self) -> Seq<char> {
        match self {
            LanguageId::Python => PythonModule.spec_name(),
            LanguageId::Rust => RustModule.spec_name(),
            LanguageId::Markdown => MarkdownModule.spec_name(),
        }
    }

    /// The extensions the language's module claims.
    pub open spec fn spec_extensions(self) -> Seq<Seq<char>> {
        match self {
            LanguageId::Python => PythonModule.spec_extensions(),
            LanguageId::Rust => RustModule.spec_extensions(),
            LanguageId::Markdown => MarkdownModule.spec_extensions(),
        }
    }

    /// File extensions of the language; the first is the canonical one.
    pub fn extensions(self) -> (e: &'static [&'static str])
        ensures
            e@.len() >= 1,
            crate::filetree::str_views(e@) == self.spec_extensions(),
    {
        match self {
            LanguageId::Python => PythonModule.extensions(),
            LanguageId::Rust => RustModule.extensions(),
            LanguageId::Markdown => MarkdownModule.extensions(),
        }
    }

    /// Display name of the language.
    pub fn name(self) -> (n: &'static str)
        ensures
            n@ == self.spec_name(),
    {
        match self {
            LanguageId::Python => PythonModule.name(),
            LanguageId::Rust => RustModule.name(),
            LanguageId::Markdown => MarkdownModule.name(),
        }
    }

    /// The grammar of the language.
    pub fn grammar(self) -> (g: Grammar)
        ensures
            g == match self {
                LanguageId::Python => Grammar::Python,
                LanguageId::Rust => Grammar::Rust,
                LanguageId::Markdown => Grammar::Markdown,
            },
    {
        match self {
            LanguageId::Python => Grammar::Python,
            LanguageId::Rust => Grammar::Rust,
            LanguageId::Markdown => Grammar::Markdown,
        }
    }

    /// The cards the language extracts from a tree.
    pub open spec fn spec_cards(self, root: SyntaxNode, line_offsets: Seq<usize>) -> Seq<CardView> {
        match self {
            LanguageId::Python => PythonModule.spec_cards(root, line_offsets),
            LanguageId::Rust => RustModule.spec_cards(root, line_offsets),
            LanguageId::Markdown => MarkdownModule.spec_cards(root, line_offsets),
        }
    }

    /// Extract the cards of a parsed tree with this language's module.
    pub fn extract_cards(self, tree: &SyntaxNode, source: &str, line_offsets: &[usize]) -> (out: Vec<
        Card,
    >)
        requires
            sorted(line_offsets@),
            self.spec_cards(*tree, line_offsets@).len() <= u32::MAX,
        ensures
            card_views(out@) == self.spec_cards(*tree, line_offsets@),
    {
        match self {
            LanguageId::Python => PythonModule.extract_cards(tree, source, line_offsets),
            LanguageId::Rust => RustModule.extract_cards(tree, source, line_offsets),
            LanguageId::Markdown => MarkdownModule.extract_cards(tree, source, line_offsets),
        }
    }

    /// Extract the cards of a parsed tree with this language's module;
    /// `None` when there are more cards than card ids.
    pub fn try_extract_cards(self, tree: &SyntaxNode, source: &str, line_offsets: &[usize]) -> (r: Option<Vec<Card>>)
        requires
            sorted(line_offsets@),
        ensures
            match r {
                Some(out) => card_views(out@) == self.spec_cards(*tree, line_offsets@)
                    && self.spec_cards(*tree, line_offsets@).len() <= u32::MAX,
                None => self.spec_cards(*tree, line_offsets@).len() > u32::MAX,
            },
    {
        match self {
            LanguageId::Python => crate::cards::try_extract_cards(tree, source, line_offsets),
            LanguageId::Rust => crate::language::rust::try_extract_rust_cards(tree, source, line_offsets),
            LanguageId::Markdown => crate::language::markdown::try_extract_markdown_cards(tree, source, line_offsets),
        }
    }

    /// Build a header with this language's module.
    pub fn build_header(self, node: &SyntaxNode, source: &str) -> (r: Option<HeaderModel>)
        ensures
            opt_header_view(r) == match self {
                LanguageId::Python => PythonModule.spec_header(*node),
                LanguageId::Rust => RustModule.spec_header(*node),
                LanguageId::Markdown => MarkdownModule.spec_header(*node),
            },
    {
        match self {
            LanguageId::Python => PythonModule.build_header(node, source),
            LanguageId::Rust => RustModule.build_header(node, source),
            LanguageId::Markdown => MarkdownModule.build_header(node, source),
        }
    }
}

/// Look up a language by file extension (no leading dot, ASCII
/// case-insensitive).
pub fn for_extension(ext: &str) -> (r: Option<LanguageId>)
    ensures
        r == language_for(ascii_lower(ext@)),
{
    if lower_eq(ext, "py") || lower_eq(ext, "pyi") {
        Some(LanguageId::Python)
    } else if lower_eq(ext, "rs") {
        Some(LanguageId::Rust)
    } else if lower_eq(ext, "md") || lower_eq(ext, "markdown") {
        Some(LanguageId::Markdown)
    } else {
        None
    }
}

/// Look up a language for a file path by its extension; `None` without an
/// extension or a matching language.
pub fn for_path(path: &str) -> (r: Option<LanguageId>)
    ensures
        r == match path_extension(path@) {
            Some(e) => language_for(ascii_lower(e)),
            None => None,
        },
{
    match extension_of(path) {
        Some(e) => for_extension(e.as_str()),
        None => None,
    }
}

/// Every extension a registered language accepts.
pub fn supported_extensions() -> (v: Vec<&'static str>)
    ensures
        v@.len() == 5,
        v@[0]@ == "py"@,
        v@[1]@ == "pyi"@,
        v@[2]@ == "rs"@,
        v@[3]@ == "md"@,
        v@[4]@ == "markdown"@,
{
    let mut v: Vec<&'static str> = Vec::new();
    v.push("py");
    v.push("pyi");
    v.push("rs");
    v.push("md");
    v.push("markdown");
    v
}

/// Dispatch by extension agrees with the modules: a lowercase extension
/// selects a language exactly when that language's module claims it.
pub proof fn law_dispatch_matches_claims(l: LanguageId, x: Seq<char>)
    ensures
        language_for(x) == Some(l) <==> l.spec_extensions().contains(x),
{
    reveal_strlit("py");
    reveal_strlit("rs");
    reveal_strlit("md");
    reveal_strlit("pyi");
    reveal_strlit("markdown");
    let e = l.spec_extensions();
    assert("py"@ != "rs"@ && "pyi"@ != "rs"@ && "py"@ != "md"@ && "py"@ != "markdown"@) by {
        assert("py"@[0] != "rs"@[0]);
        assert("pyi"@[0] != "rs"@[0]);
        assert("py"@[0] != "md"@[0]);
        assert("py"@[0] != "markdown"@[0]);
    }
    assert("pyi"@ != "md"@ && "pyi"@ != "markdown"@ && "rs"@ != "md"@ && "rs"@ != "markdown"@) by {
        assert("pyi"@[0] != "md"@[0]);
        assert("pyi"@[0] != "markdown"@[0]);
        assert("rs"@[0] != "md"@[0]);
        assert("rs"@[0] != "markdown"@[0]);
    }
    if e.contains(x) {
        let i = choose|i: int| 0 <= i < e.len() && e[i] == x;
        assert(language_for(x) == Some(l));
    }
    if language_for(x) == Some(l) {
        match l {
            LanguageId::Python => {
                if x == "py"@ {
                    assert(e[0] == x);
                } else {
                    assert(e[1] == x);
                }
            },
            LanguageId::Rust => {
                assert(e[0] == x);
            },
            LanguageId::Markdown => {
                if x == "md"@ {
                    assert(e[0] == x);
                } else {
                    assert(e[1] == x);
                }
            },
        }
    }
}

/// Every language is reached through its canonical (first) extension, in
/// any ASCII case.
pub proof fn law_canonical_extension_roundtrip(l: LanguageId)
    ensures
        language_for(ascii_lower(l.spec_extensions()[0])) == Some(l),
{
    reveal_strlit("py");
    reveal_strlit("rs");
    reveal_strlit("md");
    reveal_strlit("pyi");
    reveal_strlit("markdown");
    let x = l.spec_extensions()[0];
    assert(ascii_lower(x) =~= x);
    law_dispatch_matches_claims(l, x);
    assert(l.spec_extensions()[0] == x);
}

} // verus!
