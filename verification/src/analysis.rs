//! Loading a file for display: pick its language, highlight it, index its
//! lines and cut it into cards.

use vstd::prelude::*;
use vstd::string::*;
use vstd::utf8::encode_utf8;
use crate::cards::{all_ranges_nest, card_views, forms_tree, Card, CardView};
use crate::language::{for_path, language_for, LanguageId};
use crate::state::{compute_line_offsets, law_line_offsets_sorted, line_offsets_of, HighlightedSource, SourceFile};
use crate::syntax::{highlighted, highlights_of, kinds_of_names, paint, query_capture_names, query_captures, Highlighter, TokenKind};
use crate::text::{ascii_lower, path_extension};
use crate::tree::{check_nested, nested, parse_tree, parsed_tree, Grammar, SyntaxNode};

verus! {

/// Why a file could not be prepared for display.
#[derive(Debug, Clone, PartialEq, Eq)]
pub enum LoadError {
    /// No language claims the file's extension (the path).
    NoLanguage(String),
    /// The language's highlight query could not be built.
    GrammarUnavailable(LanguageId),
    /// The parser produced no tree.
    ParseFailed,
    /// The parser's tree holds a node outside its parent's byte range.
    NotNested,
    /// The file has more cards than card ids can number.
    TooLarge,
}

/// A file ready for display: its language, its highlighted text and
/// line offsets, and its cards.
#[derive(Debug)]
pub struct Analysis {
    pub language: LanguageId,
    pub highlighted: HighlightedSource,
    pub cards: Vec<Card>,
}

/// The language of a file path, by its extension.
pub open spec fn path_language(path: Seq<char>) -> Option<LanguageId> {
    match path_extension(path) {
        Some(e) => language_for(ascii_lower(e)),
        None => None,
    }
}

/// The grammar of a language.
pub open spec fn grammar_of(l: LanguageId) -> Grammar {
    match l {
        LanguageId::Python => Grammar::Python,
        LanguageId::Rust => Grammar::Rust,
        LanguageId::Markdown => Grammar::Markdown,
    }
}

/// The token kind of every byte of `source`, highlighted with grammar
/// `g` whose query names its captures `names`.
pub open spec fn source_kinds(g: Grammar, names: Seq<Seq<char>>, source: Seq<char>, len: nat) -> Seq<TokenKind> {
    match query_captures(g, highlights_of(g), source) {
        Some(caps) => highlighted(caps, kinds_of_names(names), len),
        None => paint(len, seq![]),
    }
}

/// Prepare a loaded file for display: find its language by extension,
/// build the language's highlighter, parse, highlight, compute the line
/// offsets and extract the cards.
pub fn analyze(file: SourceFile) -> (r: Result<Analysis, LoadError>)
    ensures
        match path_language(file.path@) {
            None => r == Err::<Analysis, LoadError>(LoadError::NoLanguage(file.path)),
            Some(l) => match query_capture_names(grammar_of(l), highlights_of(grammar_of(l))) {
                None => r == Err::<Analysis, LoadError>(LoadError::GrammarUnavailable(l)),
                Some(names) => match parsed_tree(grammar_of(l), file.contents@) {
                    None => r == Err::<Analysis, LoadError>(LoadError::ParseFailed),
                    Some(tree) => if !nested(tree) {
                        r == Err::<Analysis, LoadError>(LoadError::NotNested)
                    } else if l.spec_cards(tree, line_offsets_of(encode_utf8(file.contents@))).len() > u32::MAX {
                        r == Err::<Analysis, LoadError>(LoadError::TooLarge)
                    } else {
                        r matches Ok(a) && {
                            &&& a.language == l
                            &&& a.highlighted.source == file
                            &&& a.highlighted.line_offsets@ == line_offsets_of(encode_utf8(file.contents@))
                            &&& a.highlighted.kinds@ == source_kinds(grammar_of(l), names, file.contents@, encode_utf8(file.contents@).len())
                            &&& card_views(a.cards@) == l.spec_cards(tree, line_offsets_of(encode_utf8(file.contents@)))
                            &&& forms_tree(card_views(a.cards@))
                            &&& all_ranges_nest(card_views(a.cards@))
                        }
                    },
                },
            },
        },
{
    let lang = match for_path(file.path.as_str()) {
        Some(l) => l,
        None => {
            return Err(LoadError::NoLanguage(file.path));
        },
    };
    let grammar = lang.grammar();
    let highlighter = match Highlighter::new_for_language(grammar) {
        Some(h) => h,
        None => {
            return Err(LoadError::GrammarUnavailable(lang));
        },
    };
    let contents = file.contents.as_str();
    let tree = match parse_tree(grammar, contents) {
        Some(t) => t,
        None => {
            return Err(LoadError::ParseFailed);
        },
    };
    if !check_nested(&tree) {
        return Err(LoadError::NotNested);
    }
    let line_offsets = compute_line_offsets(contents);
    let blen = contents.as_bytes().len();
    proof {
        law_line_offsets_sorted(contents.spec_bytes());
    }
    let cards = match lang.try_extract_cards(&tree, contents, line_offsets.as_slice()) {
        Some(c) => c,
        None => {
            return Err(LoadError::TooLarge);
        },
    };
    proof {
        let offs = line_offsets@;
        match lang {
            LanguageId::Python => {
                crate::cards::law_python_cards_form_a_tree(tree, offs);
                crate::cards::law_python_card_ranges_nest(tree, offs);
            },
            LanguageId::Rust => {
                crate::language::rust::law_rust_cards_form_a_tree(tree, offs);
                crate::language::rust::law_rust_card_ranges_nest(tree, offs);
            },
            LanguageId::Markdown => {
                crate::language::markdown::law_markdown_cards_form_a_tree(tree, offs);
                crate::language::markdown::law_markdown_card_ranges_nest(tree, offs);
            },
        }
    }
    let kinds = highlighter.highlight(contents);
    let highlighted = HighlightedSource::from_parts(file, kinds, line_offsets);
    Ok(Analysis { language: lang, highlighted, cards })
}

} // verus!
