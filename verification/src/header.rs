//! `HeaderModel` — the language-agnostic shape of a card header:
//! decorators, keyword badge, name, parameters, return type and docstring.
//! Builders for each language live in the submodules.

use std::ops::Range;
use vstd::prelude::*;
use crate::cards::string_views;


pub mod markdown;
pub mod python;
pub mod rust;


verus! {

/// The full header shape.
#[derive(Debug, Clone, PartialEq, Eq)]
pub struct HeaderModel {
    pub prelude: Prelude,
    pub name: String,
    pub params: Vec<ParamChip>,
    pub return_type: Option<TypeChip>,
    pub docstring: Option<Docstring>,
}

/// Decorators in source order plus the keyword badge.
#[derive(Debug, Clone, PartialEq, Eq)]
pub struct Prelude {
    pub decorators: Vec<DecoratorChip>,
    pub keyword: KeywordBadge,
}

/// One decorator: its dotted identifier, `@` and call arguments stripped.
#[derive(Debug, Clone, PartialEq, Eq)]
pub struct DecoratorChip {
    pub text: String,
}

/// The keyword badge between decorators and name.
#[derive(Debug, Clone, Copy, PartialEq, Eq, Structural)]
pub enum KeywordBadge {
    /// Python `def`.
    Def,
    /// Python `async def`.
    AsyncDef,
    /// Python `class`.
    Class,
    /// Rust `fn`.
    Fn,
    /// Rust `pub fn`.
    PubFn,
    /// Rust `struct`.
    Struct,
    /// Rust `enum`.
    Enum,
    /// Rust `trait`.
    Trait,
    /// Rust `impl`.
    Impl,
    /// Rust `mod`.
    Mod,
    /// Markdown heading of the given level (1..=6).
    Heading(u8),
}

/// One parameter column.
#[derive(Debug, Clone, PartialEq, Eq)]
pub struct ParamChip {
    /// Identifier; empty for separators.
    pub name: String,
    pub ty: Option<TypeChip>,
    /// Default-value expression as source text.
    pub default: Option<String>,
    pub kind: ParamKind,
}

#[derive(Debug, Clone, Copy, PartialEq, Eq, Structural)]
pub enum ParamKind {
    /// Positional-or-keyword parameter.
    Regular,
    /// `*` separator (empty name) or `*args` (named).
    Star,
    /// `/` separator.
    Slash,
    /// `**kwargs`.
    Kwargs,
}

/// A type annotation as raw source text.
#[derive(Debug, Clone, PartialEq, Eq)]
pub struct TypeChip {
    pub text: String,
}

/// The leading docstring of a body.
#[derive(Debug, Clone, PartialEq, Eq)]
pub struct Docstring {
    /// Byte range of the whole docstring statement.
    pub byte_range: Range<usize>,
    /// The literal's raw text, quotes included.
    pub text: String,
}

/// The mathematical content of a `ParamChip`.
pub ghost struct ParamView {
    pub name: Seq<char>,
    pub ty: Option<Seq<char>>,
    pub default: Option<Seq<char>>,
    pub kind: ParamKind,
}

/// The mathematical content of a `HeaderModel`.
pub ghost struct HeaderView {
    pub decorators: Seq<Seq<char>>,
    pub keyword: KeywordBadge,
    pub name: Seq<char>,
    pub params: Seq<ParamView>,
    pub return_type: Option<Seq<char>>,
    pub docstring: Option<(Range<usize>, Seq<char>)>,
}

pub open spec fn opt_type_view(t: Option<TypeChip>) -> Option<Seq<char>> {
    match t {
        Some(c) => Some(c.text@),
        None => None,
    }
}

pub open spec fn opt_string_view(t: Option<String>) -> Option<Seq<char>> {
    match t {
        Some(s) => Some(s@),
        None => None,
    }
}

impl View for ParamChip {
    type V = ParamView;

    open spec fn view(&self) -> ParamView {
        ParamView {
            name: self.name@,
            ty: opt_type_view(self.ty),
            default: opt_string_view(self.default),
            kind: self.kind,
        }
    }
}

pub open spec fn param_views(ps: Seq<ParamChip>) -> Seq<ParamView> {
    ps.map_values(|p: ParamChip| p@)
}

pub open spec fn decorator_views(ds: Seq<DecoratorChip>) -> Seq<Seq<char>> {
    ds.map_values(|d: DecoratorChip| d.text@)
}

impl View for HeaderModel {
    type V = HeaderView;

    open spec fn view(&self) -> HeaderView {
        HeaderView {
            decorators: decorator_views(self.prelude.decorators@),
            keyword: self.prelude.keyword,
            name: self.name@,
            params: param_views(self.params@),
            return_type: opt_type_view(self.return_type),
            docstring: match self.docstring {
                Some(d) => Some((d.byte_range, d.text@)),
                None => None,
            },
        }
    }
}

pub open spec fn opt_header_view(h: Option<HeaderModel>) -> Option<HeaderView> {
    match h {
        Some(m) => Some(m@),
        None => None,
    }
}

} // verus!
