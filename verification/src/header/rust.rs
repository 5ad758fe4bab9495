//! Rust builder: a tree-sitter-rust item node → `HeaderModel`.
//! Attributes and doc comments are preceding siblings of an item, not
//! children, so they stay out of the header here.

use vstd::prelude::*;
use vstd::string::*;
use crate::header::python::{opt_text, text_or_empty};
use crate::header::{
    decorator_views, opt_header_view, param_views, DecoratorChip, HeaderModel, HeaderView,
    KeywordBadge, ParamChip, ParamKind, ParamView, Prelude, TypeChip,
};
use crate::tree::{field_child, field_child_index, kind_is, SyntaxNode};

verus! {

/// Keyword badge of a Rust item kind, `None` for unsupported kinds.
pub open spec fn rust_keyword(node: SyntaxNode) -> Option<KeywordBadge> {
    if node.is_kind("function_item"@) {
        Some(KeywordBadge::Fn)
    } else if node.is_kind("struct_item"@) {
        Some(KeywordBadge::Struct)
    } else if node.is_kind("enum_item"@) {
        Some(KeywordBadge::Enum)
    } else if node.is_kind("trait_item"@) {
        Some(KeywordBadge::Trait)
    } else if node.is_kind("impl_item"@) {
        Some(KeywordBadge::Impl)
    } else if node.is_kind("mod_item"@) {
        Some(KeywordBadge::Mod)
    } else {
        None
    }
}

/// Display name of an impl block: `Trait for Type`, or `Type`.
pub open spec fn impl_name(node: SyntaxNode) -> Seq<char> {
    match (field_child(node, "trait"@), field_child(node, "type"@)) {
        (Some(t), Some(ty)) => t.text@ + " for "@ + ty.text@,
        (None, Some(ty)) => ty.text@,
        _ => seq![],
    }
}

/// Display name of an item.
pub open spec fn item_name_of(node: SyntaxNode, keyword: KeywordBadge) -> Seq<char> {
    if keyword == KeywordBadge::Impl {
        impl_name(node)
    } else {
        text_or_empty(field_child(node, "name"@))
    }
}

/// The chip one Rust parameter-list child contributes.
pub open spec fn rust_param_of(c: SyntaxNode) -> Option<ParamView> {
    if c.is_kind("self_parameter"@) {
        Some(ParamView { name: c.text@, ty: None, default: None, kind: ParamKind::Regular })
    } else if c.is_kind("parameter"@) {
        Some(
            ParamView {
                name: text_or_empty(field_child(c, "pattern"@)),
                ty: opt_text(field_child(c, "type"@)),
                default: None,
                kind: ParamKind::Regular,
            },
        )
    } else if c.is_kind("variadic_parameter"@) {
        Some(ParamView { name: seq![], ty: None, default: None, kind: ParamKind::Star })
    } else {
        None
    }
}

pub open spec fn rust_param_list(cs: Seq<SyntaxNode>) -> Seq<ParamView>
    decreases cs.len(),
{
    if cs.len() == 0 {
        seq![]
    } else {
        let rest = rust_param_list(cs.drop_last());
        match rust_param_of(cs.last()) {
            Some(p) => rest.push(p),
            None => rest,
        }
    }
}

pub open spec fn rust_params_of(f: SyntaxNode) -> Seq<ParamView> {
    match field_child(f, "parameters"@) {
        Some(ps) => rust_param_list(ps.children@),
        None => seq![],
    }
}

/// The header of a Rust item node; `None` for unsupported kinds.
pub open spec fn rust_header(node: SyntaxNode) -> Option<HeaderView> {
    match rust_keyword(node) {
        Some(k) => Some(
            HeaderView {
                decorators: seq![],
                keyword: k,
                name: item_name_of(node, k),
                params: if k == KeywordBadge::Fn {
                    rust_params_of(node)
                } else {
                    seq![]
                },
                return_type: if k == KeywordBadge::Fn {
                    opt_text(field_child(node, "return_type"@))
                } else {
                    None
                },
                docstring: None,
            },
        ),
        None => None,
    }
}

fn keyword_for(node: &SyntaxNode) -> (k: Option<KeywordBadge>)
    ensures
        k == rust_keyword(*node),
{
    if kind_is(node, "function_item") {
        Some(KeywordBadge::Fn)
    } else if kind_is(node, "struct_item") {
        Some(KeywordBadge::Struct)
    } else if kind_is(node, "enum_item") {
        Some(KeywordBadge::Enum)
    } else if kind_is(node, "trait_item") {
        Some(KeywordBadge::Trait)
    } else if kind_is(node, "impl_item") {
        Some(KeywordBadge::Impl)
    } else if kind_is(node, "mod_item") {
        Some(KeywordBadge::Mod)
    } else {
        None
    }
}

/// Display name of an `impl` block.
pub fn impl_block_name(node: &SyntaxNode) -> (s: String)
    ensures
        s@ == impl_name(*node),
{
    let t = field_child_index(node, "trait");
    let ty = field_child_index(node, "type");
    match (t, ty) {
        (Some(a), Some(b)) => {
            let s = String::from_str(node.children[a].text.as_str());
            let s = s.concat(" for ");
            s.concat(node.children[b].text.as_str())
        },
        (None, Some(b)) => String::from_str(node.children[b].text.as_str()),
        _ => String::new(),
    }
}

/// Display name of an item.
fn extract_name(node: &SyntaxNode, keyword: KeywordBadge) -> (s: String)
    ensures
        s@ == item_name_of(*node, keyword),
{
    if keyword == KeywordBadge::Impl {
        return impl_block_name(node);
    }
    match field_child_index(node, "name") {
        Some(k) => String::from_str(node.children[k].text.as_str()),
        None => String::new(),
    }
}

fn parse_param(c: &SyntaxNode) -> (r: Option<ParamChip>)
    ensures
        match r {
            Some(p) => rust_param_of(*c) == Some(p@),
            None => rust_param_of(*c) is None,
        },
{
    if kind_is(c, "self_parameter") {
        Some(
            ParamChip {
                name: String::from_str(c.text.as_str()),
                ty: None,
                default: None,
                kind: ParamKind::Regular,
            },
        )
    } else if kind_is(c, "parameter") {
        let name = match field_child_index(c, "pattern") {
            Some(k) => String::from_str(c.children[k].text.as_str()),
            None => String::new(),
        };
        let ty = match field_child_index(c, "type") {
            Some(k) => Some(TypeChip { text: String::from_str(c.children[k].text.as_str()) }),
            None => None,
        };
        Some(ParamChip { name, ty, default: None, kind: ParamKind::Regular })
    } else if kind_is(c, "variadic_parameter") {
        Some(ParamChip { name: String::new(), ty: None, default: None, kind: ParamKind::Star })
    } else {
        None
    }
}

/// One chip per parameter of a function item.
pub fn parse_parameters(fn_node: &SyntaxNode) -> (out: Vec<ParamChip>)
    ensures
        param_views(out@) == rust_params_of(*fn_node),
{
    let mut out: Vec<ParamChip> = Vec::new();
    let ps = match field_child_index(fn_node, "parameters") {
        Some(k) => &fn_node.children[k],
        None => {
            assert(param_views(out@) =~= seq![]);
            return out;
        },
    };
    let mut i: usize = 0;
    while i < ps.children.len()
        invariant
            i <= ps.children@.len(),
            param_views(out@) == rust_param_list(ps.children@.take(i as int)),
        decreases ps.children@.len() - i,
    {
        assert(ps.children@.take(i + 1).drop_last() =~= ps.children@.take(i as int));
        match parse_param(&ps.children[i]) {
            Some(p) => {
                out.push(p);
            },
            None => {},
        }
        assert(param_views(out@) =~= rust_param_list(ps.children@.take(i + 1)));
        i = i + 1;
    }
    assert(ps.children@.take(ps.children@.len() as int) =~= ps.children@);
    out
}

/// Build the header of a Rust item node (`function_item`, `struct_item`,
/// `enum_item`, `trait_item`, `impl_item`, `mod_item`); `None` otherwise.
pub fn build_header(node: &SyntaxNode, source: &str) -> (r: Option<HeaderModel>)
    ensures
        opt_header_view(r) == rust_header(*node),
{
    let keyword = match keyword_for(node) {
        Some(k) => k,
        None => {
            return None;
        },
    };
    let name = extract_name(node, keyword);
    let params = if keyword == KeywordBadge::Fn {
        parse_parameters(node)
    } else {
        Vec::new()
    };
    let return_type = if keyword == KeywordBadge::Fn {
        match field_child_index(node, "return_type") {
            Some(k) => Some(TypeChip { text: String::from_str(node.children[k].text.as_str()) }),
            None => None,
        }
    } else {
        None
    };
    let decorators: Vec<DecoratorChip> = Vec::new();
    let h = HeaderModel {
        prelude: Prelude { decorators, keyword },
        name,
        params,
        return_type,
        docstring: None,
    };
    assert(decorator_views(h.prelude.decorators@) =~= seq![]);
    assert(param_views(h.params@) =~= if keyword == KeywordBadge::Fn {
        rust_params_of(*node)
    } else {
        seq![]
    });
    Some(h)
}

} // verus!
