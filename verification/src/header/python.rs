//! Python builder: a `function_definition` / `class_definition` /
//! `decorated_definition` node → `HeaderModel`.

use std::ops::Range;
use vstd::prelude::*;
use vstd::string::*;
use crate::cards::decorator_text;
use crate::cards::decorator_name;
use crate::header::{
    decorator_views, opt_header_view, param_views, DecoratorChip, Docstring, HeaderModel,
    HeaderView, KeywordBadge, ParamChip, ParamKind, ParamView, Prelude, TypeChip,
};
use crate::tree::{
    field_child, field_child_index, find_first, kind_child, kind_child_index, kind_eq, kind_is,
    lemma_find_first_is, lemma_find_first_none, SyntaxNode,
};

verus! {

/// Text of an optional node, empty when absent.
pub open spec fn text_or_empty(n: Option<SyntaxNode>) -> Seq<char> {
    match n {
        Some(c) => c.text@,
        None => seq![],
    }
}

/// Text of an optional node as an optional chip text.
pub open spec fn opt_text(n: Option<SyntaxNode>) -> Option<Seq<char>> {
    match n {
        Some(c) => Some(c.text@),
        None => None,
    }
}

/// Predicate: `async` or `def` keyword token.
pub open spec fn is_def_token() -> spec_fn(SyntaxNode) -> bool {
    |c: SyntaxNode| c.is_kind("async"@) || c.is_kind("def"@)
}

/// Predicate: not a comment.
pub open spec fn not_comment() -> spec_fn(SyntaxNode) -> bool {
    |c: SyntaxNode| !c.is_kind("comment"@)
}

/// Keyword badge of a definition: `class`, `async def` or `def`.
pub open spec fn keyword_of(d: SyntaxNode) -> KeywordBadge {
    if d.is_kind("class_definition"@) {
        KeywordBadge::Class
    } else if d.is_kind("function_definition"@) {
        match find_first(d.children@, is_def_token()) {
            Some(i) => if d.children@[i].is_kind("async"@) {
                KeywordBadge::AsyncDef
            } else {
                KeywordBadge::Def
            },
            None => KeywordBadge::Def,
        }
    } else {
        KeywordBadge::Def
    }
}

/// The chip one parameter-list child contributes, if any.
pub open spec fn param_of(c: SyntaxNode) -> Option<ParamView> {
    if c.is_kind("identifier"@) {
        Some(ParamView { name: c.text@, ty: None, default: None, kind: ParamKind::Regular })
    } else if c.is_kind("typed_parameter"@) {
        Some(
            ParamView {
                name: text_or_empty(kind_child(c, "identifier"@)),
                ty: opt_text(field_child(c, "type"@)),
                default: None,
                kind: ParamKind::Regular,
            },
        )
    } else if c.is_kind("default_parameter"@) {
        Some(
            ParamView {
                name: text_or_empty(field_child(c, "name"@)),
                ty: None,
                default: opt_text(field_child(c, "value"@)),
                kind: ParamKind::Regular,
            },
        )
    } else if c.is_kind("typed_default_parameter"@) {
        Some(
            ParamView {
                name: text_or_empty(field_child(c, "name"@)),
                ty: opt_text(field_child(c, "type"@)),
                default: opt_text(field_child(c, "value"@)),
                kind: ParamKind::Regular,
            },
        )
    } else if c.is_kind("list_splat_pattern"@) {
        Some(
            ParamView {
                name: text_or_empty(kind_child(c, "identifier"@)),
                ty: None,
                default: None,
                kind: ParamKind::Star,
            },
        )
    } else if c.is_kind("dictionary_splat_pattern"@) {
        Some(
            ParamView {
                name: text_or_empty(kind_child(c, "identifier"@)),
                ty: None,
                default: None,
                kind: ParamKind::Kwargs,
            },
        )
    } else if c.is_kind("keyword_separator"@) {
        Some(ParamView { name: seq![], ty: None, default: None, kind: ParamKind::Star })
    } else if c.is_kind("positional_separator"@) {
        Some(ParamView { name: seq![], ty: None, default: None, kind: ParamKind::Slash })
    } else {
        None
    }
}

/// The chips of a parameter list's children, in order.
pub open spec fn param_list(cs: Seq<SyntaxNode>) -> Seq<ParamView>
    decreases cs.len(),
{
    if cs.len() == 0 {
        seq![]
    } else {
        let rest = param_list(cs.drop_last());
        match param_of(cs.last()) {
            Some(p) => rest.push(p),
            None => rest,
        }
    }
}

/// The parameters of a function definition.
pub open spec fn params_of(d: SyntaxNode) -> Seq<ParamView> {
    match field_child(d, "parameters"@) {
        Some(ps) => param_list(ps.children@),
        None => seq![],
    }
}

/// The docstring of a body: first non-comment child, when it is an
/// expression statement holding a string.
pub open spec fn docstring_of(body: SyntaxNode) -> Option<(Range<usize>, Seq<char>)> {
    match find_first(body.children@, not_comment()) {
        Some(i) => {
            let c = body.children@[i];
            if c.is_kind("expression_statement"@) {
                match kind_child(c, "string"@) {
                    Some(s) => Some((Range { start: c.start, end: c.end }, s.text@)),
                    None => None,
                }
            } else {
                None
            }
        },
        None => None,
    }
}

/// The header of a definition `d` with the given decorators.
pub open spec fn header_of_def(d: SyntaxNode, decorators: Seq<Seq<char>>) -> HeaderView {
    HeaderView {
        decorators,
        keyword: keyword_of(d),
        name: text_or_empty(field_child(d, "name"@)),
        params: if d.is_kind("function_definition"@) {
            params_of(d)
        } else {
            seq![]
        },
        return_type: match field_child(d, "return_type"@) {
            Some(n) => if n.text_ok {
                Some(n.text@)
            } else {
                None
            },
            None => None,
        },
        docstring: match field_child(d, "body"@) {
            Some(b) => docstring_of(b),
            None => None,
        },
    }
}

/// Decorator chips among the children of a decorated definition.
pub open spec fn header_decorators(cs: Seq<SyntaxNode>) -> Seq<Seq<char>>
    decreases cs.len(),
{
    if cs.len() == 0 {
        seq![]
    } else {
        let rest = header_decorators(cs.drop_last());
        if cs.last().is_kind("decorator"@) {
            rest.push(decorator_text(cs.last().text@))
        } else {
            rest
        }
    }
}

/// Predicate: a Python definition node.
pub open spec fn is_def() -> spec_fn(SyntaxNode) -> bool {
    |c: SyntaxNode| c.is_kind("function_definition"@) || c.is_kind("class_definition"@)
}

/// `i` is the last index of `s` whose element satisfies `p`.
pub open spec fn is_last(s: Seq<SyntaxNode>, p: spec_fn(SyntaxNode) -> bool, i: int) -> bool {
    &&& 0 <= i < s.len()
    &&& p(s[i])
    &&& forall|j: int| i < j < s.len() ==> !p(#[trigger] s[j])
}

/// The header a Python node stands for; `None` for nodes that are no
/// definition (or a decorated definition wrapping none). A decorated
/// definition takes its last wrapped definition.
pub open spec fn python_header(node: SyntaxNode) -> Option<HeaderView> {
    if node.is_kind("function_definition"@) || node.is_kind("class_definition"@) {
        Some(header_of_def(node, seq![]))
    } else if node.is_kind("decorated_definition"@) {
        if exists|i: int| is_last(node.children@, is_def(), i) {
            let i = choose|i: int| is_last(node.children@, is_def(), i);
            Some(header_of_def(node.children@[i], header_decorators(node.children@)))
        } else {
            None
        }
    } else {
        None
    }
}

/// A node's text as a fresh string.
fn node_text(n: &SyntaxNode) -> (s: String)
    ensures
        s@ == n.text@,
{
    String::from_str(n.text.as_str())
}

/// Text of the child at an optional index, or empty.
fn child_text_or_empty(n: &SyntaxNode, idx: Option<usize>) -> (s: String)
    requires
        idx matches Some(i) ==> i < n.children@.len(),
    ensures
        s@ == match idx {
            Some(i) => n.children@[i as int].text@,
            None => Seq::<char>::empty(),
        },
{
    match idx {
        Some(i) => node_text(&n.children[i]),
        None => String::new(),
    }
}

/// Text chip of the child at an optional index.
fn child_type(n: &SyntaxNode, idx: Option<usize>) -> (t: Option<TypeChip>)
    requires
        idx matches Some(i) ==> i < n.children@.len(),
    ensures
        crate::header::opt_type_view(t) == match idx {
            Some(i) => Some(n.children@[i as int].text@),
            None => None,
        },
{
    match idx {
        Some(i) => Some(TypeChip { text: node_text(&n.children[i]) }),
        None => None,
    }
}

/// Text of the child at an optional index, if any.
fn child_text(n: &SyntaxNode, idx: Option<usize>) -> (t: Option<String>)
    requires
        idx matches Some(i) ==> i < n.children@.len(),
    ensures
        crate::header::opt_string_view(t) == match idx {
            Some(i) => Some(n.children@[i as int].text@),
            None => None,
        },
{
    match idx {
        Some(i) => Some(node_text(&n.children[i])),
        None => None,
    }
}

/// The chip of one parameter-list child.
fn parse_param(c: &SyntaxNode) -> (r: Option<ParamChip>)
    ensures
        match r {
            Some(p) => param_of(*c) == Some(p@),
            None => param_of(*c) is None,
        },
{
    if kind_is(c, "identifier") {
        Some(ParamChip { name: node_text(c), ty: None, default: None, kind: ParamKind::Regular })
    } else if kind_is(c, "typed_parameter") {
        let name = child_text_or_empty(c, kind_child_index(c, "identifier"));
        let ty = child_type(c, field_child_index(c, "type"));
        Some(ParamChip { name, ty, default: None, kind: ParamKind::Regular })
    } else if kind_is(c, "default_parameter") {
        let name = child_text_or_empty(c, field_child_index(c, "name"));
        let default = child_text(c, field_child_index(c, "value"));
        Some(ParamChip { name, ty: None, default, kind: ParamKind::Regular })
    } else if kind_is(c, "typed_default_parameter") {
        let name = child_text_or_empty(c, field_child_index(c, "name"));
        let ty = child_type(c, field_child_index(c, "type"));
        let default = child_text(c, field_child_index(c, "value"));
        Some(ParamChip { name, ty, default, kind: ParamKind::Regular })
    } else if kind_is(c, "list_splat_pattern") {
        let name = child_text_or_empty(c, kind_child_index(c, "identifier"));
        Some(ParamChip { name, ty: None, default: None, kind: ParamKind::Star })
    } else if kind_is(c, "dictionary_splat_pattern") {
        let name = child_text_or_empty(c, kind_child_index(c, "identifier"));
        Some(ParamChip { name, ty: None, default: None, kind: ParamKind::Kwargs })
    } else if kind_is(c, "keyword_separator") {
        Some(ParamChip { name: String::new(), ty: None, default: None, kind: ParamKind::Star })
    } else if kind_is(c, "positional_separator") {
        Some(ParamChip { name: String::new(), ty: None, default: None, kind: ParamKind::Slash })
    } else {
        None
    }
}

/// One chip per parameter or separator of a function definition.
pub fn parse_parameters(def_node: &SyntaxNode) -> (out: Vec<ParamChip>)
    ensures
        param_views(out@) == params_of(*def_node),
{
    let mut out: Vec<ParamChip> = Vec::new();
    let idx = field_child_index(def_node, "parameters");
    let ps = match idx {
        Some(k) => &def_node.children[k],
        None => {
            assert(param_views(out@) =~= seq![]);
            return out;
        },
    };
    let mut i: usize = 0;
    while i < ps.children.len()
        invariant
            i <= ps.children@.len(),
            param_views(out@) == param_list(ps.children@.take(i as int)),
        decreases ps.children@.len() - i,
    {
        assert(ps.children@.take(i + 1).drop_last() =~= ps.children@.take(i as int));
        match parse_param(&ps.children[i]) {
            Some(p) => {
                out.push(p);
            },
            None => {},
        }
        assert(param_views(out@) =~= param_list(ps.children@.take(i + 1)));
        i = i + 1;
    }
    assert(ps.children@.take(ps.children@.len() as int) =~= ps.children@);
    out
}

/// The leading docstring of a body block.
pub fn parse_docstring(body: &SyntaxNode) -> (r: Option<Docstring>)
    ensures
        match r {
            Some(d) => docstring_of(*body) == Some((d.byte_range, d.text@)),
            None => docstring_of(*body) is None,
        },
{
    let ghost p = not_comment();
    let mut i: usize = 0;
    while i < body.children.len() && kind_is(&body.children[i], "comment")
        invariant
            p == not_comment(),
            i <= body.children@.len(),
            forall|j: int| 0 <= j < i ==> !p(#[trigger] body.children@[j]),
        decreases body.children@.len() - i,
    {
        i = i + 1;
    }
    if i == body.children.len() {
        proof {
            lemma_find_first_none(body.children@, p);
        }
        return None;
    }
    proof {
        lemma_find_first_is(body.children@, p, i as int);
    }
    let c = &body.children[i];
    if !kind_is(c, "expression_statement") {
        return None;
    }
    match kind_child_index(c, "string") {
        Some(k) => Some(Docstring { byte_range: c.start..c.end, text: node_text(&c.children[k]) }),
        None => None,
    }
}

/// Keyword badge of a definition node.
fn classify_keyword(d: &SyntaxNode) -> (k: KeywordBadge)
    ensures
        k == keyword_of(*d),
{
    if kind_is(d, "class_definition") {
        return KeywordBadge::Class;
    }
    if !kind_is(d, "function_definition") {
        return KeywordBadge::Def;
    }
    let ghost p = is_def_token();
    let mut i: usize = 0;
    while i < d.children.len()
        invariant
            p == is_def_token(),
            d.is_kind("function_definition"@),
            !d.is_kind("class_definition"@),
            i <= d.children@.len(),
            forall|j: int| 0 <= j < i ==> !p(#[trigger] d.children@[j]),
        decreases d.children@.len() - i,
    {
        let c = &d.children[i];
        if kind_is(c, "async") {
            proof {
                lemma_find_first_is(d.children@, p, i as int);
            }
            return KeywordBadge::AsyncDef;
        }
        if kind_is(c, "def") {
            proof {
                lemma_find_first_is(d.children@, p, i as int);
            }
            return KeywordBadge::Def;
        }
        i = i + 1;
    }
    proof {
        lemma_find_first_none(d.children@, p);
    }
    KeywordBadge::Def
}

/// Header of a definition node with the given decorator chips.
fn header_from_def(d: &SyntaxNode, decorators: Vec<DecoratorChip>) -> (h: HeaderModel)
    ensures
        h@ == header_of_def(*d, decorator_views(decorators@)),
{
    let keyword = classify_keyword(d);
    let name = child_text_or_empty(d, field_child_index(d, "name"));
    let params = if kind_is(d, "function_definition") {
        parse_parameters(d)
    } else {
        Vec::new()
    };
    let return_type = match field_child_index(d, "return_type") {
        Some(k) => if d.children[k].text_ok {
            Some(TypeChip { text: node_text(&d.children[k]) })
        } else {
            None
        },
        None => None,
    };
    let docstring = match field_child_index(d, "body") {
        Some(k) => parse_docstring(&d.children[k]),
        None => None,
    };
    let h = HeaderModel { prelude: Prelude { decorators, keyword }, name, params, return_type, docstring };
    assert(param_views(h.params@) =~= if d.is_kind("function_definition"@) {
        params_of(*d)
    } else {
        seq![]
    });
    h
}

/// Build the header of a Python definition node; `None` for any other
/// node.
pub fn build_header(node: &SyntaxNode, source: &str) -> (r: Option<HeaderModel>)
    ensures
        opt_header_view(r) == python_header(*node),
{
    if kind_is(node, "function_definition") || kind_is(node, "class_definition") {
        let decorators: Vec<DecoratorChip> = Vec::new();
        assert(decorator_views(decorators@) =~= seq![]);
        return Some(header_from_def(node, decorators));
    }
    if !kind_is(node, "decorated_definition") {
        return None;
    }
    let mut decorators: Vec<DecoratorChip> = Vec::new();
    let mut def: Option<usize> = None;
    let mut i: usize = 0;
    while i < node.children.len()
        invariant
            i <= node.children@.len(),
            decorator_views(decorators@) == header_decorators(node.children@.take(i as int)),
            match def {
                Some(k) => k < i && is_def()(node.children@[k as int]) && forall|j: int|
                    k < j < i ==> !is_def()(#[trigger] node.children@[j]),
                None => forall|j: int| 0 <= j < i ==> !is_def()(#[trigger] node.children@[j]),
            },
        decreases node.children@.len() - i,
    {
        let c = &node.children[i];
        assert(node.children@.take(i + 1).drop_last() =~= node.children@.take(i as int));
        if kind_is(c, "decorator") {
            proof {
                reveal_strlit("decorator");
                reveal_strlit("function_definition");
                reveal_strlit("class_definition");
                assert("decorator"@.len() == 9);
                assert("function_definition"@.len() == 19);
                assert("class_definition"@.len() == 16);
                assert(!is_def()(node.children@[i as int]));
            }
            decorators.push(DecoratorChip { text: decorator_name(c.text.as_str()) });
        } else if kind_is(c, "function_definition") || kind_is(c, "class_definition") {
            def = Some(i);
            assert(is_def()(node.children@[i as int]));
        } else {
            assert(!is_def()(node.children@[i as int]));
        }
        assert(decorator_views(decorators@) =~= header_decorators(node.children@.take(i + 1)));
        i = i + 1;
    }
    assert(node.children@.take(node.children@.len() as int) =~= node.children@);
    match def {
        Some(k) => {
            proof {
                assert(is_last(node.children@, is_def(), k as int));
                let i2 = choose|i: int| is_last(node.children@, is_def(), i);
                if i2 < k {
                    assert(!is_def()(node.children@[k as int]));
                } else if k < i2 {
                    assert(!is_def()(node.children@[i2]));
                }
            }
            Some(header_from_def(&node.children[k], decorators))
        },
        None => None,
    }
}

} // verus!
