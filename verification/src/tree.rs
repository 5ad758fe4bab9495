//! A plain-value syntax tree.
//!
//! Parsing is tree-sitter's work; everything downstream (card
//! extraction, header building) reads the result through this owned
//! tree, whose nodes carry their kind, the field name under which their
//! parent holds them, their byte range, their source text and their
//! children in order.

use vstd::prelude::*;
use vstd::string::*;
use crate::text::str_eq;

verus! {

/// The grammars this crate parses with.
#[derive(Debug, Clone, Copy, PartialEq, Eq, Structural)]
pub enum Grammar {
    Python,
    Rust,
    Markdown,
}

/// One node of a parsed source file.
#[derive(Debug)]
pub struct SyntaxNode {
    /// Grammar symbol (`function_definition`, `identifier`, ...).
    pub kind: String,
    /// Field name under which the parent holds this node, if any.
    pub field: Option<String>,
    /// Byte range in the source.
    pub start: usize,
    pub end: usize,
    /// The node's source text (empty when `text_ok` is false).
    pub text: String,
    /// Whether the node's bytes were valid UTF-8.
    pub text_ok: bool,
    /// All children (named and anonymous), in source order.
    pub children: Vec<SyntaxNode>,
}

impl SyntaxNode {
    /// The node's field name, as characters.
    pub open spec fn has_field(self, name: Seq<char>) -> bool {
        self.field matches Some(f) && f@ == name
    }

    /// Whether the node's kind is `k`.
    pub open spec fn is_kind(self, k: Seq<char>) -> bool {
        self.kind@ == k
    }
}

/// Number of nodes in the subtree rooted at `n`.
pub open spec fn size(n: SyntaxNode) -> nat
    decreases n,
{
    1 + sizes(n.children@)
}

/// Number of nodes in the subtrees rooted at `cs`.
pub open spec fn sizes(cs: Seq<SyntaxNode>) -> nat
    decreases cs,
{
    if cs.len() == 0 {
        0
    } else {
        size(cs[0]) + sizes(cs.drop_first())
    }
}

pub proof fn lemma_sizes_elem(cs: Seq<SyntaxNode>, i: int)
    requires
        0 <= i < cs.len(),
    ensures
        size(cs[i]) <= sizes(cs),
        size(cs[i]) >= 1,
    decreases i,
{
    if i > 0 {
        lemma_sizes_elem(cs.drop_first(), i - 1);
        assert(cs.drop_first()[i - 1] == cs[i]);
    }
}

/// A child's subtree is smaller than its parent's.
pub proof fn lemma_child_smaller(n: SyntaxNode, i: int)
    requires
        0 <= i < n.children@.len(),
    ensures
        size(n.children@[i]) < size(n),
        sizes(n.children@[i].children@) + 1 < size(n),
{
    lemma_sizes_elem(n.children@, i);
}

pub proof fn lemma_sizes_skip(cs: Seq<SyntaxNode>, i: int)
    requires
        0 <= i < cs.len(),
    ensures
        sizes(cs.skip(i)) == size(cs[i]) + sizes(cs.skip(i + 1)),
{
    assert(cs.skip(i).drop_first() =~= cs.skip(i + 1));
    assert(cs.skip(i)[0] == cs[i]);
}

/// Every node of the subtree under `n` has `start <= end`, and every
/// child lies within its parent's byte range (as in tree-sitter's trees).
pub open spec fn nested(n: SyntaxNode) -> bool
    decreases size(n), 0nat,
{
    n.start <= n.end && nested_within(n.children@, n.start as int, n.end as int)
}

/// Every node of `cs` lies within `lo..hi` and is itself nested.
pub open spec fn nested_within(cs: Seq<SyntaxNode>, lo: int, hi: int) -> bool
    decreases sizes(cs), 1nat,
{
    if cs.len() == 0 {
        true
    } else {
        proof {
            lemma_sizes_elem(cs, 0);
        }
        lo <= cs[0].start && cs[0].end <= hi && nested(cs[0]) && nested_within(cs.drop_first(), lo, hi)
    }
}

/// Whether the subtree under `n` is nested (see `nested`).
pub fn check_nested(n: &SyntaxNode) -> (b: bool)
    ensures
        b == nested(*n),
    decreases size(*n), 0nat,
{
    if n.start > n.end {
        return false;
    }
    check_nested_within(&n.children, n.start, n.end)
}

/// Whether every node of `cs` lies within `lo..hi` and is nested.
fn check_nested_within(cs: &Vec<SyntaxNode>, lo: usize, hi: usize) -> (b: bool)
    ensures
        b == nested_within(cs@, lo as int, hi as int),
    decreases sizes(cs@), 1nat,
{
    let mut i: usize = 0;
    assert(cs@.skip(0) =~= cs@);
    while i < cs.len()
        invariant
            i <= cs@.len(),
            nested_within(cs@, lo as int, hi as int) == nested_within(cs@.skip(i as int), lo as int, hi as int),
        decreases cs@.len() - i,
    {
        proof {
            lemma_sizes_elem(cs@, i as int);
            assert(cs@.skip(i as int)[0] == cs@[i as int]);
            assert(cs@.skip(i as int).drop_first() =~= cs@.skip(i + 1));
        }
        let c = &cs[i];
        if c.start < lo || c.end > hi || !check_nested(c) {
            return false;
        }
        i = i + 1;
    }
    assert(cs@.skip(i as int) =~= Seq::<SyntaxNode>::empty());
    true
}

/// A child of a nested node lies within it and is nested.
pub proof fn lemma_nested_child(n: SyntaxNode, i: int)
    requires
        nested(n),
        0 <= i < n.children@.len(),
    ensures
        n.start <= n.children@[i].start,
        n.children@[i].end <= n.end,
        nested(n.children@[i]),
{
    lemma_nested_within_elem(n.children@, n.start as int, n.end as int, i);
}

/// An element of a run of nodes nested within `lo..hi`.
pub proof fn lemma_nested_within_elem(cs: Seq<SyntaxNode>, lo: int, hi: int, i: int)
    requires
        nested_within(cs, lo, hi),
        0 <= i < cs.len(),
    ensures
        lo <= cs[i].start,
        cs[i].end <= hi,
        nested(cs[i]),
    decreases i,
{
    if i > 0 {
        lemma_nested_within_elem(cs.drop_first(), lo, hi, i - 1);
        assert(cs.drop_first()[i - 1] == cs[i]);
    }
}

/// `i` is the first index of `s` whose element satisfies `p`.
pub open spec fn is_first<A>(s: Seq<A>, p: spec_fn(A) -> bool, i: int) -> bool {
    &&& 0 <= i < s.len()
    &&& p(s[i])
    &&& forall|j: int| 0 <= j < i ==> !p(#[trigger] s[j])
}

/// Index of the first element of `s` that satisfies `p`.
pub open spec fn find_first<A>(s: Seq<A>, p: spec_fn(A) -> bool) -> Option<int> {
    if exists|i: int| is_first(s, p, i) {
        Some(choose|i: int| is_first(s, p, i))
    } else {
        None
    }
}

pub proof fn lemma_find_first_is<A>(s: Seq<A>, p: spec_fn(A) -> bool, i: int)
    requires
        is_first(s, p, i),
    ensures
        find_first(s, p) == Some(i),
{
    let k = choose|k: int| is_first(s, p, k);
    if k < i {
        assert(!p(s[k]));
    } else if i < k {
        assert(!p(s[i]));
    }
}

pub proof fn lemma_find_first_none<A>(s: Seq<A>, p: spec_fn(A) -> bool)
    requires
        forall|j: int| 0 <= j < s.len() ==> !p(#[trigger] s[j]),
    ensures
        find_first(s, p) is None,
{
}

/// Predicate: the node is held under field `name`.
pub open spec fn field_is(name: Seq<char>) -> spec_fn(SyntaxNode) -> bool {
    |c: SyntaxNode| c.has_field(name)
}

/// Predicate: the node's kind is `k`.
pub open spec fn kind_eq(k: Seq<char>) -> spec_fn(SyntaxNode) -> bool {
    |c: SyntaxNode| c.is_kind(k)
}

/// The first child held under field `name` (tree-sitter's
/// `child_by_field_name`).
pub open spec fn field_child(node: SyntaxNode, name: Seq<char>) -> Option<SyntaxNode> {
    match find_first(node.children@, field_is(name)) {
        Some(i) => Some(node.children@[i]),
        None => None,
    }
}

/// The first child whose kind is `k`.
pub open spec fn kind_child(node: SyntaxNode, k: Seq<char>) -> Option<SyntaxNode> {
    match find_first(node.children@, kind_eq(k)) {
        Some(i) => Some(node.children@[i]),
        None => None,
    }
}

/// Index of the first child held under field `name`.
pub fn field_child_index(node: &SyntaxNode, name: &str) -> (r: Option<usize>)
    ensures
        match r {
            Some(i) => find_first(node.children@, field_is(name@)) == Some(
                i as int,
            ),
            None => find_first(node.children@, field_is(name@)) is None,
        },
{
    let ghost p = field_is(name@);
    let mut i: usize = 0;
    while i < node.children.len()
        invariant
            i <= node.children@.len(),
            p == field_is(name@),
            forall|j: int| 0 <= j < i ==> !p(#[trigger] node.children@[j]),
        decreases node.children@.len() - i,
    {
        let c = &node.children[i];
        match &c.field {
            Some(f) => {
                if str_eq(f.as_str(), name) {
                    proof {
                        lemma_find_first_is(node.children@, p, i as int);
                    }
                    return Some(i);
                }
            },
            None => {},
        }
        i = i + 1;
    }
    proof {
        lemma_find_first_none(node.children@, p);
    }
    None
}

/// Index of the first child whose kind is `k`.
pub fn kind_child_index(node: &SyntaxNode, k: &str) -> (r: Option<usize>)
    ensures
        match r {
            Some(i) => find_first(node.children@, kind_eq(k@)) == Some(i as int),
            None => find_first(node.children@, kind_eq(k@)) is None,
        },
{
    let ghost p = kind_eq(k@);
    let mut i: usize = 0;
    while i < node.children.len()
        invariant
            i <= node.children@.len(),
            p == kind_eq(k@),
            forall|j: int| 0 <= j < i ==> !p(#[trigger] node.children@[j]),
        decreases node.children@.len() - i,
    {
        if str_eq(node.children[i].kind.as_str(), k) {
            proof {
                lemma_find_first_is(node.children@, p, i as int);
            }
            return Some(i);
        }
        i = i + 1;
    }
    proof {
        lemma_find_first_none(node.children@, p);
    }
    None
}

/// Whether the node's kind is `k`.
pub fn kind_is(node: &SyntaxNode, k: &str) -> (b: bool)
    ensures
        b == node.is_kind(k@),
{
    str_eq(node.kind.as_str(), k)
}

/// The tree that tree-sitter builds for `source` under `grammar`,
/// converted node for node; `None` where tree-sitter gives none.
pub uninterp spec fn parsed_tree(grammar: Grammar, source: Seq<char>) -> Option<SyntaxNode>;

#[verifier::external_type_specification]
#[verifier::external_body]
pub struct ExTreeCursor<'a>(tree_sitter::TreeCursor<'a>);

/// Converts the node under a tree-sitter `TreeCursor` (and, through its
/// child/sibling moves, the whole subtree) into a `SyntaxNode`; the
/// cursor is back on that node afterwards. Nothing is claimed of the
/// result: it is reached only through `parse_tree`.
#[verifier::external_body]
fn convert_cursor(cursor: &mut tree_sitter::TreeCursor, source: &[u8]) -> SyntaxNode {
    let node = cursor.node();
    let mut children = Vec::new();
    let mut more = cursor.goto_first_child();
    while more {
        let field = cursor.field_name().map(|f| f.to_string());
        children.push(SyntaxNode { field, ..convert_cursor(cursor, source) });
        more = cursor.goto_next_sibling() || !cursor.goto_parent();
    }
    let (text, text_ok) = match node.utf8_text(source) {
        Ok(t) => (t.to_string(), true),
        Err(_) => (String::new(), false),
    };
    SyntaxNode { kind: node.kind().to_string(), field: None, start: node.start_byte(), end: node.end_byte(), text, text_ok, children }
}

/// Parses `source` with tree-sitter (`Parser::set_language`,
/// `Parser::parse`) under the grammar of `grammar`, and converts the
/// tree. Claims only that the result is `parsed_tree(grammar, source@)`:
/// tree-sitter's parse is a function of the grammar and the text.
#[verifier::external_body]
pub fn parse_tree(grammar: Grammar, source: &str) -> (r: Option<SyntaxNode>)
    ensures
        r == parsed_tree(grammar, source@),
{
    let language = crate::syntax::grammar_language(grammar);
    let mut parser = tree_sitter::Parser::new();
    parser.set_language(&language).ok()?;
    let tree = parser.parse(source, None)?;
    let mut cursor = tree.walk();
    Some(convert_cursor(&mut cursor, source.as_bytes()))
}

} // verus!
