//! Rust language module: item extraction.
//!
//! Functions are `Function` cards at top level and `Method` cards inside
//! an `impl` / `trait` / `mod`; those containers and `struct` / `enum`
//! items are `Class` cards, and only containers recurse into their bodies.

use std::ops::Range;
use vstd::prelude::*;
use vstd::string::*;
use crate::cards::{
    build_card, card_from_parts, card_views, child_of_earlier, lemma_linked_concat, mk_range,
    all_ranges_nest, forms_tree, ranges_nest, sorted, well_linked, Card, CardId, CardKind, CardView, Visibility,
};
use crate::header::rust::{impl_block_name, impl_name};
use crate::header::python::text_or_empty;
use crate::tree::{
    field_child, field_child_index, find_first, kind_eq, kind_is, lemma_child_smaller,
    lemma_find_first_is, lemma_find_first_none, lemma_nested_child, lemma_sizes_elem,
    lemma_sizes_skip, nested, nested_within, is_first, field_is, size, sizes, SyntaxNode,
};

verus! {

/// Card kind and container flag of a Rust item; `None` for non-items.
pub open spec fn item_kind(node: SyntaxNode, parent: Option<CardId>) -> Option<(CardKind, bool)> {
    if node.is_kind("function_item"@) || node.is_kind("function_signature_item"@) {
        Some(
            (
                if parent is Some {
                    CardKind::Method
                } else {
                    CardKind::Function
                },
                false,
            ),
        )
    } else if node.is_kind("trait_item"@) || node.is_kind("impl_item"@) || node.is_kind(
        "mod_item"@,
    ) {
        Some((CardKind::Class, true))
    } else if node.is_kind("struct_item"@) || node.is_kind("enum_item"@) {
        Some((CardKind::Class, false))
    } else {
        None
    }
}

/// Card name of an item: `Trait for Type` / `Type` for impls, the `name`
/// field otherwise.
pub open spec fn rust_item_name(node: SyntaxNode) -> Seq<char> {
    if node.is_kind("impl_item"@) {
        impl_name(node)
    } else {
        text_or_empty(field_child(node, "name"@))
    }
}

/// `pub`, `pub(crate)`, ... (a `visibility_modifier` child) → Public.
pub open spec fn rust_visibility(node: SyntaxNode) -> Visibility {
    if find_first(node.children@, kind_eq("visibility_modifier"@)) is Some {
        Visibility::Public
    } else {
        Visibility::Private
    }
}

/// A Rust item is public exactly when it has a `visibility_modifier`
/// child (`pub`, `pub(crate)`, `pub(super)`, `pub(in path)`), whatever
/// the modifier's text.
pub proof fn law_rust_visibility(node: SyntaxNode)
    ensures
        (rust_visibility(node) == Visibility::Public) <==> exists|i: int|
            0 <= i < node.children@.len() && (#[trigger] node.children@[i]).kind@ == "visibility_modifier"@,
{
    if exists|i: int| 0 <= i < node.children@.len() && (#[trigger] node.children@[i]).kind@ == "visibility_modifier"@ {
        let i = choose|i: int| 0 <= i < node.children@.len() && (#[trigger] node.children@[i]).kind@ == "visibility_modifier"@;
        assert(kind_eq("visibility_modifier"@)(node.children@[i]));
        crate::filetree::lemma_first_exists(node.children@, kind_eq("visibility_modifier"@), i);
    } else {
        assert forall|j: int| 0 <= j < node.children@.len() implies !kind_eq("visibility_modifier"@)(#[trigger] node.children@[j]) by {}
        lemma_find_first_none(node.children@, kind_eq("visibility_modifier"@));
    }
    if find_first(node.children@, kind_eq("visibility_modifier"@)) is Some {
        let j = find_first(node.children@, kind_eq("visibility_modifier"@))->0;
        assert(crate::tree::is_first(node.children@, kind_eq("visibility_modifier"@), j));
        assert(node.children@[j].kind@ == "visibility_modifier"@);
    }
}

/// The card of an item with the given kind.
pub open spec fn rust_card(
    node: SyntaxNode,
    kind: CardKind,
    offsets: Seq<usize>,
    parent: Option<CardId>,
    depth: usize,
    id: int,
) -> CardView {
    let body = field_child(node, "body"@);
    let body_range = match body {
        Some(b) => Some(mk_range(b.start as int, b.end as int)),
        None => None,
    };
    let header_end = match body {
        Some(b) => b.start as int,
        None => node.end as int,
    };
    card_from_parts(
        CardId(id as u32),
        kind,
        parent,
        depth,
        rust_item_name(node),
        rust_visibility(node),
        mk_range(node.start as int, header_end),
        body_range,
        mk_range(node.start as int, node.end as int),
        offsets,
    )
}

/// The cards of one item and, for containers, of the items in its body.
pub open spec fn item_cards(
    node: SyntaxNode,
    offsets: Seq<usize>,
    parent: Option<CardId>,
    depth: usize,
    next: int,
) -> Seq<CardView>
    decreases size(node), 0nat,
{
    match item_kind(node, parent) {
        None => seq![],
        Some((kind, is_container)) => {
            let card = rust_card(node, kind, offsets, parent, depth, next);
            if is_container {
                match find_first(node.children@, crate::tree::field_is("body"@)) {
                    Some(j) => {
                        proof {
                            lemma_child_smaller(node, j);
                        }
                        seq![card] + items_cards(
                            node.children@[j].children@,
                            offsets,
                            Some(CardId(next as u32)),
                            (depth + 1) as usize,
                            next + 1,
                        )
                    },
                    None => seq![card],
                }
            } else {
                seq![card]
            }
        },
    }
}

/// The cards of a run of sibling items, numbered from `next`.
pub open spec fn items_cards(
    cs: Seq<SyntaxNode>,
    offsets: Seq<usize>,
    parent: Option<CardId>,
    depth: usize,
    next: int,
) -> Seq<CardView>
    decreases sizes(cs), 1nat,
{
    if cs.len() == 0 {
        seq![]
    } else {
        proof {
            lemma_sizes_elem(cs, 0);
        }
        let h = item_cards(cs[0], offsets, parent, depth, next);
        h + items_cards(cs.drop_first(), offsets, parent, depth, next + h.len())
    }
}

/// Card name of an item.
pub fn item_name(node: &SyntaxNode) -> (s: String)
    ensures
        s@ == rust_item_name(*node),
{
    if kind_is(node, "impl_item") {
        return impl_block_name(node);
    }
    match field_child_index(node, "name") {
        Some(k) => String::from_str(node.children[k].text.as_str()),
        None => String::new(),
    }
}

/// Visibility of an item: public iff it has a visibility modifier.
pub fn item_visibility(node: &SyntaxNode) -> (v: Visibility)
    ensures
        v == rust_visibility(*node),
{
    match crate::tree::kind_child_index(node, "visibility_modifier") {
        Some(_) => Visibility::Public,
        None => Visibility::Private,
    }
}

fn classify_item(node: &SyntaxNode, parent: Option<CardId>) -> (r: Option<(CardKind, bool)>)
    ensures
        r == item_kind(*node, parent),
{
    if kind_is(node, "function_item") || kind_is(node, "function_signature_item") {
        Some(
            (
                if parent.is_some() {
                    CardKind::Method
                } else {
                    CardKind::Function
                },
                false,
            ),
        )
    } else if kind_is(node, "trait_item") || kind_is(node, "impl_item") || kind_is(
        node,
        "mod_item",
    ) {
        Some((CardKind::Class, true))
    } else if kind_is(node, "struct_item") || kind_is(node, "enum_item") {
        Some((CardKind::Class, false))
    } else {
        None
    }
}

/// Process one Rust node at some nesting level; non-items are skipped.
fn process_item(
    node: &SyntaxNode,
    line_offsets: &[usize],
    parent: Option<CardId>,
    depth: usize,
    out: &mut Vec<Card>,
    next_id: &mut u32,
) -> (ok: bool)
    requires
        sorted(line_offsets@),
        depth <= *old(next_id),
    ensures
        ok == (*old(next_id) + item_cards(
            *node,
            line_offsets@,
            parent,
            depth,
            *old(next_id) as int,
        ).len() <= u32::MAX),
        ok ==> card_views(final(out)@) == card_views(old(out)@) + item_cards(
            *node,
            line_offsets@,
            parent,
            depth,
            *old(next_id) as int,
        ),
        ok ==> *final(next_id) == *old(next_id) + item_cards(
            *node,
            line_offsets@,
            parent,
            depth,
            *old(next_id) as int,
        ).len(),
    decreases size(*node), 0nat,
{
    let ghost out0 = out@;
    let ghost n0 = *next_id as int;
    let ghost spec_cards = item_cards(*node, line_offsets@, parent, depth, n0);
    let (kind, is_container) = match classify_item(node, parent) {
        Some(p) => p,
        None => {
            assert(card_views(out@) =~= card_views(out0) + spec_cards);
            return true;
        },
    };
    let name = item_name(node);
    let visibility = item_visibility(node);
    let body_idx = field_child_index(node, "body");
    let body_range: Option<Range<usize>> = match body_idx {
        Some(k) => Some(node.children[k].start..node.children[k].end),
        None => None,
    };
    let header_end = match body_idx {
        Some(k) => node.children[k].start,
        None => node.end,
    };
    let ghost card_spec = rust_card(*node, kind, line_offsets@, parent, depth, n0);
    assert(spec_cards.len() >= 1 && spec_cards[0] == card_spec);
    if *next_id == u32::MAX {
        return false;
    }
    let id = CardId(*next_id);
    *next_id = *next_id + 1;
    let c = build_card(
        id,
        kind,
        parent,
        depth,
        name,
        visibility,
        node.start..header_end,
        body_range,
        node.start..node.end,
        line_offsets,
    );
    assert(c@ == rust_card(*node, kind, line_offsets@, parent, depth, n0));
    let ghost before = out@;
    out.push(c);
    assert(card_views(out@) =~= card_views(before).push(c@));
    if is_container {
        match body_idx {
            Some(k) => {
                proof {
                    lemma_child_smaller(*node, k as int);
                }
                let ghost inner = items_cards(
                    node.children@[k as int].children@,
                    line_offsets@,
                    Some(id),
                    (depth + 1) as usize,
                    n0 + 1,
                );
                assert(spec_cards == seq![card_spec] + inner);
                if !process_items(&node.children[k].children, line_offsets, Some(id), depth + 1, out, next_id) {
                    return false;
                }
                assert(card_views(out@) =~= card_views(out0) + spec_cards);
            },
            None => {
                assert(card_views(out@) =~= card_views(out0) + spec_cards);
            },
        }
    } else {
        assert(card_views(out@) =~= card_views(out0) + spec_cards);
    }
    true
}

/// Process a run of sibling nodes in order.
fn process_items(
    cs: &Vec<SyntaxNode>,
    line_offsets: &[usize],
    parent: Option<CardId>,
    depth: usize,
    out: &mut Vec<Card>,
    next_id: &mut u32,
) -> (ok: bool)
    requires
        sorted(line_offsets@),
        depth <= *old(next_id),
    ensures
        ok == (*old(next_id) + items_cards(
            cs@,
            line_offsets@,
            parent,
            depth,
            *old(next_id) as int,
        ).len() <= u32::MAX),
        ok ==> card_views(final(out)@) == card_views(old(out)@) + items_cards(
            cs@,
            line_offsets@,
            parent,
            depth,
            *old(next_id) as int,
        ),
        ok ==> *final(next_id) == *old(next_id) + items_cards(
            cs@,
            line_offsets@,
            parent,
            depth,
            *old(next_id) as int,
        ).len(),
    decreases sizes(cs@), 1nat,
{
    let ghost out0 = out@;
    let ghost n0 = *next_id as int;
    let ghost total = items_cards(cs@, line_offsets@, parent, depth, n0);
    let mut i: usize = 0;
    assert(cs@.skip(0) =~= cs@);
    while i < cs.len()
        invariant
            sorted(line_offsets@),
            i <= cs@.len(),
            depth <= n0 <= *next_id,
            n0 == *old(next_id),
            card_views(out0) + total == card_views(out@) + items_cards(
                cs@.skip(i as int),
                line_offsets@,
                parent,
                depth,
                *next_id as int,
            ),
            *next_id as int + items_cards(
                cs@.skip(i as int),
                line_offsets@,
                parent,
                depth,
                *next_id as int,
            ).len() == n0 + total.len(),
            total == items_cards(cs@, line_offsets@, parent, depth, n0),
        decreases cs@.len() - i,
    {
        proof {
            lemma_sizes_skip(cs@, i as int);
            lemma_sizes_elem(cs@, i as int);
            assert(cs@.skip(i as int)[0] == cs@[i as int]);
            assert(cs@.skip(i as int).drop_first() =~= cs@.skip(i + 1));
        }
        let ghost nid = *next_id as int;
        let ghost before = out@;
        let ghost h = item_cards(cs@[i as int], line_offsets@, parent, depth, nid);
        assert(items_cards(cs@.skip(i as int), line_offsets@, parent, depth, nid) == h + items_cards(
            cs@.skip(i + 1),
            line_offsets@,
            parent,
            depth,
            nid + h.len(),
        ));
        if !process_item(&cs[i], line_offsets, parent, depth, out, next_id) {
            return false;
        }
        proof {
            assert(card_views(before) + items_cards(
                cs@.skip(i as int),
                line_offsets@,
                parent,
                depth,
                nid,
            ) =~= card_views(out@) + items_cards(
                cs@.skip(i + 1),
                line_offsets@,
                parent,
                depth,
                *next_id as int,
            ));
        }
        i = i + 1;
    }
    assert(cs@.skip(i as int) =~= Seq::<SyntaxNode>::empty());
    assert(card_views(out@) =~= card_views(out0) + total);
    true
}

/// The cards of a Rust file: its top-level items, in source order;
/// `None` when there are more cards than card ids.
pub fn try_extract_rust_cards(root: &SyntaxNode, source: &str, line_offsets: &[usize]) -> (r: Option<Vec<Card>>)
    requires
        sorted(line_offsets@),
    ensures
        match r {
            Some(out) => card_views(out@) == items_cards(root.children@, line_offsets@, None, 0, 0)
                && items_cards(root.children@, line_offsets@, None, 0, 0).len() <= u32::MAX,
            None => items_cards(root.children@, line_offsets@, None, 0, 0).len() > u32::MAX,
        },
{
    let mut out: Vec<Card> = Vec::new();
    let mut next_id: u32 = 0;
    if !process_items(&root.children, line_offsets, None, 0, &mut out, &mut next_id) {
        return None;
    }
    assert(card_views(Seq::<Card>::empty()) =~= Seq::<CardView>::empty());
    assert(card_views(out@) =~= items_cards(root.children@, line_offsets@, None, 0, 0));
    Some(out)
}

/// The cards of a Rust file: its top-level items, in source order.
pub fn extract_rust_cards(root: &SyntaxNode, source: &str, line_offsets: &[usize]) -> (out: Vec<
    Card,
>)
    requires
        sorted(line_offsets@),
        items_cards(root.children@, line_offsets@, None, 0, 0).len() <= u32::MAX,
    ensures
        card_views(out@) == items_cards(root.children@, line_offsets@, None, 0, 0),
{
    match try_extract_rust_cards(root, source, line_offsets) {
        Some(out) => out,
        None => Vec::new(),
    }
}

proof fn lemma_item_linked(
    node: SyntaxNode,
    offsets: Seq<usize>,
    parent: Option<CardId>,
    depth: usize,
    next: int,
)
    requires
        0 <= depth <= next,
        next + item_cards(node, offsets, parent, depth, next).len() <= u32::MAX,
    ensures
        well_linked(item_cards(node, offsets, parent, depth, next), parent, depth, next),
    decreases size(node), 0nat,
{
    let out = item_cards(node, offsets, parent, depth, next);
    match item_kind(node, parent) {
        None => {},
        Some((kind, is_container)) => {
            if is_container {
                match find_first(node.children@, crate::tree::field_is("body"@)) {
                    Some(j) => {
                        lemma_child_smaller(node, j);
                        let cs = node.children@[j].children@;
                        let inner = items_cards(cs, offsets, Some(CardId(next as u32)), (depth + 1) as usize, next + 1);
                        lemma_items_linked(cs, offsets, Some(CardId(next as u32)), (depth + 1) as usize, next + 1);
                        let card = rust_card(node, kind, offsets, parent, depth, next);
                        assert(out == seq![card] + inner);
                        assert(kind == CardKind::Class);
                        assert forall|k: int| 0 <= k < out.len() implies {
                            &&& (#[trigger] out[k]).id == CardId((next + k) as u32)
                            &&& out[k].depth >= depth
                            &&& ((out[k].parent == parent && out[k].depth == depth) || child_of_earlier(out, next, k))
                        } by {
                            if k > 0 {
                                let i = k - 1;
                                assert(out[k] == inner[i]);
                                if inner[i].parent == Some(CardId(next as u32)) && inner[i].depth == depth + 1 {
                                    assert(out[0] == card);
                                    assert(child_of_earlier(out, next, k));
                                } else {
                                    assert(child_of_earlier(inner, next + 1, i));
                                    let m = choose|m: int|
                                        0 <= m < i && inner[i].parent == Some(CardId((next + 1 + m) as u32)) && (#[trigger] inner[m]).kind == CardKind::Class && inner[m].depth + 1 == inner[i].depth;
                                    assert(out[m + 1] == inner[m]);
                                    assert(child_of_earlier(out, next, k));
                                }
                            }
                        }
                    },
                    None => {},
                }
            }
        },
    }
}

proof fn lemma_items_linked(
    cs: Seq<SyntaxNode>,
    offsets: Seq<usize>,
    parent: Option<CardId>,
    depth: usize,
    next: int,
)
    requires
        0 <= depth <= next,
        next + items_cards(cs, offsets, parent, depth, next).len() <= u32::MAX,
    ensures
        well_linked(items_cards(cs, offsets, parent, depth, next), parent, depth, next),
    decreases sizes(cs), 1nat,
{
    if cs.len() > 0 {
        lemma_sizes_elem(cs, 0);
        assert(sizes(cs) == size(cs[0]) + sizes(cs.drop_first()));
        let h = item_cards(cs[0], offsets, parent, depth, next);
        lemma_item_linked(cs[0], offsets, parent, depth, next);
        lemma_items_linked(cs.drop_first(), offsets, parent, depth, next + h.len());
        lemma_linked_concat(h, items_cards(cs.drop_first(), offsets, parent, depth, next + h.len()), parent, depth, next);
    }
}

/// The cards of a Rust file form a flat tree in source order: card `k`
/// has id `k`; a top-level item has no parent and depth 0; an item inside
/// an `impl`, `trait` or `mod` has that earlier container card, one level
/// shallower, as its parent.
pub proof fn law_rust_cards_form_a_tree(root: SyntaxNode, offsets: Seq<usize>)
    requires
        items_cards(root.children@, offsets, None, 0, 0).len() <= u32::MAX,
    ensures
        forms_tree(items_cards(root.children@, offsets, None, 0, 0)),
{
    let cs = items_cards(root.children@, offsets, None, 0, 0);
    lemma_items_linked(root.children@, offsets, None, 0, 0);
    assert forall|k: int| 0 <= k < cs.len() implies {
        &&& (#[trigger] cs[k]).id == CardId(k as u32)
        &&& (cs[k].parent is None <==> cs[k].depth == 0)
        &&& (cs[k].parent matches Some(p) ==> {
            &&& p.0 < k
            &&& cs[p.0 as int].kind == CardKind::Class
            &&& cs[p.0 as int].depth + 1 == cs[k].depth
        })
    } by {
        if !(cs[k].parent is None && cs[k].depth == 0) {
            assert(child_of_earlier(cs, 0, k));
            let m = choose|m: int|
                0 <= m < k && cs[k].parent == Some(CardId((0 + m) as u32)) && (#[trigger] cs[m]).kind == CardKind::Class && cs[m].depth + 1 == cs[k].depth;
            assert((m as u32) as int == m);
        }
    }
}

proof fn lemma_rust_card_ranges(
    node: SyntaxNode,
    kind: CardKind,
    offsets: Seq<usize>,
    parent: Option<CardId>,
    depth: usize,
    id: int,
)
    requires
        nested(node),
    ensures
        ranges_nest(rust_card(node, kind, offsets, parent, depth, id)),
{
    match find_first(node.children@, field_is("body"@)) {
        Some(j) => {
            assert(is_first(node.children@, field_is("body"@), j));
            lemma_nested_child(node, j);
        },
        None => {},
    }
}

proof fn lemma_item_ranges(node: SyntaxNode, offsets: Seq<usize>, parent: Option<CardId>, depth: usize, next: int)
    requires
        nested(node),
    ensures
        forall|k: int| 0 <= k < item_cards(node, offsets, parent, depth, next).len()
            ==> ranges_nest(#[trigger] item_cards(node, offsets, parent, depth, next)[k]),
    decreases size(node), 0nat,
{
    match item_kind(node, parent) {
        None => {},
        Some((kind, is_container)) => {
            let out = item_cards(node, offsets, parent, depth, next);
            let card = rust_card(node, kind, offsets, parent, depth, next);
            lemma_rust_card_ranges(node, kind, offsets, parent, depth, next);
            if is_container {
                match find_first(node.children@, field_is("body"@)) {
                    Some(j) => {
                        lemma_child_smaller(node, j);
                        assert(is_first(node.children@, field_is("body"@), j));
                        lemma_nested_child(node, j);
                        let b = node.children@[j];
                        let inner = items_cards(b.children@, offsets, Some(CardId(next as u32)), (depth + 1) as usize, next + 1);
                        lemma_items_ranges(b.children@, b.start as int, b.end as int, offsets, Some(CardId(next as u32)), (depth + 1) as usize, next + 1);
                        assert(out == seq![card] + inner);
                        assert forall|k: int| 0 <= k < out.len() implies ranges_nest(#[trigger] out[k]) by {
                            if k > 0 {
                                assert(out[k] == inner[k - 1]);
                            }
                        }
                    },
                    None => {},
                }
            }
        },
    }
}

proof fn lemma_items_ranges(
    cs: Seq<SyntaxNode>,
    lo: int,
    hi: int,
    offsets: Seq<usize>,
    parent: Option<CardId>,
    depth: usize,
    next: int,
)
    requires
        nested_within(cs, lo, hi),
    ensures
        forall|k: int| 0 <= k < items_cards(cs, offsets, parent, depth, next).len()
            ==> ranges_nest(#[trigger] items_cards(cs, offsets, parent, depth, next)[k]),
    decreases sizes(cs), 1nat,
{
    if cs.len() > 0 {
        lemma_sizes_elem(cs, 0);
        assert(sizes(cs) == size(cs[0]) + sizes(cs.drop_first()));
        let h = item_cards(cs[0], offsets, parent, depth, next);
        let t = items_cards(cs.drop_first(), offsets, parent, depth, next + h.len());
        lemma_item_ranges(cs[0], offsets, parent, depth, next);
        lemma_items_ranges(cs.drop_first(), lo, hi, offsets, parent, depth, next + h.len());
        let out = items_cards(cs, offsets, parent, depth, next);
        assert(out == h + t);
        assert forall|k: int| 0 <= k < out.len() implies ranges_nest(#[trigger] out[k]) by {
            if k < h.len() {
                assert(out[k] == h[k]);
            } else {
                assert(out[k] == t[k - h.len()]);
            }
        }
    }
}

/// In a tree whose every child lies within its parent's byte range (as
/// tree-sitter's do), each Rust card's header lies within its full
/// range, and its body starts where the header ends and ends within the
/// full range.
pub proof fn law_rust_card_ranges_nest(root: SyntaxNode, offsets: Seq<usize>)
    requires
        nested(root),
    ensures
        all_ranges_nest(items_cards(root.children@, offsets, None, 0, 0)),
{
    lemma_items_ranges(root.children@, root.start as int, root.end as int, offsets, None, 0, 0);
}

} // verus!
