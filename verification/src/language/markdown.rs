//! Markdown language module: section extraction.
//!
//! Each `section` node owns one heading, its prose and its subsections. A
//! section without subsections is a leaf `Function` card whose body is
//! the prose after the heading; a section with subsections is a `Class`
//! card whose children are the subsection cards.

use std::ops::Range;
use vstd::prelude::*;
use vstd::string::*;
use crate::cards::{
    build_card, card_from_parts, card_views, child_of_earlier, lemma_linked_concat, mk_range,
    all_ranges_nest, forms_tree, ranges_nest, sorted, well_linked, Card, CardId, CardKind, CardView, Visibility,
};
use crate::header::markdown::{heading_text, heading_text_of};
use crate::tree::{
    find_first, is_first, kind_eq, kind_is, lemma_child_smaller, lemma_find_first_is,
    lemma_find_first_none, lemma_nested_child, lemma_nested_within_elem, lemma_sizes_elem,
    lemma_sizes_skip, nested, nested_within, size, sizes, SyntaxNode,
};

verus! {

/// Predicate: a heading node.
pub open spec fn is_heading() -> spec_fn(SyntaxNode) -> bool {
    |c: SyntaxNode| c.is_kind("atx_heading"@) || c.is_kind("setext_heading"@)
}

/// The card of a section whose heading is `heading`.
pub open spec fn section_card(
    section: SyntaxNode,
    heading: SyntaxNode,
    offsets: Seq<usize>,
    parent: Option<CardId>,
    depth: usize,
    id: int,
) -> CardView {
    let leaf = find_first(section.children@, kind_eq("section"@)) is None;
    let body_range = if leaf && heading.end < section.end {
        Some(mk_range(heading.end as int, section.end as int))
    } else {
        None
    };
    card_from_parts(
        CardId(id as u32),
        if leaf {
            CardKind::Function
        } else {
            CardKind::Class
        },
        parent,
        depth,
        heading_text_of(heading),
        Visibility::Public,
        mk_range(heading.start as int, heading.end as int),
        body_range,
        mk_range(section.start as int, section.end as int),
        offsets,
    )
}

/// The cards of a section: its own card followed by those of its nested
/// sections; none when it has no heading.
pub open spec fn section_cards(
    section: SyntaxNode,
    offsets: Seq<usize>,
    parent: Option<CardId>,
    depth: usize,
    next: int,
) -> Seq<CardView>
    decreases size(section), 0nat,
{
    match find_first(section.children@, is_heading()) {
        None => seq![],
        Some(h) => {
            let card = section_card(section, section.children@[h], offsets, parent, depth, next);
            seq![card] + sections_cards(
                section.children@,
                offsets,
                Some(CardId(next as u32)),
                (depth + 1) as usize,
                next + 1,
            )
        },
    }
}

/// The cards of the `section` nodes among `cs`, in order, numbered from
/// `next`; other nodes contribute nothing.
pub open spec fn sections_cards(
    cs: Seq<SyntaxNode>,
    offsets: Seq<usize>,
    parent: Option<CardId>,
    depth: usize,
    next: int,
) -> Seq<CardView>
    decreases sizes(cs), 1nat,
{
    if cs.len() == 0 {
        seq![]
    } else {
        proof {
            lemma_sizes_elem(cs, 0);
        }
        let h = if cs[0].is_kind("section"@) {
            section_cards(cs[0], offsets, parent, depth, next)
        } else {
            seq![]
        };
        h + sections_cards(cs.drop_first(), offsets, parent, depth, next + h.len())
    }
}

/// Walk one section, appending its card and those of its subsections.
fn process_section(
    section: &SyntaxNode,
    line_offsets: &[usize],
    parent: Option<CardId>,
    depth: usize,
    out: &mut Vec<Card>,
    next_id: &mut u32,
) -> (ok: bool)
    requires
        sorted(line_offsets@),
        depth <= *old(next_id),
    ensures
        ok == (*old(next_id) + section_cards(
            *section,
            line_offsets@,
            parent,
            depth,
            *old(next_id) as int,
        ).len() <= u32::MAX),
        ok ==> card_views(final(out)@) == card_views(old(out)@) + section_cards(
            *section,
            line_offsets@,
            parent,
            depth,
            *old(next_id) as int,
        ),
        ok ==> *final(next_id) == *old(next_id) + section_cards(
            *section,
            line_offsets@,
            parent,
            depth,
            *old(next_id) as int,
        ).len(),
    decreases size(*section), 0nat,
{
    let ghost out0 = out@;
    let ghost n0 = *next_id as int;
    let ghost spec_cards = section_cards(*section, line_offsets@, parent, depth, n0);
    // The heading.
    let ghost p = is_heading();
    let mut h: usize = 0;
    while h < section.children.len() && !(kind_is(&section.children[h], "atx_heading") || kind_is(
        &section.children[h],
        "setext_heading",
    ))
        invariant
            p == is_heading(),
            h <= section.children@.len(),
            forall|j: int| 0 <= j < h ==> !p(#[trigger] section.children@[j]),
        decreases section.children@.len() - h,
    {
        h = h + 1;
    }
    if h == section.children.len() {
        proof {
            lemma_find_first_none(section.children@, p);
        }
        assert(card_views(out@) =~= card_views(out0) + spec_cards);
        return true;
    }
    proof {
        lemma_find_first_is(section.children@, p, h as int);
    }
    let heading = &section.children[h];
    let leaf = crate::tree::kind_child_index(section, "section").is_none();
    let name = heading_text(heading);
    let body_range: Option<Range<usize>> = if leaf && heading.end < section.end {
        Some(heading.end..section.end)
    } else {
        None
    };
    let kind = if leaf {
        CardKind::Function
    } else {
        CardKind::Class
    };
    let ghost card_spec = section_card(*section, *heading, line_offsets@, parent, depth, n0);
    assert(spec_cards.len() >= 1 && spec_cards[0] == card_spec);
    if *next_id == u32::MAX {
        return false;
    }
    let id = CardId(*next_id);
    *next_id = *next_id + 1;
    let c = build_card(
        id,
        kind,
        parent,
        depth,
        name,
        Visibility::Public,
        heading.start..heading.end,
        body_range,
        section.start..section.end,
        line_offsets,
    );
    assert(c@ == section_card(*section, *heading, line_offsets@, parent, depth, n0));
    let ghost before = out@;
    out.push(c);
    assert(card_views(out@) =~= card_views(before).push(c@));
    let ghost inner = sections_cards(section.children@, line_offsets@, Some(id), (depth + 1) as usize, n0 + 1);
    assert(spec_cards == seq![card_spec] + inner);
    if !process_sections(&section.children, line_offsets, Some(id), depth + 1, out, next_id) {
        return false;
    }
    assert(card_views(out@) =~= card_views(out0) + spec_cards);
    true
}

/// Walk the `section` nodes among `cs`, in order.
fn process_sections(
    cs: &Vec<SyntaxNode>,
    line_offsets: &[usize],
    parent: Option<CardId>,
    depth: usize,
    out: &mut Vec<Card>,
    next_id: &mut u32,
) -> (ok: bool)
    requires
        sorted(line_offsets@),
        depth <= *old(next_id),
    ensures
        ok == (*old(next_id) + sections_cards(
            cs@,
            line_offsets@,
            parent,
            depth,
            *old(next_id) as int,
        ).len() <= u32::MAX),
        ok ==> card_views(final(out)@) == card_views(old(out)@) + sections_cards(
            cs@,
            line_offsets@,
            parent,
            depth,
            *old(next_id) as int,
        ),
        ok ==> *final(next_id) == *old(next_id) + sections_cards(
            cs@,
            line_offsets@,
            parent,
            depth,
            *old(next_id) as int,
        ).len(),
    decreases sizes(cs@), 1nat,
{
    let ghost out0 = out@;
    let ghost n0 = *next_id as int;
    let ghost total = sections_cards(cs@, line_offsets@, parent, depth, n0);
    let mut i: usize = 0;
    assert(cs@.skip(0) =~= cs@);
    while i < cs.len()
        invariant
            sorted(line_offsets@),
            i <= cs@.len(),
            depth <= n0 <= *next_id,
            n0 == *old(next_id),
            card_views(out0) + total == card_views(out@) + sections_cards(
                cs@.skip(i as int),
                line_offsets@,
                parent,
                depth,
                *next_id as int,
            ),
            *next_id as int + sections_cards(
                cs@.skip(i as int),
                line_offsets@,
                parent,
                depth,
                *next_id as int,
            ).len() == n0 + total.len(),
            total == sections_cards(cs@, line_offsets@, parent, depth, n0),
        decreases cs@.len() - i,
    {
        proof {
            lemma_sizes_skip(cs@, i as int);
            lemma_sizes_elem(cs@, i as int);
            assert(cs@.skip(i as int)[0] == cs@[i as int]);
            assert(cs@.skip(i as int).drop_first() =~= cs@.skip(i + 1));
        }
        let ghost nid = *next_id as int;
        let ghost before = out@;
        let ghost h = if cs@[i as int].is_kind("section"@) {
            section_cards(cs@[i as int], line_offsets@, parent, depth, nid)
        } else {
            seq![]
        };
        assert(sections_cards(cs@.skip(i as int), line_offsets@, parent, depth, nid) == h + sections_cards(
            cs@.skip(i + 1),
            line_offsets@,
            parent,
            depth,
            nid + h.len(),
        ));
        if kind_is(&cs[i], "section") {
            if !process_section(&cs[i], line_offsets, parent, depth, out, next_id) {
                return false;
            }
        }
        proof {
            assert(card_views(before) + sections_cards(
                cs@.skip(i as int),
                line_offsets@,
                parent,
                depth,
                nid,
            ) =~= card_views(out@) + sections_cards(
                cs@.skip(i + 1),
                line_offsets@,
                parent,
                depth,
                *next_id as int,
            ));
        }
        i = i + 1;
    }
    assert(cs@.skip(i as int) =~= Seq::<SyntaxNode>::empty());
    assert(card_views(out@) =~= card_views(out0) + total);
    true
}

/// The cards of a Markdown document: its top-level sections, in order;
/// `None` when there are more cards than card ids.
pub fn try_extract_markdown_cards(root: &SyntaxNode, source: &str, line_offsets: &[usize]) -> (r: Option<Vec<Card>>)
    requires
        sorted(line_offsets@),
    ensures
        match r {
            Some(out) => card_views(out@) == sections_cards(root.children@, line_offsets@, None, 0, 0)
                && sections_cards(root.children@, line_offsets@, None, 0, 0).len() <= u32::MAX,
            None => sections_cards(root.children@, line_offsets@, None, 0, 0).len() > u32::MAX,
        },
{
    let mut out: Vec<Card> = Vec::new();
    let mut next_id: u32 = 0;
    if !process_sections(&root.children, line_offsets, None, 0, &mut out, &mut next_id) {
        return None;
    }
    assert(card_views(Seq::<Card>::empty()) =~= Seq::<CardView>::empty());
    assert(card_views(out@) =~= sections_cards(root.children@, line_offsets@, None, 0, 0));
    Some(out)
}

/// The cards of a Markdown document: its top-level sections, in order.
pub fn extract_markdown_cards(root: &SyntaxNode, source: &str, line_offsets: &[usize]) -> (out:
    Vec<Card>)
    requires
        sorted(line_offsets@),
        sections_cards(root.children@, line_offsets@, None, 0, 0).len() <= u32::MAX,
    ensures
        card_views(out@) == sections_cards(root.children@, line_offsets@, None, 0, 0),
{
    match try_extract_markdown_cards(root, source, line_offsets) {
        Some(out) => out,
        None => Vec::new(),
    }
}

/// Cards come only from `section` nodes.
proof fn lemma_sections_cards_need_a_section(
    cs: Seq<SyntaxNode>,
    offsets: Seq<usize>,
    parent: Option<CardId>,
    depth: usize,
    next: int,
)
    requires
        sections_cards(cs, offsets, parent, depth, next).len() > 0,
    ensures
        exists|i: int| 0 <= i < cs.len() && kind_eq("section"@)(#[trigger] cs[i]),
    decreases cs.len(),
{
    if cs.len() > 0 {
        lemma_sizes_elem(cs, 0);
        if cs[0].is_kind("section"@) {
            assert(kind_eq("section"@)(cs[0]));
        } else {
            let h = seq![];
            assert(sections_cards(cs, offsets, parent, depth, next) == h + sections_cards(cs.drop_first(), offsets, parent, depth, next));
            assert(h + sections_cards(cs.drop_first(), offsets, parent, depth, next) =~= sections_cards(cs.drop_first(), offsets, parent, depth, next));
            lemma_sections_cards_need_a_section(cs.drop_first(), offsets, parent, depth, next);
            let i = choose|i: int| 0 <= i < cs.drop_first().len() && kind_eq("section"@)(#[trigger] cs.drop_first()[i]);
            assert(cs[i + 1] == cs.drop_first()[i]);
        }
    }
}

proof fn lemma_section_linked(
    section: SyntaxNode,
    offsets: Seq<usize>,
    parent: Option<CardId>,
    depth: usize,
    next: int,
)
    requires
        0 <= depth <= next,
        next + section_cards(section, offsets, parent, depth, next).len() <= u32::MAX,
    ensures
        well_linked(section_cards(section, offsets, parent, depth, next), parent, depth, next),
    decreases size(section), 0nat,
{
    let out = section_cards(section, offsets, parent, depth, next);
    match find_first(section.children@, is_heading()) {
        None => {},
        Some(h) => {
            let cs = section.children@;
            let card = section_card(section, cs[h], offsets, parent, depth, next);
            let inner = sections_cards(cs, offsets, Some(CardId(next as u32)), (depth + 1) as usize, next + 1);
            assert(sizes(cs) + 1 == size(section));
            lemma_sections_linked(cs, offsets, Some(CardId(next as u32)), (depth + 1) as usize, next + 1);
            assert(out == seq![card] + inner);
            if inner.len() > 0 {
                lemma_sections_cards_need_a_section(cs, offsets, Some(CardId(next as u32)), (depth + 1) as usize, next + 1);
                let i = choose|i: int| 0 <= i < cs.len() && kind_eq("section"@)(#[trigger] cs[i]);
                if find_first(cs, kind_eq("section"@)) is None {
                    lemma_find_first_none_contra(cs, kind_eq("section"@), i);
                }
                assert(card.kind == CardKind::Class);
            }
            assert forall|k: int| 0 <= k < out.len() implies {
                &&& (#[trigger] out[k]).id == CardId((next + k) as u32)
                &&& out[k].depth >= depth
                &&& ((out[k].parent == parent && out[k].depth == depth) || child_of_earlier(out, next, k))
            } by {
                if k > 0 {
                    let i = k - 1;
                    assert(out[k] == inner[i]);
                    if inner[i].parent == Some(CardId(next as u32)) && inner[i].depth == depth + 1 {
                        assert(out[0] == card);
                        assert(child_of_earlier(out, next, k));
                    } else {
                        assert(child_of_earlier(inner, next + 1, i));
                        let m = choose|m: int|
                            0 <= m < i && inner[i].parent == Some(CardId((next + 1 + m) as u32)) && (#[trigger] inner[m]).kind == CardKind::Class && inner[m].depth + 1 == inner[i].depth;
                        assert(out[m + 1] == inner[m]);
                        assert(child_of_earlier(out, next, k));
                    }
                }
            }
        },
    }
}

/// A first match exists once any element matches.
proof fn lemma_find_first_none_contra<A>(s: Seq<A>, p: spec_fn(A) -> bool, i: int)
    requires
        0 <= i < s.len(),
        p(s[i]),
    ensures
        find_first(s, p) is Some,
{
    crate::filetree::lemma_first_exists(s, p, i);
}

proof fn lemma_sections_linked(
    cs: Seq<SyntaxNode>,
    offsets: Seq<usize>,
    parent: Option<CardId>,
    depth: usize,
    next: int,
)
    requires
        0 <= depth <= next,
        next + sections_cards(cs, offsets, parent, depth, next).len() <= u32::MAX,
    ensures
        well_linked(sections_cards(cs, offsets, parent, depth, next), parent, depth, next),
    decreases sizes(cs), 1nat,
{
    if cs.len() > 0 {
        lemma_sizes_elem(cs, 0);
        assert(sizes(cs) == size(cs[0]) + sizes(cs.drop_first()));
        let h = if cs[0].is_kind("section"@) {
            section_cards(cs[0], offsets, parent, depth, next)
        } else {
            seq![]
        };
        if cs[0].is_kind("section"@) {
            lemma_section_linked(cs[0], offsets, parent, depth, next);
        }
        lemma_sections_linked(cs.drop_first(), offsets, parent, depth, next + h.len());
        lemma_linked_concat(h, sections_cards(cs.drop_first(), offsets, parent, depth, next + h.len()), parent, depth, next);
    }
}

/// The cards of a Markdown file form a flat tree in document order: card
/// `k` has id `k`; a top-level section has no parent and depth 0; a
/// subsection's parent is the earlier card of its enclosing section, a
/// class card one level shallower.
pub proof fn law_markdown_cards_form_a_tree(root: SyntaxNode, offsets: Seq<usize>)
    requires
        sections_cards(root.children@, offsets, None, 0, 0).len() <= u32::MAX,
    ensures
        forms_tree(sections_cards(root.children@, offsets, None, 0, 0)),
{
    let cs = sections_cards(root.children@, offsets, None, 0, 0);
    lemma_sections_linked(root.children@, offsets, None, 0, 0);
    assert forall|k: int| 0 <= k < cs.len() implies {
        &&& (#[trigger] cs[k]).id == CardId(k as u32)
        &&& (cs[k].parent is None <==> cs[k].depth == 0)
        &&& (cs[k].parent matches Some(p) ==> {
            &&& p.0 < k
            &&& cs[p.0 as int].kind == CardKind::Class
            &&& cs[p.0 as int].depth + 1 == cs[k].depth
        })
    } by {
        if !(cs[k].parent is None && cs[k].depth == 0) {
            assert(child_of_earlier(cs, 0, k));
            let m = choose|m: int|
                0 <= m < k && cs[k].parent == Some(CardId((0 + m) as u32)) && (#[trigger] cs[m]).kind == CardKind::Class && cs[m].depth + 1 == cs[k].depth;
            assert((m as u32) as int == m);
        }
    }
}

proof fn lemma_section_ranges(section: SyntaxNode, offsets: Seq<usize>, parent: Option<CardId>, depth: usize, next: int)
    requires
        nested(section),
    ensures
        forall|k: int| 0 <= k < section_cards(section, offsets, parent, depth, next).len()
            ==> ranges_nest(#[trigger] section_cards(section, offsets, parent, depth, next)[k]),
    decreases size(section), 0nat,
{
    match find_first(section.children@, is_heading()) {
        None => {},
        Some(h) => {
            assert(is_first(section.children@, is_heading(), h));
            lemma_nested_child(section, h);
            let card = section_card(section, section.children@[h], offsets, parent, depth, next);
            assert(ranges_nest(card));
            lemma_sizes_elem(section.children@, 0);
            assert(sizes(section.children@) < size(section));
            let inner = sections_cards(section.children@, offsets, Some(CardId(next as u32)), (depth + 1) as usize, next + 1);
            lemma_sections_ranges(section.children@, section.start as int, section.end as int, offsets, Some(CardId(next as u32)), (depth + 1) as usize, next + 1);
            let out = section_cards(section, offsets, parent, depth, next);
            assert(out == seq![card] + inner);
            assert forall|k: int| 0 <= k < out.len() implies ranges_nest(#[trigger] out[k]) by {
                if k > 0 {
                    assert(out[k] == inner[k - 1]);
                }
            }
        },
    }
}

proof fn lemma_sections_ranges(
    cs: Seq<SyntaxNode>,
    lo: int,
    hi: int,
    offsets: Seq<usize>,
    parent: Option<CardId>,
    depth: usize,
    next: int,
)
    requires
        nested_within(cs, lo, hi),
    ensures
        forall|k: int| 0 <= k < sections_cards(cs, offsets, parent, depth, next).len()
            ==> ranges_nest(#[trigger] sections_cards(cs, offsets, parent, depth, next)[k]),
    decreases sizes(cs), 1nat,
{
    if cs.len() > 0 {
        lemma_sizes_elem(cs, 0);
        assert(sizes(cs) == size(cs[0]) + sizes(cs.drop_first()));
        let h = if cs[0].is_kind("section"@) {
            section_cards(cs[0], offsets, parent, depth, next)
        } else {
            seq![]
        };
        lemma_nested_within_elem(cs, lo, hi, 0);
        if cs[0].is_kind("section"@) {
            lemma_section_ranges(cs[0], offsets, parent, depth, next);
        }
        let t = sections_cards(cs.drop_first(), offsets, parent, depth, next + h.len());
        lemma_sections_ranges(cs.drop_first(), lo, hi, offsets, parent, depth, next + h.len());
        let out = sections_cards(cs, offsets, parent, depth, next);
        assert(out == h + t);
        assert forall|k: int| 0 <= k < out.len() implies ranges_nest(#[trigger] out[k]) by {
            if k < h.len() {
                assert(out[k] == h[k]);
            } else {
                assert(out[k] == t[k - h.len()]);
            }
        }
    }
}

/// In a tree whose every child lies within its parent's byte range (as
/// tree-sitter's do), each Markdown card's heading lies within its
/// section, and its prose, when it has some, starts where the heading
/// ends and ends with the section.
pub proof fn law_markdown_card_ranges_nest(root: SyntaxNode, offsets: Seq<usize>)
    requires
        nested(root),
    ensures
        all_ranges_nest(sections_cards(root.children@, offsets, None, 0, 0)),
{
    lemma_sections_ranges(root.children@, root.start as int, root.end as int, offsets, None, 0, 0);
}

} // verus!
