//! The whole-line measures of card and blind layout: how many lines of a
//! card stay visible when it is folded, how many its body adds, which
//! cards stack under which, and which rows each rope spans. Pixel
//! geometry is scaled from these by the caller.

use vstd::prelude::*;
use crate::cards::{Card, CardId, CardKind, MethodModifier, Visibility};

verus! {

/// `n` if positive, else 1.
pub open spec fn at_least_one(n: int) -> int {
    if n >= 1 {
        n
    } else {
        1
    }
}

/// Lines that stay visible when a card is folded: a class's signature
/// lines; for a function or method, its decorators and signature (the
/// lines of the card before its body), or all its lines without a body.
/// Never fewer than one.
pub open spec fn preamble_line_count(kind: CardKind, header_lines: std::ops::Range<usize>, body_lines: Option<std::ops::Range<usize>>, full_lines: std::ops::Range<usize>) -> int {
    if kind == CardKind::Class {
        at_least_one(header_lines.end - header_lines.start)
    } else {
        match body_lines {
            Some(b) => at_least_one(if b.start >= full_lines.start { b.start - full_lines.start } else { 0 }),
            None => at_least_one(full_lines.end - full_lines.start),
        }
    }
}

/// Number of lines of a card that stay visible when it is folded.
pub fn preamble_lines(card: &Card) -> (n: usize)
    requires
        card.kind == CardKind::Class ==> card.header_lines.start <= card.header_lines.end,
        card.kind != CardKind::Class && card.body_lines is None ==> card.full_lines.start
            <= card.full_lines.end,
    ensures
        n == preamble_line_count(card.kind, card.header_lines, card.body_lines, card.full_lines),
{
    let n = match (&card.kind, &card.body_lines) {
        (CardKind::Class, _) => card.header_lines.end - card.header_lines.start,
        (_, Some(b)) => if b.start >= card.full_lines.start {
            b.start - card.full_lines.start
        } else {
            0
        },
        (_, None) => card.full_lines.end - card.full_lines.start,
    };
    if n >= 1 {
        n
    } else {
        1
    }
}

/// Lines of a leaf card's body (none without a body).
pub fn body_line_count(card: &Card) -> (n: usize)
    ensures
        n == match card.body_lines {
            Some(b) => if b.end >= b.start { b.end - b.start } else { 0 },
            None => 0,
        },
{
    match &card.body_lines {
        Some(b) => if b.end >= b.start {
            b.end - b.start
        } else {
            0
        },
        None => 0,
    }
}

/// Lines of a function's or method's docstring, when it has one.
pub fn docstring_line_count(card: &Card) -> (n: Option<usize>)
    ensures
        n == match card.docstring_lines {
            Some(d) => if card.kind == CardKind::Function || card.kind == CardKind::Method {
                Some(if d.end >= d.start { (d.end - d.start) as usize } else { 0usize })
            } else {
                None
            },
            None => None::<usize>,
        },
{
    match &card.docstring_lines {
        Some(d) => if card.kind == CardKind::Function || card.kind == CardKind::Method {
            Some(
                if d.end >= d.start {
                    d.end - d.start
                } else {
                    0
                },
            )
        } else {
            None
        },
        None => None,
    }
}

/// The indices of the cards whose parent is `parent`, in order.
pub open spec fn children_indices(cards: Seq<Card>, parent: Option<CardId>, n: int) -> Seq<usize>
    decreases n,
{
    if n <= 0 {
        seq![]
    } else if cards[n - 1].parent == parent {
        children_indices(cards, parent, n - 1).push((n - 1) as usize)
    } else {
        children_indices(cards, parent, n - 1)
    }
}

/// The positions of the cards directly under `parent` (the top-level
/// cards for `None`), in source order.
pub fn children_of(cards: &[Card], parent: Option<CardId>) -> (r: Vec<usize>)
    ensures
        r@ == children_indices(cards@, parent, cards@.len() as int),
{
    let mut r: Vec<usize> = Vec::new();
    let mut i: usize = 0;
    while i < cards.len()
        invariant
            i <= cards@.len(),
            r@ == children_indices(cards@, parent, i as int),
        decreases cards@.len() - i,
    {
        if cards[i].parent == parent {
            r.push(i);
        }
        i = i + 1;
    }
    r
}

/// Which rows rope `g` spans: its first and last row, if any row has it.
pub open spec fn rope_span(ids: Seq<usize>, g: usize, n: int) -> Option<(usize, usize)>
    decreases n,
{
    if n <= 0 {
        None
    } else {
        let prev = rope_span(ids, g, n - 1);
        if ids[n - 1] == g {
            match prev {
                Some((first, _)) => Some((first, (n - 1) as usize)),
                None => Some(((n - 1) as usize, (n - 1) as usize)),
            }
        } else {
            prev
        }
    }
}

/// For each rope id `0, 1, ...` below `count`, the first and last row
/// hanging on it (`None` for an id no row has).
pub fn rope_spans(ids: &[usize], count: usize) -> (r: Vec<Option<(usize, usize)>>)
    ensures
        r@.len() == count,
        forall|g: int| 0 <= g < count ==> #[trigger] r@[g] == rope_span(ids@, g as usize, ids@.len() as int),
{
    let mut r: Vec<Option<(usize, usize)>> = Vec::new();
    let mut g: usize = 0;
    while g < count
        invariant
            g <= count,
            r@.len() == g,
            forall|h: int| 0 <= h < g ==> #[trigger] r@[h] == rope_span(ids@, h as usize, ids@.len() as int),
        decreases count - g,
    {
        let mut span: Option<(usize, usize)> = None;
        let mut i: usize = 0;
        while i < ids.len()
            invariant
                i <= ids@.len(),
                span == rope_span(ids@, g, i as int),
            decreases ids@.len() - i,
        {
            if ids[i] == g {
                span = match span {
                    Some((first, _)) => Some((first, i)),
                    None => Some((i, i)),
                };
            }
            i = i + 1;
        }
        r.push(span);
        g = g + 1;
    }
    r
}

/// The strip drawn down a card's left edge: a class wears the brass
/// spine; a snippet a muted strip; otherwise a method modifier, then
/// privacy, decides.
#[derive(Debug, Clone, Copy, PartialEq, Eq, Structural)]
pub enum Accent {
    Spine,
    Snippet,
    Classmethod,
    Staticmethod,
    Property,
    Private,
    Public,
}

/// The accent a card of this kind, modifier and visibility wears, by the
/// first rule that applies: kind, then modifier, then visibility.
pub open spec fn accent_for(kind: CardKind, modifier: MethodModifier, visibility: Visibility) -> Accent {
    if kind == CardKind::Class {
        Accent::Spine
    } else if kind == CardKind::Snippet {
        Accent::Snippet
    } else {
        match modifier {
            MethodModifier::Classmethod => Accent::Classmethod,
            MethodModifier::Staticmethod => Accent::Staticmethod,
            MethodModifier::Property => Accent::Property,
            MethodModifier::Plain => match visibility {
                Visibility::Private => Accent::Private,
                Visibility::Public => Accent::Public,
            },
        }
    }
}

/// The accent strip of `card`.
pub fn card_accent(card: &Card) -> (a: Accent)
    ensures
        a == accent_for(card.kind, card.modifier, card.visibility),
{
    match card.kind {
        CardKind::Class => Accent::Spine,
        CardKind::Snippet => Accent::Snippet,
        _ => match card.modifier {
            MethodModifier::Classmethod => Accent::Classmethod,
            MethodModifier::Staticmethod => Accent::Staticmethod,
            MethodModifier::Property => Accent::Property,
            MethodModifier::Plain => match card.visibility {
                Visibility::Private => Accent::Private,
                Visibility::Public => Accent::Public,
            },
        },
    }
}

impl Accent {
    /// Whether the strip is the narrow one (snippets and private cards).
    pub fn is_narrow(self) -> (b: bool)
        ensures
            b == (self == Accent::Snippet || self == Accent::Private),
    {
        match self {
            Accent::Snippet | Accent::Private => true,
            _ => false,
        }
    }
}

} // verus!
