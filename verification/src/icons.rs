//! The icon catalogue: which tile of the icon atlas each icon occupies,
//! and which icon stands for each fold-switch slot.

use vstd::prelude::*;
use crate::state::FoldState;

verus! {

/// Icons, in atlas order.
#[derive(Debug, Clone, Copy, PartialEq, Eq, Structural)]
pub enum IconId {
    ChevronDown,
    ChevronRight,
    /// One horizontal bar: header only.
    Rows1,
    /// Two horizontal bars: header and docstring.
    Rows2,
    /// Three horizontal bars: fully unfolded.
    Rows3,
}

/// Number of icons in the atlas.
pub const ICON_COUNT: u32 = 5;

/// Tile index of each icon: its position in the catalogue.
pub open spec fn icon_index(i: IconId) -> u32 {
    match i {
        IconId::ChevronDown => 0,
        IconId::ChevronRight => 1,
        IconId::Rows1 => 2,
        IconId::Rows2 => 3,
        IconId::Rows3 => 4,
    }
}

impl IconId {
    /// Tile index of this icon in the atlas.
    pub fn atlas_index(self) -> (n: u32)
        ensures
            n == icon_index(self),
            n < ICON_COUNT,
    {
        match self {
            IconId::ChevronDown => 0,
            IconId::ChevronRight => 1,
            IconId::Rows1 => 2,
            IconId::Rows2 => 3,
            IconId::Rows3 => 4,
        }
    }
}

/// The icon of a fold state: one, two or three bars, from least content
/// to most.
pub open spec fn fold_icon(s: FoldState) -> IconId {
    match s {
        FoldState::Folded => IconId::Rows1,
        FoldState::HeaderOnly => IconId::Rows2,
        FoldState::Unfolded => IconId::Rows3,
    }
}

/// Icon drawn on a fold-switch slot.
pub fn icon_for_fold_state(state: FoldState) -> (i: IconId)
    ensures
        i == fold_icon(state),
{
    match state {
        FoldState::Folded => IconId::Rows1,
        FoldState::HeaderOnly => IconId::Rows2,
        FoldState::Unfolded => IconId::Rows3,
    }
}

/// Distinct icons occupy distinct tiles, all inside the atlas.
pub proof fn law_atlas_tiles_distinct(a: IconId, b: IconId)
    ensures
        icon_index(a) < ICON_COUNT,
        a != b ==> icon_index(a) != icon_index(b),
{
}

/// The fold icons go up one tile per slot, less content to more.
pub proof fn law_fold_icons_ordered()
    ensures
        icon_index(fold_icon(FoldState::Folded)) + 1 == icon_index(fold_icon(FoldState::HeaderOnly)),
        icon_index(fold_icon(FoldState::HeaderOnly)) + 1 == icon_index(fold_icon(FoldState::Unfolded)),
{
}

} // verus!
