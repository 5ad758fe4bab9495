//! Ygg's verified core: the analysis side of a spatial code viewer.
//!
//! Source text is split into lines, parsed into a plain syntax tree,
//! cut into cards (classes, functions, methods, snippets), given
//! headers, highlighted, and arranged in a browsable file tree. Every
//! function here carries a contract that Verus checks.
#![allow(unused_imports)]

pub mod analysis;
pub mod blind;
pub mod cards;
pub mod cardtext;
pub mod cli;
pub mod filetree;
pub mod header;
pub mod icons;
pub mod language;
pub mod layout;
pub mod state;
pub mod syntax;
pub mod text;
pub mod tree;
