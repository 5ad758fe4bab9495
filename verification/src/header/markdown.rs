//! Markdown builder: heading → `HeaderModel` with a `Heading(level)`
//! badge and the heading's inline text as its name.

use vstd::prelude::*;
use vstd::string::*;
use crate::header::{
    decorator_views, opt_header_view, param_views, DecoratorChip, HeaderModel, HeaderView,
    KeywordBadge, ParamChip, Prelude,
};
use crate::text::{
    chars_of, is_ws, lemma_lead_len_unique, lead_len, trim, trim_start_by, trim_str,
};
use crate::tree::{find_first, lemma_find_first_is, lemma_find_first_none, kind_is, SyntaxNode};

verus! {

/// Heading level named by an ATX marker kind (`atx_h1_marker` … `atx_h6_marker`).
pub open spec fn marker_level_of(kind: Seq<char>) -> Option<u8> {
    if kind == "atx_h1_marker"@ {
        Some(1)
    } else if kind == "atx_h2_marker"@ {
        Some(2)
    } else if kind == "atx_h3_marker"@ {
        Some(3)
    } else if kind == "atx_h4_marker"@ {
        Some(4)
    } else if kind == "atx_h5_marker"@ {
        Some(5)
    } else if kind == "atx_h6_marker"@ {
        Some(6)
    } else {
        None
    }
}

/// Predicate: an ATX marker node.
pub open spec fn is_marker() -> spec_fn(SyntaxNode) -> bool {
    |c: SyntaxNode| marker_level_of(c.kind@) is Some
}

/// Predicate: a Setext underline node.
pub open spec fn is_underline() -> spec_fn(SyntaxNode) -> bool {
    |c: SyntaxNode| c.is_kind("setext_h1_underline"@) || c.is_kind("setext_h2_underline"@)
}

/// Predicate: an `inline` or `paragraph` node.
pub open spec fn is_inline() -> spec_fn(SyntaxNode) -> bool {
    |c: SyntaxNode| c.is_kind("inline"@) || c.is_kind("paragraph"@)
}

/// Predicate: `#` or whitespace.
pub open spec fn hash_or_ws() -> spec_fn(char) -> bool {
    |c: char| c == '#' || is_ws(c)
}

/// Level of an ATX heading: that of its first marker child.
pub open spec fn atx_level_of(node: SyntaxNode) -> Option<u8> {
    match find_first(node.children@, is_marker()) {
        Some(i) => marker_level_of(node.children@[i].kind@),
        None => None,
    }
}

/// Level of a Setext heading: 1 for `===`, 2 for `---`.
pub open spec fn setext_level_of(node: SyntaxNode) -> Option<u8> {
    match find_first(node.children@, is_underline()) {
        Some(i) => if node.children@[i].is_kind("setext_h1_underline"@) {
            Some(1)
        } else {
            Some(2)
        },
        None => None,
    }
}

/// The first line of `s` as `str::lines` yields it (empty for an empty
/// string); a `\r` before the first `\n` is dropped.
pub open spec fn first_line(s: Seq<char>) -> Seq<char> {
    let k = lead_len(s, |c: char| c != '\n');
    if k < s.len() {
        let seg = s.take(k);
        if seg.len() > 0 && seg.last() == '\r' {
            seg.drop_last()
        } else {
            seg
        }
    } else {
        s
    }
}

/// Display text of a heading: its trimmed `inline`/`paragraph` child, or
/// else the first line of its own text with the leading `#` markers and
/// whitespace stripped.
pub open spec fn heading_text_of(node: SyntaxNode) -> Seq<char> {
    match find_first(node.children@, is_inline()) {
        Some(i) => trim(node.children@[i].text@),
        None => first_line(trim(trim_start_by(node.text@, hash_or_ws()))),
    }
}

/// The header a Markdown heading stands for.
pub open spec fn markdown_header(node: SyntaxNode) -> Option<HeaderView> {
    let level = if node.is_kind("atx_heading"@) {
        atx_level_of(node)
    } else if node.is_kind("setext_heading"@) {
        setext_level_of(node)
    } else {
        None
    };
    match level {
        Some(l) => Some(
            HeaderView {
                decorators: seq![],
                keyword: KeywordBadge::Heading(l),
                name: heading_text_of(node),
                params: seq![],
                return_type: None,
                docstring: None,
            },
        ),
        None => None,
    }
}

/// Heading level of an ATX marker kind.
pub fn marker_level(kind: &str) -> (r: Option<u8>)
    ensures
        r == marker_level_of(kind@),
{
    if crate::text::str_eq(kind, "atx_h1_marker") {
        Some(1)
    } else if crate::text::str_eq(kind, "atx_h2_marker") {
        Some(2)
    } else if crate::text::str_eq(kind, "atx_h3_marker") {
        Some(3)
    } else if crate::text::str_eq(kind, "atx_h4_marker") {
        Some(4)
    } else if crate::text::str_eq(kind, "atx_h5_marker") {
        Some(5)
    } else if crate::text::str_eq(kind, "atx_h6_marker") {
        Some(6)
    } else {
        None
    }
}

fn atx_level(node: &SyntaxNode) -> (r: Option<u8>)
    ensures
        r == atx_level_of(*node),
{
    let ghost p = is_marker();
    let mut i: usize = 0;
    while i < node.children.len()
        invariant
            p == is_marker(),
            i <= node.children@.len(),
            forall|j: int| 0 <= j < i ==> !p(#[trigger] node.children@[j]),
        decreases node.children@.len() - i,
    {
        let l = marker_level(node.children[i].kind.as_str());
        if l.is_some() {
            proof {
                lemma_find_first_is(node.children@, p, i as int);
            }
            return l;
        }
        i = i + 1;
    }
    proof {
        lemma_find_first_none(node.children@, p);
    }
    None
}

fn setext_level(node: &SyntaxNode) -> (r: Option<u8>)
    ensures
        r == setext_level_of(*node),
{
    let ghost p = is_underline();
    let mut i: usize = 0;
    while i < node.children.len()
        invariant
            p == is_underline(),
            i <= node.children@.len(),
            forall|j: int| 0 <= j < i ==> !p(#[trigger] node.children@[j]),
        decreases node.children@.len() - i,
    {
        let c = &node.children[i];
        if kind_is(c, "setext_h1_underline") {
            proof {
                lemma_find_first_is(node.children@, p, i as int);
            }
            return Some(1);
        }
        if kind_is(c, "setext_h2_underline") {
            proof {
                lemma_find_first_is(node.children@, p, i as int);
            }
            return Some(2);
        }
        i = i + 1;
    }
    proof {
        lemma_find_first_none(node.children@, p);
    }
    None
}

/// `str::trim_start_matches(|c| c == '#' || c.is_whitespace())`.
fn trim_hashes_and_ws(s: &str) -> (r: String)
    ensures
        r@ == trim_start_by(s@, hash_or_ws()),
{
    let v = chars_of(s);
    let mut i: usize = 0;
    while i < v.len() && (v[i] == '#' || crate::text::is_whitespace(v[i]))
        invariant
            v@ == s@,
            i <= v@.len(),
            forall|j: int| 0 <= j < i ==> hash_or_ws()(#[trigger] v@[j]),
        decreases v@.len() - i,
    {
        i = i + 1;
    }
    proof {
        lemma_lead_len_unique(s@, hash_or_ws(), i as int);
    }
    String::from_str(s.substring_char(i, v.len()))
}

/// First line of `s`, as `s.lines().next().unwrap_or("")`.
pub fn first_line_of(s: &str) -> (r: String)
    ensures
        r@ == first_line(s@),
{
    let v = chars_of(s);
    let mut k: usize = 0;
    while k < v.len() && v[k] != '\n'
        invariant
            v@ == s@,
            k <= v@.len(),
            forall|j: int| 0 <= j < k ==> (|c: char| c != '\n')(#[trigger] v@[j]),
        decreases v@.len() - k,
    {
        k = k + 1;
    }
    proof {
        lemma_lead_len_unique(s@, |c: char| c != '\n', k as int);
    }
    if k < v.len() {
        if k > 0 && v[k - 1] == '\r' {
            String::from_str(s.substring_char(0, k - 1))
        } else {
            String::from_str(s.substring_char(0, k))
        }
    } else {
        String::from_str(s)
    }
}

/// Display text of a heading node.
pub fn heading_text(node: &SyntaxNode) -> (r: String)
    ensures
        r@ == heading_text_of(*node),
{
    let ghost p = is_inline();
    let mut i: usize = 0;
    while i < node.children.len()
        invariant
            p == is_inline(),
            i <= node.children@.len(),
            forall|j: int| 0 <= j < i ==> !p(#[trigger] node.children@[j]),
        decreases node.children@.len() - i,
    {
        let c = &node.children[i];
        if kind_is(c, "inline") || kind_is(c, "paragraph") {
            proof {
                lemma_find_first_is(node.children@, p, i as int);
            }
            return trim_str(c.text.as_str());
        }
        i = i + 1;
    }
    proof {
        lemma_find_first_none(node.children@, p);
    }
    let a = trim_hashes_and_ws(node.text.as_str());
    let b = trim_str(a.as_str());
    first_line_of(b.as_str())
}

/// Build the header of a Markdown heading (`atx_heading` or
/// `setext_heading`); `None` for any other node.
pub fn build_header(node: &SyntaxNode, source: &str) -> (r: Option<HeaderModel>)
    ensures
        opt_header_view(r) == markdown_header(*node),
{
    let level = if kind_is(node, "atx_heading") {
        atx_level(node)
    } else if kind_is(node, "setext_heading") {
        setext_level(node)
    } else {
        None
    };
    match level {
        Some(l) => {
            let name = heading_text(node);
            let decorators: Vec<DecoratorChip> = Vec::new();
            let params: Vec<ParamChip> = Vec::new();
            let h = HeaderModel {
                prelude: Prelude { decorators, keyword: KeywordBadge::Heading(l) },
                name,
                params,
                return_type: None,
                docstring: None,
            };
            assert(decorator_views(h.prelude.decorators@) =~= seq![]);
            assert(param_views(h.params@) =~= seq![]);
            Some(h)
        },
        None => None,
    }
}

} // verus!
