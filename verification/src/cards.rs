//! Cards — the structural units of a source file (classes, functions,
//! methods, top-level snippets), kept as a flat list in source order with
//! parent/child links, plus the byte- and line-range bookkeeping they
//! carry.

use std::ops::Range;
use vstd::prelude::*;
use vstd::string::*;
use crate::text::{
    before_either, before_first, is_char, is_either, str_eq, trim, trim_start_by, trim_start_char,
    trim_str,
};
use crate::tree::{
    field_child, field_child_index, find_first, is_first, kind_child, kind_child_index, kind_is,
    lemma_child_smaller, lemma_find_first_is, lemma_find_first_none, lemma_sizes_elem,
    lemma_nested_child, lemma_sizes_skip, nested, nested_within, size, sizes, field_is, SyntaxNode,
};

verus! {

/// `Range::clone`, derived by std: each bound is cloned.
pub assume_specification<Idx: Clone>[ <Range<Idx> as Clone>::clone ](r: &Range<Idx>) -> (res: Range<Idx>)
    ensures
        cloned(r.start, res.start),
        cloned(r.end, res.end),
;

#[derive(Debug, Clone, Copy, PartialEq, Eq, Hash, Structural)]
pub struct CardId(pub u32);

/// Opaque line identifier, seeded from the line's 0-based index in the
/// source file.
#[derive(Debug, Clone, Copy, PartialEq, Eq, Hash, Structural)]
pub struct LineId(pub u32);

/// One logical line of text inside a card: stable identity, byte range
/// into the source, and index inside its card.
#[derive(Debug, Clone)]
pub struct LogicalLine {
    pub id: LineId,
    /// Byte range of this line in the source, clipped to the card.
    pub byte_range: Range<usize>,
    /// Zero-based index within the parent card's ordered line list.
    pub line_index_in_card: u32,
}

#[derive(Debug, Clone, Copy, PartialEq, Eq, Structural)]
pub enum CardKind {
    /// A class (or a container item in languages without classes).
    Class,
    /// A top-level function (or a leaf section).
    Function,
    /// A function nested in a class body.
    Method,
    /// Top-level orphan code: imports, constants, control flow.
    Snippet,
}

#[derive(Debug, Clone, Copy, PartialEq, Eq, Structural)]
pub enum Visibility {
    Public,
    Private,
}

#[derive(Debug, Clone, Copy, PartialEq, Eq, Structural)]
pub enum MethodModifier {
    /// No recognised modifier decorator.
    Plain,
    Classmethod,
    Staticmethod,
    Property,
}

#[derive(Debug, Clone)]
pub struct Card {
    pub id: CardId,
    pub kind: CardKind,
    pub parent: Option<CardId>,
    pub depth: usize,
    pub name: String,
    pub visibility: Visibility,
    pub modifier: MethodModifier,
    /// Decorators in source order, `@` and call arguments stripped.
    pub decorators: Vec<String>,
    /// Byte range of the signature (without preceding decorators).
    pub header_range: Range<usize>,
    /// Byte range of the body, when there is one.
    pub body_range: Option<Range<usize>>,
    /// Byte range of the whole definition, decorators included.
    pub full_range: Range<usize>,
    pub header_lines: Range<usize>,
    pub body_lines: Option<Range<usize>>,
    pub full_lines: Range<usize>,
    /// Byte range of the leading docstring statement, if any.
    pub docstring_range: Option<Range<usize>>,
    pub docstring_lines: Option<Range<usize>>,
    /// One entry per source line covered by `full_lines`.
    pub lines: Vec<LogicalLine>,
}

/// The mathematical content of a `Card`.
pub ghost struct CardView {
    pub id: CardId,
    pub kind: CardKind,
    pub parent: Option<CardId>,
    pub depth: usize,
    pub name: Seq<char>,
    pub visibility: Visibility,
    pub modifier: MethodModifier,
    pub decorators: Seq<Seq<char>>,
    pub header_range: Range<usize>,
    pub body_range: Option<Range<usize>>,
    pub full_range: Range<usize>,
    pub header_lines: Range<usize>,
    pub body_lines: Option<Range<usize>>,
    pub full_lines: Range<usize>,
    pub docstring_range: Option<Range<usize>>,
    pub docstring_lines: Option<Range<usize>>,
    pub lines: Seq<LogicalLine>,
}

pub open spec fn string_views(v: Seq<String>) -> Seq<Seq<char>> {
    v.map_values(|s: String| s@)
}

impl View for Card {
    type V = CardView;

    open spec fn view(&self) -> CardView {
        CardView {
            id: self.id,
            kind: self.kind,
            parent: self.parent,
            depth: self.depth,
            name: self.name@,
            visibility: self.visibility,
            modifier: self.modifier,
            decorators: string_views(self.decorators@),
            header_range: self.header_range,
            body_range: self.body_range,
            full_range: self.full_range,
            header_lines: self.header_lines,
            body_lines: self.body_lines,
            full_lines: self.full_lines,
            docstring_range: self.docstring_range,
            docstring_lines: self.docstring_lines,
            lines: self.lines@,
        }
    }
}

/// The views of a list of cards.
pub open spec fn card_views(cards: Seq<Card>) -> Seq<CardView> {
    cards.map_values(|c: Card| c@)
}

pub open spec fn mk_range(start: int, end: int) -> Range<usize> {
    Range { start: start as usize, end: end as usize }
}

/// Offsets are nondecreasing (as `compute_line_offsets` produces them).
pub open spec fn sorted(s: Seq<usize>) -> bool {
    forall|i: int, j: int| 0 <= i <= j < s.len() ==> s[i] <= s[j]
}

/// Whether offset `v` lies before `x` (strictly, or not).
pub open spec fn below(v: usize, x: usize, strict: bool) -> bool {
    if strict {
        v < x
    } else {
        v <= x
    }
}

/// `p` is the partition point of `s` for "below `x`": every element
/// before it is below, every element from it on is not.
pub open spec fn is_partition_point(s: Seq<usize>, x: usize, strict: bool, p: int) -> bool {
    &&& 0 <= p <= s.len()
    &&& forall|i: int| 0 <= i < p ==> below(#[trigger] s[i], x, strict)
    &&& forall|i: int| p <= i < s.len() ==> !below(#[trigger] s[i], x, strict)
}

/// `slice::partition_point` with the predicate "below `x`".
pub open spec fn partition_point(s: Seq<usize>, x: usize, strict: bool) -> int {
    choose|p: int| is_partition_point(s, x, strict, p)
}

proof fn lemma_partition_point_unique(s: Seq<usize>, x: usize, strict: bool, p: int)
    requires
        is_partition_point(s, x, strict, p),
    ensures
        partition_point(s, x, strict) == p,
{
    assert(exists|q: int| is_partition_point(s, x, strict, q));
    let q = partition_point(s, x, strict);
    if q < p {
        assert(below(s[q], x, strict));
    } else if p < q {
        assert(below(s[p], x, strict));
    }
}

/// The partition point of a sorted sequence exists: the first element
/// that is not below `x` (or the end).
pub proof fn lemma_partition_point(s: Seq<usize>, x: usize, strict: bool)
    requires
        sorted(s),
    ensures
        is_partition_point(s, x, strict, partition_point(s, x, strict)),
{
    let p = first_not_below(s, x, strict, 0);
    assert(is_partition_point(s, x, strict, p));
}

proof fn first_not_below(s: Seq<usize>, x: usize, strict: bool, from: int) -> (p: int)
    requires
        sorted(s),
        0 <= from <= s.len(),
        forall|i: int| 0 <= i < from ==> below(#[trigger] s[i], x, strict),
    ensures
        is_partition_point(s, x, strict, p),
    decreases s.len() - from,
{
    if from == s.len() {
        from
    } else if below(s[from], x, strict) {
        first_not_below(s, x, strict, from + 1)
    } else {
        assert forall|i: int| from <= i < s.len() implies !below(#[trigger] s[i], x, strict) by {
            assert(s[from] <= s[i]);
        }
        from
    }
}

/// Binary search for the first offset of sorted `s` that is not below `x`.
fn find_partition_point(s: &[usize], x: usize, strict: bool) -> (p: usize)
    requires
        sorted(s@),
    ensures
        p as int == partition_point(s@, x, strict),
        p <= s@.len(),
{
    let mut lo: usize = 0;
    let mut hi: usize = s.len();
    while lo < hi
        invariant
            lo <= hi <= s@.len(),
            sorted(s@),
            forall|i: int| 0 <= i < lo ==> below(#[trigger] s@[i], x, strict),
            forall|i: int| hi <= i < s@.len() ==> !below(#[trigger] s@[i], x, strict),
        decreases hi - lo,
    {
        let mid = lo + (hi - lo) / 2;
        let b = if strict {
            s[mid] < x
        } else {
            s[mid] <= x
        };
        if b {
            assert forall|i: int| 0 <= i < mid + 1 implies below(#[trigger] s@[i], x, strict) by {
                assert(s@[i] <= s@[mid as int]);
            }
            lo = mid + 1;
        } else {
            assert forall|i: int| mid <= i < s@.len() implies !below(#[trigger] s@[i], x, strict) by {
                assert(s@[mid as int] <= s@[i]);
            }
            hi = mid;
        }
    }
    proof {
        lemma_partition_point_unique(s@, x, strict, lo as int);
    }
    lo
}

/// The half-open range of 0-based lines that the byte range `br` touches,
/// given the offsets table of the source.
pub open spec fn line_range(br: Range<usize>, offsets: Seq<usize>) -> Range<usize> {
    let first_above = partition_point(offsets, br.start, false);
    let start_line = if first_above >= 1 {
        first_above - 1
    } else {
        0
    };
    let end_line = if br.start >= br.end {
        start_line
    } else {
        partition_point(offsets, br.end, true)
    };
    mk_range(
        start_line,
        if end_line >= start_line {
            end_line
        } else {
            start_line
        },
    )
}

/// Line `p` of the offsets table of `b` opens at or before byte `x`
/// exactly for the first `1 + newlines_before(b, x)` entries.
proof fn lemma_offsets_partition(b: Seq<u8>, x: int)
    requires
        b.len() <= usize::MAX,
        0 <= x < b.len(),
    ensures
        partition_point(crate::state::line_offsets_of(b), x as usize, false) == 1
            + crate::state::newlines_before(b, x),
{
    let offs = crate::state::line_offsets_of(b);
    let l = crate::state::line_starts(b, b.len());
    crate::state::lemma_line_starts_count(b, b.len());
    crate::state::lemma_newlines_monotone(b, x, b.len() as int);
    let p: int = (1 + crate::state::newlines_before(b, x)) as int;
    assert forall|i: int| 0 <= i < p implies below(#[trigger] offs[i], x as usize, false) by {
        assert(offs[i] == l[i]);
        crate::state::lemma_line_start_at_or_before(b, x, i);
    }
    assert forall|i: int| p <= i < offs.len() implies !below(#[trigger] offs[i], x as usize, false) by {
        if i < l.len() {
            assert(offs[i] == l[i]);
            crate::state::lemma_line_start_at_or_before(b, x, i);
        }
    }
    lemma_partition_point_unique(offs, x as usize, false, p);
}

/// On the offsets table of `b`, a byte range touches the lines counted by
/// newlines: it starts on line `n` where `n` newlines come before its
/// first byte, and a non-empty range ends one past the line of its last
/// byte.
pub proof fn law_line_range_counts_newlines(b: Seq<u8>, br: Range<usize>)
    requires
        b.len() <= usize::MAX,
        br.start <= br.end <= b.len(),
        br.start < b.len(),
    ensures
        line_range(br, crate::state::line_offsets_of(b)).start == crate::state::newlines_before(
            b,
            br.start as int,
        ),
        line_range(br, crate::state::line_offsets_of(b)).end == if br.start == br.end {
            crate::state::newlines_before(b, br.start as int)
        } else {
            1 + crate::state::newlines_before(b, br.end - 1)
        },
{
    let offs = crate::state::line_offsets_of(b);
    lemma_offsets_partition(b, br.start as int);
    crate::state::lemma_newlines_monotone(b, br.start as int, br.start as int);
    if br.start < br.end {
        let e = br.end - 1;
        lemma_offsets_partition(b, e);
        crate::state::lemma_newlines_monotone(b, br.start as int, e);
        // "below `br.end`, strictly" is "at or before `br.end - 1`".
        assert forall|i: int| 0 <= i < offs.len() implies (below(#[trigger] offs[i], br.end, true)
            == below(offs[i], e as usize, false)) by {}
        let p = partition_point(offs, e as usize, false);
        crate::state::law_line_offsets_sorted(b);
        lemma_partition_point(offs, e as usize, false);
        assert(is_partition_point(offs, br.end, true, p));
        lemma_partition_point_unique(offs, br.end, true, p);
    }
}

/// Line range touched by the byte range `br`.
pub fn byte_range_to_line_range(br: &Range<usize>, line_offsets: &[usize]) -> (r: Range<usize>)
    requires
        sorted(line_offsets@),
    ensures
        r == line_range(*br, line_offsets@),
        r.start <= r.end <= line_offsets@.len(),
{
    let first_above = find_partition_point(line_offsets, br.start, false);
    let start_line = if first_above >= 1 {
        first_above - 1
    } else {
        0
    };
    let end_line = if br.start >= br.end {
        start_line
    } else {
        find_partition_point(line_offsets, br.end, true)
    };
    let end = if end_line >= start_line {
        end_line
    } else {
        start_line
    };
    start_line..end
}

/// The logical line for line `ln`, the `idx`-th line of a card spanning
/// the byte range `full`.
pub open spec fn logical_line(full: Range<usize>, ln: int, idx: int, offsets: Seq<usize>) -> LogicalLine {
    let ls = if 0 <= ln < offsets.len() {
        offsets[ln] as int
    } else {
        full.start as int
    };
    let le = if 0 <= ln + 1 < offsets.len() {
        offsets[ln + 1] as int
    } else {
        full.end as int
    };
    LogicalLine {
        id: LineId(ln as u32),
        byte_range: mk_range(
            if ls >= full.start {
                ls
            } else {
                full.start as int
            },
            if le <= full.end {
                le
            } else {
                full.end as int
            },
        ),
        line_index_in_card: idx as u32,
    }
}

/// One logical line per source line in `lines`, each clipped to `full`.
pub open spec fn logical_lines(full: Range<usize>, lines: Range<usize>, offsets: Seq<usize>) -> Seq<
    LogicalLine,
> {
    let n = if lines.end >= lines.start {
        lines.end - lines.start
    } else {
        0
    };
    Seq::new(n as nat, |idx: int| logical_line(full, lines.start + idx, idx, offsets))
}

/// Build the per-line list for a card covering `full_lines`.
pub fn build_logical_lines(
    full_range: &Range<usize>,
    full_lines: &Range<usize>,
    line_offsets: &[usize],
) -> (out: Vec<LogicalLine>)
    ensures
        out@ == logical_lines(*full_range, *full_lines, line_offsets@),
{
    let mut out: Vec<LogicalLine> = Vec::new();
    let mut ln = full_lines.start;
    let mut idx: usize = 0;
    while ln < full_lines.end
        invariant
            full_lines.start <= ln <= full_lines.end || (ln == full_lines.start && full_lines.end
                < full_lines.start),
            idx == ln - full_lines.start,
            out@ =~= logical_lines(*full_range, *full_lines, line_offsets@).take(idx as int),
            ln <= full_lines.end ==> out@.len() == idx,
        decreases full_lines.end - ln,
    {
        let ls = if ln < line_offsets.len() {
            line_offsets[ln]
        } else {
            full_range.start
        };
        let le = if ln + 1 < line_offsets.len() {
            line_offsets[ln + 1]
        } else {
            full_range.end
        };
        let start = if ls >= full_range.start {
            ls
        } else {
            full_range.start
        };
        let end = if le <= full_range.end {
            le
        } else {
            full_range.end
        };
        let line = LogicalLine {
            id: LineId(ln as u32),
            byte_range: start..end,
            line_index_in_card: idx as u32,
        };
        assert(line == logical_line(*full_range, ln as int, idx as int, line_offsets@));
        out.push(line);
        ln = ln + 1;
        idx = idx + 1;
    }
    assert(out@ =~= logical_lines(*full_range, *full_lines, line_offsets@));
    out
}


// ---------------------------------------------------------------------------
// Python card extraction
// ---------------------------------------------------------------------------

/// Leading-underscore convention: `_x` is private, `__dunder__` (and `_`-free
/// names) are public.
pub open spec fn py_visibility(name: Seq<char>) -> Visibility {
    let dunder = name.len() >= 2 && name[0] == '_' && name[1] == '_' && name[name.len() - 2] == '_'
        && name[name.len() - 1] == '_';
    if dunder {
        Visibility::Public
    } else if name.len() >= 1 && name[0] == '_' {
        Visibility::Private
    } else {
        Visibility::Public
    }
}

/// Decorator text with `@`, surrounding whitespace and call arguments
/// stripped; dotted names are kept (`@functools.wraps(f)` → `functools.wraps`).
pub open spec fn decorator_text(t: Seq<char>) -> Seq<char> {
    trim(before_first(trim(trim_start_by(t, is_char('@'))), is_char('(')))
}

/// Decorator base word, cut at the first `(` or `.` (`@abc.x` → `abc`).
pub open spec fn modifier_word(t: Seq<char>) -> Seq<char> {
    trim(before_first(trim(trim_start_by(t, is_char('@'))), is_either('(', '.')))
}

/// Predicate: a Python function or class definition node.
pub open spec fn is_py_def() -> spec_fn(SyntaxNode) -> bool {
    |c: SyntaxNode| c.is_kind("function_definition"@) || c.is_kind("class_definition"@)
}

/// Predicate: not a comment.
pub open spec fn not_comment() -> spec_fn(SyntaxNode) -> bool {
    |c: SyntaxNode| !c.is_kind("comment"@)
}

/// The decorator names among `cs` (the children of a decorated
/// definition), in order; empty names are dropped.
pub open spec fn decorator_list(cs: Seq<SyntaxNode>) -> Seq<Seq<char>>
    decreases cs.len(),
{
    if cs.len() == 0 {
        seq![]
    } else {
        let c = cs.last();
        let rest = decorator_list(cs.drop_last());
        if c.is_kind("decorator"@) && c.text_ok && decorator_text(c.text@).len() > 0 {
            rest.push(decorator_text(c.text@))
        } else {
            rest
        }
    }
}

/// Decorators of a statement: only a `decorated_definition` has any.
pub open spec fn decorators_of(node: SyntaxNode) -> Seq<Seq<char>> {
    if node.is_kind("decorated_definition"@) {
        decorator_list(node.children@)
    } else {
        seq![]
    }
}

/// The first recognised modifier among the decorators in `cs`.
pub open spec fn modifier_in(cs: Seq<SyntaxNode>) -> MethodModifier
    decreases cs.len(),
{
    if cs.len() == 0 {
        MethodModifier::Plain
    } else {
        let c = cs[0];
        let w = modifier_word(c.text@);
        if c.is_kind("decorator"@) && c.text_ok && w == "classmethod"@ {
            MethodModifier::Classmethod
        } else if c.is_kind("decorator"@) && c.text_ok && w == "staticmethod"@ {
            MethodModifier::Staticmethod
        } else if c.is_kind("decorator"@) && c.text_ok && w == "property"@ {
            MethodModifier::Property
        } else {
            modifier_in(cs.drop_first())
        }
    }
}

pub open spec fn modifier_of(node: SyntaxNode) -> MethodModifier {
    if node.is_kind("decorated_definition"@) {
        modifier_in(node.children@)
    } else {
        MethodModifier::Plain
    }
}

/// Byte range of the leading docstring statement of a body block: the
/// first non-comment child, when it is an `expression_statement` holding a
/// `string`.
pub open spec fn docstring_of(body: SyntaxNode) -> Option<Range<usize>> {
    match find_first(body.children@, not_comment()) {
        Some(i) => {
            let c = body.children@[i];
            if c.is_kind("expression_statement"@) && kind_child(c, "string"@) is Some {
                Some(mk_range(c.start as int, c.end as int))
            } else {
                None
            }
        },
        None => None,
    }
}

pub open spec fn opt_line_range(r: Option<Range<usize>>, offsets: Seq<usize>) -> Option<Range<usize>> {
    match r {
        Some(br) => Some(line_range(br, offsets)),
        None => None,
    }
}

/// The definition a statement stands for: itself for a plain definition,
/// the first wrapped definition for a decorated one.
pub open spec fn py_def_of(node: SyntaxNode) -> Option<SyntaxNode> {
    if node.is_kind("decorated_definition"@) {
        match find_first(node.children@, is_py_def()) {
            Some(i) => Some(node.children@[i]),
            None => None,
        }
    } else {
        Some(node)
    }
}

/// The card of a definition statement `node` whose definition is `d`.
pub open spec fn py_card(
    node: SyntaxNode,
    d: SyntaxNode,
    name: Seq<char>,
    kind: CardKind,
    offsets: Seq<usize>,
    parent: Option<CardId>,
    depth: usize,
    id: int,
) -> CardView {
    let body = field_child(d, "body"@);
    let body_range = match body {
        Some(b) => Some(mk_range(b.start as int, b.end as int)),
        None => None,
    };
    let header_end = match body {
        Some(b) => b.start as int,
        None => d.end as int,
    };
    let header_range = mk_range(d.start as int, header_end);
    let full_range = mk_range(node.start as int, d.end as int);
    let docstring_range = match body {
        Some(b) => docstring_of(b),
        None => None,
    };
    CardView {
        id: CardId(id as u32),
        kind,
        parent,
        depth,
        name,
        visibility: py_visibility(name),
        modifier: if kind == CardKind::Method {
            modifier_of(node)
        } else {
            MethodModifier::Plain
        },
        decorators: decorators_of(node),
        header_range,
        body_range,
        full_range,
        header_lines: line_range(header_range, offsets),
        body_lines: opt_line_range(body_range, offsets),
        full_lines: line_range(full_range, offsets),
        docstring_range,
        docstring_lines: opt_line_range(docstring_range, offsets),
        lines: logical_lines(full_range, line_range(full_range, offsets), offsets),
    }
}

/// The card of a top-level statement that is no definition.
pub open spec fn snippet_card(node: SyntaxNode, offsets: Seq<usize>, id: int) -> CardView {
    let full = mk_range(node.start as int, node.end as int);
    let full_lines = line_range(full, offsets);
    CardView {
        id: CardId(id as u32),
        kind: CardKind::Snippet,
        parent: None,
        depth: 0,
        name: node.kind@,
        visibility: Visibility::Public,
        modifier: MethodModifier::Plain,
        decorators: seq![],
        header_range: full,
        body_range: None,
        full_range: full,
        header_lines: full_lines,
        body_lines: None,
        full_lines,
        docstring_range: None,
        docstring_lines: None,
        lines: logical_lines(full, full_lines, offsets),
    }
}

/// The cards a Python statement contributes, numbered from `next`: one per
/// definition (classes followed by the cards of their bodies), one snippet
/// per other top-level statement, none for comments or for statements
/// inside a class that are no definitions.
pub open spec fn stmt_cards(
    node: SyntaxNode,
    offsets: Seq<usize>,
    parent: Option<CardId>,
    depth: usize,
    next: int,
) -> Seq<CardView>
    decreases size(node), 0nat,
{
    if node.is_kind("function_definition"@) || node.is_kind("class_definition"@) || node.is_kind(
        "decorated_definition"@,
    ) {
        match py_def_of(node) {
            None => seq![],
            Some(d) => {
                if !(d.is_kind("function_definition"@) || d.is_kind("class_definition"@)) {
                    seq![]
                } else {
                    let kind = if d.is_kind("function_definition"@) {
                        if parent is Some {
                            CardKind::Method
                        } else {
                            CardKind::Function
                        }
                    } else {
                        CardKind::Class
                    };
                    match field_child(d, "name"@) {
                        None => seq![],
                        Some(nn) => {
                            if !nn.text_ok {
                                seq![]
                            } else {
                                let card = py_card(
                                    node,
                                    d,
                                    nn.text@,
                                    kind,
                                    offsets,
                                    parent,
                                    depth,
                                    next,
                                );
                                if kind == CardKind::Class {
                                    match find_first(d.children@, crate::tree::field_is("body"@)) {
                                        Some(j) => {
                                            proof {
                                                lemma_body_smaller(node, d, j);
                                            }
                                            seq![card] + block_cards(
                                                d.children@[j].children@,
                                                offsets,
                                                Some(CardId(next as u32)),
                                                (depth + 1) as usize,
                                                next + 1,
                                            )
                                        },
                                        None => seq![card],
                                    }
                                } else {
                                    seq![card]
                                }
                            }
                        },
                    }
                }
            },
        }
    } else if node.is_kind("comment"@) {
        seq![]
    } else if parent is None {
        seq![snippet_card(node, offsets, next)]
    } else {
        seq![]
    }
}

/// The cards of a run of sibling statements, numbered consecutively from
/// `next`.
pub open spec fn block_cards(
    cs: Seq<SyntaxNode>,
    offsets: Seq<usize>,
    parent: Option<CardId>,
    depth: usize,
    next: int,
) -> Seq<CardView>
    decreases sizes(cs), 1nat,
{
    if cs.len() == 0 {
        seq![]
    } else {
        proof {
            lemma_sizes_elem(cs, 0);
        }
        let h = stmt_cards(cs[0], offsets, parent, depth, next);
        h + block_cards(cs.drop_first(), offsets, parent, depth, next + h.len())
    }
}

/// The body block of the definition of `node` is smaller than `node`.
pub proof fn lemma_body_smaller(node: SyntaxNode, d: SyntaxNode, j: int)
    requires
        py_def_of(node) == Some(d),
        0 <= j < d.children@.len(),
    ensures
        sizes(d.children@[j].children@) + 1 < size(node),
{
    lemma_child_smaller(d, j);
    if node.is_kind("decorated_definition"@) {
        let i = find_first(node.children@, is_py_def())->0;
        assert(is_first(node.children@, is_py_def(), i));
        lemma_child_smaller(node, i);
    }
}

/// Card `k` of `cs` (numbered from `next`) is nested in an earlier class
/// card of `cs`, one level deeper.
pub open spec fn child_of_earlier(cs: Seq<CardView>, next: int, k: int) -> bool {
    exists|m: int|
        0 <= m < k && cs[k].parent == Some(CardId((next + m) as u32)) && (#[trigger] cs[m]).kind == CardKind::Class && cs[m].depth + 1 == cs[k].depth
}

/// The cards `cs`, numbered from `next`, form a flat tree under `parent`
/// at `depth`: each card's id is its position plus `next`, and each card
/// either hangs directly under `parent` at `depth` or under an earlier
/// class card of `cs`, one level deeper than it.
pub open spec fn well_linked(cs: Seq<CardView>, parent: Option<CardId>, depth: usize, next: int) -> bool {
    forall|k: int|
        0 <= k < cs.len() ==> {
            &&& (#[trigger] cs[k]).id == CardId((next + k) as u32)
            &&& cs[k].depth >= depth
            &&& ((cs[k].parent == parent && cs[k].depth == depth) || child_of_earlier(cs, next, k))
        }
}

pub proof fn lemma_linked_concat(
    h: Seq<CardView>,
    r: Seq<CardView>,
    parent: Option<CardId>,
    depth: usize,
    next: int,
)
    requires
        well_linked(h, parent, depth, next),
        well_linked(r, parent, depth, next + h.len()),
    ensures
        well_linked(h + r, parent, depth, next),
{
    let c = h + r;
    assert forall|k: int| 0 <= k < c.len() implies {
        &&& (#[trigger] c[k]).id == CardId((next + k) as u32)
        &&& c[k].depth >= depth
        &&& ((c[k].parent == parent && c[k].depth == depth) || child_of_earlier(c, next, k))
    } by {
        if k < h.len() {
            assert(c[k] == h[k]);
            if !(h[k].parent == parent && h[k].depth == depth) {
                assert(child_of_earlier(h, next, k));
                let m = choose|m: int|
                    0 <= m < k && h[k].parent == Some(CardId((next + m) as u32)) && (#[trigger] h[m]).kind == CardKind::Class && h[m].depth + 1 == h[k].depth;
                assert(c[m] == h[m]);
            }
        } else {
            let j = k - h.len();
            assert(c[k] == r[j]);
            assert(next + h.len() + j == next + k);
            if !(r[j].parent == parent && r[j].depth == depth) {
                assert(child_of_earlier(r, next + h.len(), j));
                let m = choose|m: int|
                    0 <= m < j && r[j].parent == Some(CardId((next + h.len() + m) as u32)) && (#[trigger] r[m]).kind == CardKind::Class && r[m].depth + 1 == r[j].depth;
                assert(c[h.len() + m] == r[m]);
            }
        }
    }
}

proof fn lemma_stmt_linked(
    node: SyntaxNode,
    offsets: Seq<usize>,
    parent: Option<CardId>,
    depth: usize,
    next: int,
)
    requires
        parent is None ==> depth == 0,
        0 <= depth <= next,
        next + stmt_cards(node, offsets, parent, depth, next).len() <= u32::MAX,
    ensures
        well_linked(stmt_cards(node, offsets, parent, depth, next), parent, depth, next),
    decreases size(node), 0nat,
{
    let out = stmt_cards(node, offsets, parent, depth, next);
    if node.is_kind("function_definition"@) || node.is_kind("class_definition"@) || node.is_kind(
        "decorated_definition"@,
    ) {
        match py_def_of(node) {
            None => {},
            Some(d) => {
                let kind = if d.is_kind("function_definition"@) {
                    if parent is Some {
                        CardKind::Method
                    } else {
                        CardKind::Function
                    }
                } else {
                    CardKind::Class
                };
                if (d.is_kind("function_definition"@) || d.is_kind("class_definition"@)) && kind
                    == CardKind::Class {
                    match field_child(d, "name"@) {
                        None => {},
                        Some(nn) => {
                            if nn.text_ok {
                                match find_first(d.children@, crate::tree::field_is("body"@)) {
                                    Some(j) => {
                                        lemma_body_smaller(node, d, j);
                                        let cs = d.children@[j].children@;
                                        let inner = block_cards(
                                            cs,
                                            offsets,
                                            Some(CardId(next as u32)),
                                            (depth + 1) as usize,
                                            next + 1,
                                        );
                                        lemma_block_linked(
                                            cs,
                                            offsets,
                                            Some(CardId(next as u32)),
                                            (depth + 1) as usize,
                                            next + 1,
                                        );
                                        let card = py_card(node, d, nn.text@, kind, offsets, parent, depth, next);
                                        assert(out == seq![card] + inner);
                                        assert forall|k: int| 0 <= k < out.len() implies {
                                            &&& (#[trigger] out[k]).id == CardId((next + k) as u32)
                                            &&& out[k].depth >= depth
                                            &&& ((out[k].parent == parent && out[k].depth == depth)
                                                || child_of_earlier(out, next, k))
                                        } by {
                                            if k > 0 {
                                                let i = k - 1;
                                                assert(out[k] == inner[i]);
                                                if inner[i].parent == Some(CardId(next as u32))
                                                    && inner[i].depth == depth + 1 {
                                                    assert(out[0] == card);
                                                    assert(child_of_earlier(out, next, k));
                                                } else {
                                                    assert(child_of_earlier(inner, next + 1, i));
                                                    let m = choose|m: int|
                                                        0 <= m < i && inner[i].parent == Some(
                                                            CardId((next + 1 + m) as u32),
                                                        ) && (#[trigger] inner[m]).kind == CardKind::Class
                                                            && inner[m].depth + 1 == inner[i].depth;
                                                    assert(out[m + 1] == inner[m]);
                                                    assert(child_of_earlier(out, next, k));
                                                }
                                            }
                                        }
                                    },
                                    None => {},
                                }
                            }
                        },
                    }
                }
            },
        }
    }
}

proof fn lemma_block_linked(
    cs: Seq<SyntaxNode>,
    offsets: Seq<usize>,
    parent: Option<CardId>,
    depth: usize,
    next: int,
)
    requires
        parent is None ==> depth == 0,
        0 <= depth <= next,
        next + block_cards(cs, offsets, parent, depth, next).len() <= u32::MAX,
    ensures
        well_linked(block_cards(cs, offsets, parent, depth, next), parent, depth, next),
    decreases sizes(cs), 1nat,
{
    if cs.len() > 0 {
        lemma_sizes_elem(cs, 0);
        assert(sizes(cs) == size(cs[0]) + sizes(cs.drop_first()));
        let h = stmt_cards(cs[0], offsets, parent, depth, next);
        lemma_stmt_linked(cs[0], offsets, parent, depth, next);
        lemma_block_linked(cs.drop_first(), offsets, parent, depth, next + h.len());
        lemma_linked_concat(
            h,
            block_cards(cs.drop_first(), offsets, parent, depth, next + h.len()),
            parent,
            depth,
            next,
        );
    }
}

/// The cards of a Python file form a flat tree in source order: card
/// `k` has id `k`; a top-level card has no parent and depth 0; any other
/// card's parent is an earlier class card, one level shallower.
pub proof fn law_python_cards_form_a_tree(root: SyntaxNode, offsets: Seq<usize>)
    requires
        block_cards(root.children@, offsets, None, 0, 0).len() <= u32::MAX,
    ensures
        forms_tree(block_cards(root.children@, offsets, None, 0, 0)),
{
    let cs = block_cards(root.children@, offsets, None, 0, 0);
    lemma_block_linked(root.children@, offsets, None, 0, 0);
    assert forall|k: int| 0 <= k < cs.len() implies {
        &&& (#[trigger] cs[k]).id == CardId(k as u32)
        &&& (cs[k].parent is None <==> cs[k].depth == 0)
        &&& (cs[k].parent matches Some(p) ==> {
            &&& p.0 < k
            &&& cs[p.0 as int].kind == CardKind::Class
            &&& cs[p.0 as int].depth + 1 == cs[k].depth
        })
    } by {
        if !(cs[k].parent is None && cs[k].depth == 0) {
            assert(child_of_earlier(cs, 0, k));
            let m = choose|m: int|
                0 <= m < k && cs[k].parent == Some(CardId((0 + m) as u32)) && (#[trigger] cs[m]).kind
                    == CardKind::Class && cs[m].depth + 1 == cs[k].depth;
            assert(m < u32::MAX);
            assert((m as u32) as int == m);
        }
    }
}

/// The cards form a flat tree in order: card `k` has id `k`; a card has
/// no parent exactly at depth 0; any other card's parent is an earlier
/// class card one level shallower.
pub open spec fn forms_tree(cs: Seq<CardView>) -> bool {
    forall|k: int|
        0 <= k < cs.len() ==> {
            &&& (#[trigger] cs[k]).id == CardId(k as u32)
            &&& (cs[k].parent is None <==> cs[k].depth == 0)
            &&& (cs[k].parent matches Some(p) ==> {
                &&& p.0 < k
                &&& cs[p.0 as int].kind == CardKind::Class
                &&& cs[p.0 as int].depth + 1 == cs[k].depth
            })
        }
}

/// Every card's byte ranges nest (see `ranges_nest`).
pub open spec fn all_ranges_nest(cs: Seq<CardView>) -> bool {
    forall|k: int| 0 <= k < cs.len() ==> ranges_nest(#[trigger] cs[k])
}

/// A card's byte ranges nest: the header lies within the full range, and
/// the body, when there is one, starts where the header ends and ends
/// within the full range.
pub open spec fn ranges_nest(c: CardView) -> bool {
    &&& c.full_range.start <= c.header_range.start
    &&& c.header_range.start <= c.header_range.end
    &&& c.header_range.end <= c.full_range.end
    &&& (c.body_range matches Some(b) ==> {
        &&& b.start == c.header_range.end
        &&& b.start <= b.end
        &&& b.end <= c.full_range.end
    })
}

proof fn lemma_py_def_nested(node: SyntaxNode, d: SyntaxNode)
    requires
        nested(node),
        py_def_of(node) == Some(d),
    ensures
        nested(d),
        node.start <= d.start,
        d.end <= node.end,
{
    if node.is_kind("decorated_definition"@) {
        let i = find_first(node.children@, is_py_def())->0;
        assert(is_first(node.children@, is_py_def(), i));
        lemma_nested_child(node, i);
    }
}

proof fn lemma_py_card_ranges(
    node: SyntaxNode,
    d: SyntaxNode,
    name: Seq<char>,
    kind: CardKind,
    offsets: Seq<usize>,
    parent: Option<CardId>,
    depth: usize,
    id: int,
)
    requires
        nested(node),
        py_def_of(node) == Some(d),
    ensures
        ranges_nest(py_card(node, d, name, kind, offsets, parent, depth, id)),
{
    lemma_py_def_nested(node, d);
    match find_first(d.children@, field_is("body"@)) {
        Some(j) => {
            assert(is_first(d.children@, field_is("body"@), j));
            lemma_nested_child(d, j);
        },
        None => {},
    }
}

proof fn lemma_stmt_ranges(node: SyntaxNode, offsets: Seq<usize>, parent: Option<CardId>, depth: usize, next: int)
    requires
        nested(node),
    ensures
        forall|k: int| 0 <= k < stmt_cards(node, offsets, parent, depth, next).len()
            ==> ranges_nest(#[trigger] stmt_cards(node, offsets, parent, depth, next)[k]),
    decreases size(node), 0nat,
{
    let out = stmt_cards(node, offsets, parent, depth, next);
    if node.is_kind("function_definition"@) || node.is_kind("class_definition"@) || node.is_kind(
        "decorated_definition"@,
    ) {
        match py_def_of(node) {
            None => {},
            Some(d) => {
                let kind = if d.is_kind("function_definition"@) {
                    if parent is Some {
                        CardKind::Method
                    } else {
                        CardKind::Function
                    }
                } else {
                    CardKind::Class
                };
                if d.is_kind("function_definition"@) || d.is_kind("class_definition"@) {
                    match field_child(d, "name"@) {
                        None => {},
                        Some(nn) => {
                            if nn.text_ok {
                                let card = py_card(node, d, nn.text@, kind, offsets, parent, depth, next);
                                lemma_py_card_ranges(node, d, nn.text@, kind, offsets, parent, depth, next);
                                if kind == CardKind::Class {
                                    match find_first(d.children@, crate::tree::field_is("body"@)) {
                                        Some(j) => {
                                            lemma_body_smaller(node, d, j);
                                            lemma_py_def_nested(node, d);
                                            assert(is_first(d.children@, field_is("body"@), j));
                                            lemma_nested_child(d, j);
                                            let b = d.children@[j];
                                            let inner = block_cards(
                                                b.children@,
                                                offsets,
                                                Some(CardId(next as u32)),
                                                (depth + 1) as usize,
                                                next + 1,
                                            );
                                            lemma_block_ranges(
                                                b.children@,
                                                b.start as int,
                                                b.end as int,
                                                offsets,
                                                Some(CardId(next as u32)),
                                                (depth + 1) as usize,
                                                next + 1,
                                            );
                                            assert(out == seq![card] + inner);
                                            assert forall|k: int| 0 <= k < out.len() implies ranges_nest(#[trigger] out[k]) by {
                                                if k > 0 {
                                                    assert(out[k] == inner[k - 1]);
                                                }
                                            }
                                        },
                                        None => {},
                                    }
                                }
                            }
                        },
                    }
                }
            },
        }
    }
}

proof fn lemma_block_ranges(
    cs: Seq<SyntaxNode>,
    lo: int,
    hi: int,
    offsets: Seq<usize>,
    parent: Option<CardId>,
    depth: usize,
    next: int,
)
    requires
        nested_within(cs, lo, hi),
    ensures
        forall|k: int| 0 <= k < block_cards(cs, offsets, parent, depth, next).len()
            ==> ranges_nest(#[trigger] block_cards(cs, offsets, parent, depth, next)[k]),
    decreases sizes(cs), 1nat,
{
    if cs.len() > 0 {
        lemma_sizes_elem(cs, 0);
        assert(sizes(cs) == size(cs[0]) + sizes(cs.drop_first()));
        let h = stmt_cards(cs[0], offsets, parent, depth, next);
        let t = block_cards(cs.drop_first(), offsets, parent, depth, next + h.len());
        lemma_stmt_ranges(cs[0], offsets, parent, depth, next);
        lemma_block_ranges(cs.drop_first(), lo, hi, offsets, parent, depth, next + h.len());
        let out = block_cards(cs, offsets, parent, depth, next);
        assert(out == h + t);
        assert forall|k: int| 0 <= k < out.len() implies ranges_nest(#[trigger] out[k]) by {
            if k < h.len() {
                assert(out[k] == h[k]);
            } else {
                assert(out[k] == t[k - h.len()]);
            }
        }
    }
}

/// In a tree whose every child lies within its parent's byte range (as
/// tree-sitter's do), each Python card's header lies within its full
/// range, and its body starts where the header ends and ends within the
/// full range.
pub proof fn law_python_card_ranges_nest(root: SyntaxNode, offsets: Seq<usize>)
    requires
        nested(root),
    ensures
        all_ranges_nest(block_cards(root.children@, offsets, None, 0, 0)),
{
    lemma_block_ranges(root.children@, root.start as int, root.end as int, offsets, None, 0, 0);
}

/// A Python name with a leading underscore is private, unless it both
/// starts and ends with a double underscore (a dunder, which is public
/// API); any other name is public.
pub proof fn law_python_visibility(name: Seq<char>)
    ensures
        (name.len() >= 2 && name.take(2) == "__"@ && name.skip(name.len() - 2) == "__"@)
            ==> py_visibility(name) == Visibility::Public,
        (name.len() >= 1 && name[0] == '_' && !(name.len() >= 2 && name.take(2) == "__"@ && name.skip(
            name.len() - 2,
        ) == "__"@)) ==> py_visibility(name) == Visibility::Private,
        (name.len() == 0 || name[0] != '_') ==> py_visibility(name) == Visibility::Public,
{
    reveal_strlit("__");
    if name.len() >= 2 {
        let dunder = name[0] == '_' && name[1] == '_' && name[name.len() - 2] == '_' && name[name.len() - 1] == '_';
        if dunder {
            assert(name.take(2) =~= "__"@);
            assert(name.skip(name.len() - 2) =~= "__"@);
        } else {
            if name.take(2) == "__"@ && name.skip(name.len() - 2) == "__"@ {
                assert(name.take(2)[0] == name[0] && name.take(2)[1] == name[1]);
                assert(name.skip(name.len() - 2)[0] == name[name.len() - 2]);
                assert(name.skip(name.len() - 2)[1] == name[name.len() - 1]);
            }
        }
    }
}

/// The visibility rule for the cards of a Python file: a snippet is
/// public; a definition is private exactly when its name starts with an
/// underscore and is not a dunder.
pub open spec fn python_visibility_rule(c: CardView) -> bool {
    if c.kind == CardKind::Snippet {
        c.visibility == Visibility::Public
    } else {
        (c.visibility == Visibility::Private) <==> (c.name.len() >= 1 && c.name[0] == '_' && !(
        c.name.len() >= 2 && c.name.take(2) == "__"@ && c.name.skip(c.name.len() - 2) == "__"@))
    }
}

proof fn lemma_stmt_visibility(node: SyntaxNode, offsets: Seq<usize>, parent: Option<CardId>, depth: usize, next: int)
    ensures
        forall|k: int| 0 <= k < stmt_cards(node, offsets, parent, depth, next).len()
            ==> python_visibility_rule(#[trigger] stmt_cards(node, offsets, parent, depth, next)[k]),
    decreases size(node), 0nat,
{
    let out = stmt_cards(node, offsets, parent, depth, next);
    if node.is_kind("function_definition"@) || node.is_kind("class_definition"@) || node.is_kind(
        "decorated_definition"@,
    ) {
        match py_def_of(node) {
            None => {},
            Some(d) => {
                let kind = if d.is_kind("function_definition"@) {
                    if parent is Some {
                        CardKind::Method
                    } else {
                        CardKind::Function
                    }
                } else {
                    CardKind::Class
                };
                if d.is_kind("function_definition"@) || d.is_kind("class_definition"@) {
                    match field_child(d, "name"@) {
                        None => {},
                        Some(nn) => {
                            if nn.text_ok {
                                let card = py_card(node, d, nn.text@, kind, offsets, parent, depth, next);
                                law_python_visibility(nn.text@);
                                assert(python_visibility_rule(card));
                                if kind == CardKind::Class {
                                    match find_first(d.children@, crate::tree::field_is("body"@)) {
                                        Some(j) => {
                                            lemma_body_smaller(node, d, j);
                                            let b = d.children@[j];
                                            let inner = block_cards(
                                                b.children@,
                                                offsets,
                                                Some(CardId(next as u32)),
                                                (depth + 1) as usize,
                                                next + 1,
                                            );
                                            lemma_block_visibility(
                                                b.children@,
                                                offsets,
                                                Some(CardId(next as u32)),
                                                (depth + 1) as usize,
                                                next + 1,
                                            );
                                            assert(out == seq![card] + inner);
                                            assert forall|k: int| 0 <= k < out.len() implies python_visibility_rule(#[trigger] out[k]) by {
                                                if k > 0 {
                                                    assert(out[k] == inner[k - 1]);
                                                }
                                            }
                                        },
                                        None => {},
                                    }
                                }
                            }
                        },
                    }
                }
            },
        }
    }
}

proof fn lemma_block_visibility(
    cs: Seq<SyntaxNode>,
    offsets: Seq<usize>,
    parent: Option<CardId>,
    depth: usize,
    next: int,
)
    ensures
        forall|k: int| 0 <= k < block_cards(cs, offsets, parent, depth, next).len()
            ==> python_visibility_rule(#[trigger] block_cards(cs, offsets, parent, depth, next)[k]),
    decreases sizes(cs), 1nat,
{
    if cs.len() > 0 {
        lemma_sizes_elem(cs, 0);
        assert(sizes(cs) == size(cs[0]) + sizes(cs.drop_first()));
        let h = stmt_cards(cs[0], offsets, parent, depth, next);
        let t = block_cards(cs.drop_first(), offsets, parent, depth, next + h.len());
        lemma_stmt_visibility(cs[0], offsets, parent, depth, next);
        lemma_block_visibility(cs.drop_first(), offsets, parent, depth, next + h.len());
        let out = block_cards(cs, offsets, parent, depth, next);
        assert(out == h + t);
        assert forall|k: int| 0 <= k < out.len() implies python_visibility_rule(#[trigger] out[k]) by {
            if k < h.len() {
                assert(out[k] == h[k]);
            } else {
                assert(out[k] == t[k - h.len()]);
            }
        }
    }
}

/// Every card of a Python file follows the visibility rule: snippets are
/// public, and a definition is private exactly when its name starts with
/// an underscore and is not a dunder.
pub proof fn law_python_cards_visibility(root: SyntaxNode, offsets: Seq<usize>)
    ensures
        ({
            let cs = block_cards(root.children@, offsets, None, 0, 0);
            forall|k: int| 0 <= k < cs.len() ==> python_visibility_rule(#[trigger] cs[k])
        }),
{
    lemma_block_visibility(root.children@, offsets, None, 0, 0);
}

/// `decorator_text` of a decorator's source text.
pub fn decorator_name(text: &str) -> (r: String)
    ensures
        r@ == decorator_text(text@),
{
    let a = trim_start_char(text, '@');
    let b = trim_str(a.as_str());
    let c = before_either(b.as_str(), '(', '(');
    assert(is_either('(', '(') == is_char('('));
    trim_str(c.as_str())
}

/// `modifier_word` of a decorator's source text.
pub fn decorator_base_word(text: &str) -> (r: String)
    ensures
        r@ == modifier_word(text@),
{
    let a = trim_start_char(text, '@');
    let b = trim_str(a.as_str());
    let c = before_either(b.as_str(), '(', '.');
    trim_str(c.as_str())
}

/// Every decorator of a `decorated_definition`, in source order.
pub fn extract_decorators(node: &SyntaxNode) -> (out: Vec<String>)
    ensures
        string_views(out@) == decorators_of(*node),
{
    let mut out: Vec<String> = Vec::new();
    if !kind_is(node, "decorated_definition") {
        assert(string_views(out@) =~= seq![]);
        return out;
    }
    let mut i: usize = 0;
    while i < node.children.len()
        invariant
            i <= node.children@.len(),
            string_views(out@) == decorator_list(node.children@.take(i as int)),
        decreases node.children@.len() - i,
    {
        let c = &node.children[i];
        assert(node.children@.take(i + 1).drop_last() =~= node.children@.take(i as int));
        if kind_is(c, "decorator") && c.text_ok {
            let name = decorator_name(c.text.as_str());
            if name.unicode_len() > 0 {
                out.push(name);
            }
        }
        assert(string_views(out@) =~= decorator_list(node.children@.take(i + 1)));
        i = i + 1;
    }
    assert(node.children@.take(node.children@.len() as int) =~= node.children@);
    out
}

/// The first classmethod / staticmethod / property decorator of a
/// `decorated_definition`.
pub fn detect_method_modifier(node: &SyntaxNode) -> (m: MethodModifier)
    ensures
        m == modifier_of(*node),
{
    if !kind_is(node, "decorated_definition") {
        return MethodModifier::Plain;
    }
    let mut i: usize = 0;
    assert(node.children@.skip(0) =~= node.children@);
    while i < node.children.len()
        invariant
            i <= node.children@.len(),
            node.is_kind("decorated_definition"@),
            modifier_in(node.children@) == modifier_in(node.children@.skip(i as int)),
        decreases node.children@.len() - i,
    {
        let c = &node.children[i];
        assert(node.children@.skip(i as int)[0] == node.children@[i as int]);
        assert(node.children@.skip(i as int).drop_first() =~= node.children@.skip(i + 1));
        if kind_is(c, "decorator") && c.text_ok {
            let w = decorator_base_word(c.text.as_str());
            if str_eq(w.as_str(), "classmethod") {
                assert(modifier_in(node.children@.skip(i as int)) == MethodModifier::Classmethod);
                return MethodModifier::Classmethod;
            } else if str_eq(w.as_str(), "staticmethod") {
                assert(modifier_in(node.children@.skip(i as int)) == MethodModifier::Staticmethod);
                return MethodModifier::Staticmethod;
            } else if str_eq(w.as_str(), "property") {
                assert(modifier_in(node.children@.skip(i as int)) == MethodModifier::Property);
                return MethodModifier::Property;
            }
        }
        i = i + 1;
    }
    MethodModifier::Plain
}

/// Byte range of the leading docstring of `body`, and its lines.
pub fn detect_docstring(body: &SyntaxNode, line_offsets: &[usize]) -> (r: (
    Option<Range<usize>>,
    Option<Range<usize>>,
))
    requires
        sorted(line_offsets@),
    ensures
        r.0 == docstring_of(*body),
        r.1 == opt_line_range(docstring_of(*body), line_offsets@),
{
    let ghost p = not_comment();
    let mut i: usize = 0;
    while i < body.children.len()
        invariant
            p == not_comment(),
            sorted(line_offsets@),
            i <= body.children@.len(),
            forall|j: int| 0 <= j < i ==> !p(#[trigger] body.children@[j]),
        decreases body.children@.len() - i,
    {
        let c = &body.children[i];
        if !kind_is(c, "comment") {
            proof {
                lemma_find_first_is(body.children@, p, i as int);
            }
            if kind_is(c, "expression_statement") {
                match kind_child_index(c, "string") {
                    Some(_) => {
                        let range = c.start..c.end;
                        let lines = byte_range_to_line_range(&range, line_offsets);
                        return (Some(range), Some(lines));
                    },
                    None => {
                        return (None, None);
                    },
                }
            }
            return (None, None);
        }
        i = i + 1;
    }
    proof {
        lemma_find_first_none(body.children@, p);
    }
    (None, None)
}

/// Python visibility of a definition name.
pub fn name_visibility(name: &str) -> (v: Visibility)
    ensures
        v == py_visibility(name@),
{
    let cs = crate::text::chars_of(name);
    let n = cs.len();
    if n >= 2 && cs[0] == '_' && cs[1] == '_' && cs[n - 2] == '_' && cs[n - 1] == '_' {
        Visibility::Public
    } else if n >= 1 && cs[0] == '_' {
        Visibility::Private
    } else {
        Visibility::Public
    }
}

/// Build a card from its parts; the line bookkeeping is derived from the
/// byte ranges and the offsets table.
pub open spec fn card_from_parts(
    id: CardId,
    kind: CardKind,
    parent: Option<CardId>,
    depth: usize,
    name: Seq<char>,
    visibility: Visibility,
    header_range: Range<usize>,
    body_range: Option<Range<usize>>,
    full_range: Range<usize>,
    offsets: Seq<usize>,
) -> CardView {
    CardView {
        id,
        kind,
        parent,
        depth,
        name,
        visibility,
        modifier: MethodModifier::Plain,
        decorators: seq![],
        header_range,
        body_range,
        full_range,
        header_lines: line_range(header_range, offsets),
        body_lines: opt_line_range(body_range, offsets),
        full_lines: line_range(full_range, offsets),
        docstring_range: None,
        docstring_lines: None,
        lines: logical_lines(full_range, line_range(full_range, offsets), offsets),
    }
}

/// Build a card with no decorators, modifier or docstring.
pub fn build_card(
    id: CardId,
    kind: CardKind,
    parent: Option<CardId>,
    depth: usize,
    name: String,
    visibility: Visibility,
    header_range: Range<usize>,
    body_range: Option<Range<usize>>,
    full_range: Range<usize>,
    line_offsets: &[usize],
) -> (c: Card)
    requires
        sorted(line_offsets@),
    ensures
        c@ == card_from_parts(
            id,
            kind,
            parent,
            depth,
            name@,
            visibility,
            header_range,
            body_range,
            full_range,
            line_offsets@,
        ),
{
    let header_lines = byte_range_to_line_range(&header_range, line_offsets);
    let body_lines = match &body_range {
        Some(br) => Some(byte_range_to_line_range(br, line_offsets)),
        None => None,
    };
    let full_lines = byte_range_to_line_range(&full_range, line_offsets);
    let lines = build_logical_lines(&full_range, &full_lines, line_offsets);
    let c = Card {
        id,
        kind,
        parent,
        depth,
        name,
        visibility,
        modifier: MethodModifier::Plain,
        decorators: Vec::new(),
        header_range,
        body_range,
        full_range,
        header_lines,
        body_lines,
        full_lines,
        docstring_range: None,
        docstring_lines: None,
        lines,
    };
    assert(string_views(c.decorators@) =~= seq![]);
    c
}

/// The snippet card of a top-level statement.
fn emit_snippet(node: &SyntaxNode, line_offsets: &[usize], out: &mut Vec<Card>, next_id: &mut u32)
    requires
        sorted(line_offsets@),
        *old(next_id) < u32::MAX,
    ensures
        card_views(final(out)@) == card_views(old(out)@).push(
            snippet_card(*node, line_offsets@, *old(next_id) as int),
        ),
        *final(next_id) == *old(next_id) + 1,
{
    let full_range = node.start..node.end;
    let full_lines = byte_range_to_line_range(&full_range, line_offsets);
    let lines = build_logical_lines(&full_range, &full_lines, line_offsets);
    let id = CardId(*next_id);
    *next_id = *next_id + 1;
    let c = Card {
        id,
        kind: CardKind::Snippet,
        parent: None,
        depth: 0,
        name: String::from_str(node.kind.as_str()),
        visibility: Visibility::Public,
        modifier: MethodModifier::Plain,
        decorators: Vec::new(),
        header_range: node.start..node.end,
        body_range: None,
        full_range,
        header_lines: full_lines.start..full_lines.end,
        body_lines: None,
        full_lines,
        docstring_range: None,
        docstring_lines: None,
        lines,
    };
    assert(string_views(c.decorators@) =~= seq![]);
    let ghost before = out@;
    out.push(c);
    assert(card_views(out@) =~= card_views(before).push(c@));
}

/// Process one top-level or class-body statement, appending its cards.
fn process_statement(
    node: &SyntaxNode,
    line_offsets: &[usize],
    parent: Option<CardId>,
    depth: usize,
    out: &mut Vec<Card>,
    next_id: &mut u32,
) -> (ok: bool)
    requires
        sorted(line_offsets@),
        depth <= *old(next_id),
    ensures
        ok == (*old(next_id) + stmt_cards(
            *node,
            line_offsets@,
            parent,
            depth,
            *old(next_id) as int,
        ).len() <= u32::MAX),
        ok ==> card_views(final(out)@) == card_views(old(out)@) + stmt_cards(
            *node,
            line_offsets@,
            parent,
            depth,
            *old(next_id) as int,
        ),
        ok ==> *final(next_id) == *old(next_id) + stmt_cards(
            *node,
            line_offsets@,
            parent,
            depth,
            *old(next_id) as int,
        ).len(),
    decreases size(*node), 0nat,
{
    let ghost out0 = out@;
    let ghost n0 = *next_id as int;
    let ghost spec_cards = stmt_cards(*node, line_offsets@, parent, depth, n0);
    let is_fn = kind_is(node, "function_definition");
    let is_class = kind_is(node, "class_definition");
    let is_decorated = kind_is(node, "decorated_definition");
    if !(is_fn || is_class || is_decorated) {
        if kind_is(node, "comment") {
            assert(card_views(out@) =~= card_views(out0) + spec_cards);
            return true;
        }
        if parent.is_none() {
            if *next_id == u32::MAX {
                return false;
            }
            emit_snippet(node, line_offsets, out, next_id);
            assert(card_views(out@) =~= card_views(out0) + spec_cards);
        } else {
            assert(card_views(out@) =~= card_views(out0) + spec_cards);
        }
        return true;
    }
    // The definition node: the statement itself, or the first definition
    // wrapped by a decorated definition.
    let def_idx: Option<usize> = if is_decorated {
        let ghost p = is_py_def();
        let mut i: usize = 0;
        while i < node.children.len() && !(kind_is(&node.children[i], "function_definition")
            || kind_is(&node.children[i], "class_definition"))
            invariant
                p == is_py_def(),
                i <= node.children@.len(),
                forall|j: int| 0 <= j < i ==> !p(#[trigger] node.children@[j]),
            decreases node.children@.len() - i,
        {
            i = i + 1;
        }
        if i == node.children.len() {
            proof {
                lemma_find_first_none(node.children@, p);
            }
            assert(card_views(out@) =~= card_views(out0) + spec_cards);
            return true;
        }
        proof {
            lemma_find_first_is(node.children@, p, i as int);
        }
        let found: Option<usize> = Some(i);
        found
    } else {
        None
    };
    let d: &SyntaxNode = match def_idx {
        Some(i) => {
            proof {
                lemma_child_smaller(*node, i as int);
            }
            &node.children[i]
        },
        None => node,
    };
    assert(py_def_of(*node) == Some(*d));
    let d_is_fn = kind_is(d, "function_definition");
    let d_is_class = kind_is(d, "class_definition");
    if !(d_is_fn || d_is_class) {
        assert(card_views(out@) =~= card_views(out0) + spec_cards);
        return true;
    }
    let kind = if d_is_fn {
        if parent.is_some() {
            CardKind::Method
        } else {
            CardKind::Function
        }
    } else {
        CardKind::Class
    };
    let name_idx = field_child_index(d, "name");
    let name_node: &SyntaxNode = match name_idx {
        Some(k) => &d.children[k],
        None => {
            assert(card_views(out@) =~= card_views(out0) + spec_cards);
            return true;
        },
    };
    if !name_node.text_ok {
        assert(card_views(out@) =~= card_views(out0) + spec_cards);
        return true;
    }
    let name = String::from_str(name_node.text.as_str());
    let visibility = name_visibility(name.as_str());
    let body_idx = field_child_index(d, "body");
    let body_range: Option<Range<usize>> = match body_idx {
        Some(k) => Some(d.children[k].start..d.children[k].end),
        None => None,
    };
    let body_lines = match &body_range {
        Some(br) => Some(byte_range_to_line_range(br, line_offsets)),
        None => None,
    };
    let header_end = match body_idx {
        Some(k) => d.children[k].start,
        None => d.end,
    };
    let header_range = d.start..header_end;
    let header_lines = byte_range_to_line_range(&header_range, line_offsets);
    let full_range = node.start..d.end;
    let full_lines = byte_range_to_line_range(&full_range, line_offsets);
    let modifier = if kind == CardKind::Method {
        detect_method_modifier(node)
    } else {
        MethodModifier::Plain
    };
    let decorators = extract_decorators(node);
    let (docstring_range, docstring_lines) = match body_idx {
        Some(k) => detect_docstring(&d.children[k], line_offsets),
        None => (None, None),
    };
    let lines = build_logical_lines(&full_range, &full_lines, line_offsets);
    let ghost card_spec = py_card(
        *node,
        *d,
        name_node.text@,
        kind,
        line_offsets@,
        parent,
        depth,
        n0,
    );
    assert(spec_cards.len() >= 1 && spec_cards[0] == card_spec);
    if *next_id == u32::MAX {
        return false;
    }
    let id = CardId(*next_id);
    *next_id = *next_id + 1;
    let c = Card {
        id,
        kind,
        parent,
        depth,
        name,
        visibility,
        modifier,
        decorators,
        header_range,
        body_range,
        full_range,
        header_lines,
        body_lines,
        full_lines,
        docstring_range,
        docstring_lines,
        lines,
    };
    assert(c@ == card_spec);
    let ghost before = out@;
    out.push(c);
    assert(card_views(out@) =~= card_views(before).push(c@));
    if kind == CardKind::Class {
        match body_idx {
            Some(k) => {
                proof {
                    lemma_body_smaller(*node, *d, k as int);
                }
                let ghost inner = block_cards(
                    d.children@[k as int].children@,
                    line_offsets@,
                    Some(id),
                    (depth + 1) as usize,
                    n0 + 1,
                );
                assert(spec_cards == seq![card_spec] + inner);
                if !process_block(&d.children[k].children, line_offsets, Some(id), depth + 1, out, next_id) {
                    return false;
                }
                assert(card_views(out@) =~= card_views(out0) + spec_cards);
            },
            None => {
                assert(card_views(out@) =~= card_views(out0) + spec_cards);
            },
        }
    } else {
        assert(card_views(out@) =~= card_views(out0) + spec_cards);
    }
    true
}

/// Process a run of sibling statements in order.
fn process_block(
    cs: &Vec<SyntaxNode>,
    line_offsets: &[usize],
    parent: Option<CardId>,
    depth: usize,
    out: &mut Vec<Card>,
    next_id: &mut u32,
) -> (ok: bool)
    requires
        sorted(line_offsets@),
        depth <= *old(next_id),
    ensures
        ok == (*old(next_id) + block_cards(
            cs@,
            line_offsets@,
            parent,
            depth,
            *old(next_id) as int,
        ).len() <= u32::MAX),
        ok ==> card_views(final(out)@) == card_views(old(out)@) + block_cards(
            cs@,
            line_offsets@,
            parent,
            depth,
            *old(next_id) as int,
        ),
        ok ==> *final(next_id) == *old(next_id) + block_cards(
            cs@,
            line_offsets@,
            parent,
            depth,
            *old(next_id) as int,
        ).len(),
    decreases sizes(cs@), 1nat,
{
    let ghost out0 = out@;
    let ghost n0 = *next_id as int;
    let ghost total = block_cards(cs@, line_offsets@, parent, depth, n0);
    let mut i: usize = 0;
    assert(cs@.skip(0) =~= cs@);
    while i < cs.len()
        invariant
            sorted(line_offsets@),
            i <= cs@.len(),
            depth <= n0 <= *next_id,
            n0 == *old(next_id),
            card_views(out0) + total == card_views(out@) + block_cards(
                cs@.skip(i as int),
                line_offsets@,
                parent,
                depth,
                *next_id as int,
            ),
            *next_id as int + block_cards(
                cs@.skip(i as int),
                line_offsets@,
                parent,
                depth,
                *next_id as int,
            ).len() == n0 + total.len(),
            total == block_cards(cs@, line_offsets@, parent, depth, n0),
        decreases cs@.len() - i,
    {
        proof {
            lemma_sizes_skip(cs@, i as int);
            lemma_sizes_elem(cs@, i as int);
            assert(cs@.skip(i as int)[0] == cs@[i as int]);
            assert(cs@.skip(i as int).drop_first() =~= cs@.skip(i + 1));
        }
        let ghost nid = *next_id as int;
        let ghost before = out@;
        let ghost h = stmt_cards(cs@[i as int], line_offsets@, parent, depth, nid);
        assert(block_cards(cs@.skip(i as int), line_offsets@, parent, depth, nid) == h + block_cards(
            cs@.skip(i + 1),
            line_offsets@,
            parent,
            depth,
            nid + h.len(),
        ));
        if !process_statement(&cs[i], line_offsets, parent, depth, out, next_id) {
            return false;
        }
        proof {
            assert(card_views(before) + block_cards(
                cs@.skip(i as int),
                line_offsets@,
                parent,
                depth,
                nid,
            ) =~= card_views(out@) + block_cards(
                cs@.skip(i + 1),
                line_offsets@,
                parent,
                depth,
                *next_id as int,
            ));
        }
        i = i + 1;
    }
    assert(cs@.skip(i as int) =~= Seq::<SyntaxNode>::empty());
    assert(card_views(out@) =~= card_views(out0) + total);
    true
}

/// Walk a Python syntax tree and extract its cards in source order;
/// `None` when there are more cards than card ids.
pub fn try_extract_cards(root: &SyntaxNode, source: &str, line_offsets: &[usize]) -> (r: Option<Vec<Card>>)
    requires
        sorted(line_offsets@),
    ensures
        match r {
            Some(out) => card_views(out@) == block_cards(root.children@, line_offsets@, None, 0, 0)
                && block_cards(root.children@, line_offsets@, None, 0, 0).len() <= u32::MAX,
            None => block_cards(root.children@, line_offsets@, None, 0, 0).len() > u32::MAX,
        },
{
    let mut out: Vec<Card> = Vec::new();
    let mut next_id: u32 = 0;
    if !process_block(&root.children, line_offsets, None, 0, &mut out, &mut next_id) {
        return None;
    }
    assert(card_views(Seq::<Card>::empty()) =~= Seq::<CardView>::empty());
    assert(card_views(out@) =~= block_cards(root.children@, line_offsets@, None, 0, 0));
    Some(out)
}

/// Walk a Python syntax tree and extract its cards in source order.
pub fn extract_cards(root: &SyntaxNode, source: &str, line_offsets: &[usize]) -> (out: Vec<Card>)
    requires
        sorted(line_offsets@),
        block_cards(root.children@, line_offsets@, None, 0, 0).len() <= u32::MAX,
    ensures
        card_views(out@) == block_cards(root.children@, line_offsets@, None, 0, 0),
{
    match try_extract_cards(root, source, line_offsets) {
        Some(out) => out,
        None => Vec::new(),
    }
}


// ---------------------------------------------------------------------------
// Semantic accessors
// ---------------------------------------------------------------------------

/// Predicate: not a dot.
pub open spec fn not_dot() -> spec_fn(char) -> bool {
    |c: char| c != '.'
}

/// The last dotted component of a decorator name (`abc.abstractmethod` →
/// `abstractmethod`).
pub open spec fn last_component(d: Seq<char>) -> Seq<char> {
    d.skip(d.len() - crate::text::trail_len(d, not_dot()))
}

pub open spec fn is_abstract_name(w: Seq<char>) -> bool {
    w == "abstractmethod"@ || w == "abstractstaticmethod"@ || w == "abstractclassmethod"@ || w
        == "abstractproperty"@
}

/// The last dotted component of `d`.
fn last_dotted_component(d: &str) -> (r: String)
    ensures
        r@ == last_component(d@),
{
    let v = crate::text::chars_of(d);
    let n = v.len();
    let mut b = n;
    while b > 0 && v[b - 1] != '.'
        invariant
            b <= n,
            n == v@.len(),
            v@ == d@,
            forall|j: int| b <= j < n ==> not_dot()(#[trigger] v@[j]),
        decreases b,
    {
        b = b - 1;
    }
    proof {
        crate::text::lemma_trail_len_unique(d@, not_dot(), (n - b) as int);
    }
    String::from_str(d.substring_char(b, n))
}

impl Card {
    /// True if any decorator names one of Python's abstract decorators as its
    /// final dotted component.
    pub fn is_abstract(&self) -> (b: bool)
        ensures
            b == exists|i: int|
                0 <= i < self.decorators@.len() && is_abstract_name(
                    last_component(#[trigger] self.decorators@[i]@),
                ),
    {
        let mut i: usize = 0;
        while i < self.decorators.len()
            invariant
                i <= self.decorators@.len(),
                forall|j: int|
                    0 <= j < i ==> !is_abstract_name(last_component(#[trigger] self.decorators@[j]@)),
            decreases self.decorators@.len() - i,
        {
            let w = last_dotted_component(self.decorators[i].as_str());
            if str_eq(w.as_str(), "abstractmethod") || str_eq(w.as_str(), "abstractstaticmethod")
                || str_eq(w.as_str(), "abstractclassmethod") || str_eq(w.as_str(), "abstractproperty") {
                return true;
            }
            i = i + 1;
        }
        false
    }

    /// True if this is a class card decorated with `@dataclass` (bare or
    /// dotted).
    pub fn is_dataclass(&self) -> (b: bool)
        ensures
            b == (self.kind == CardKind::Class && exists|i: int|
                0 <= i < self.decorators@.len() && last_component(#[trigger] self.decorators@[i]@)
                    == "dataclass"@),
    {
        if self.kind != CardKind::Class {
            return false;
        }
        let mut i: usize = 0;
        while i < self.decorators.len()
            invariant
                self.kind == CardKind::Class,
                i <= self.decorators@.len(),
                forall|j: int|
                    0 <= j < i ==> last_component(#[trigger] self.decorators@[j]@) != "dataclass"@,
            decreases self.decorators@.len() - i,
        {
            let w = last_dotted_component(self.decorators[i].as_str());
            if str_eq(w.as_str(), "dataclass") {
                return true;
            }
            i = i + 1;
        }
        false
    }
}

/// The single snippet card covering a whole non-empty file.
pub open spec fn whole_file_card(len: usize, offsets: Seq<usize>) -> CardView {
    let full = mk_range(0, len as int);
    let full_lines = line_range(full, offsets);
    CardView {
        id: CardId(0),
        kind: CardKind::Snippet,
        parent: None,
        depth: 0,
        name: seq![],
        visibility: Visibility::Public,
        modifier: MethodModifier::Plain,
        decorators: seq![],
        header_range: full,
        body_range: None,
        full_range: full,
        header_lines: full_lines,
        body_lines: None,
        full_lines,
        docstring_range: None,
        docstring_lines: None,
        lines: logical_lines(full, full_lines, offsets),
    }
}

/// One snippet card covering the entire file (none for an empty file).
pub fn whole_file_snippet(source: &str, line_offsets: &[usize]) -> (out: Vec<Card>)
    requires
        sorted(line_offsets@),
    ensures
        source@.len() == 0 ==> out@.len() == 0,
        source@.len() > 0 ==> card_views(out@) == seq![
            whole_file_card(source.spec_bytes().len() as usize, line_offsets@),
        ],
{
    let mut out: Vec<Card> = Vec::new();
    if source.is_empty() {
        return out;
    }
    let len = source.len();
    let full_range = 0..len;
    let full_lines = byte_range_to_line_range(&full_range, line_offsets);
    let lines = build_logical_lines(&full_range, &full_lines, line_offsets);
    let c = Card {
        id: CardId(0),
        kind: CardKind::Snippet,
        parent: None,
        depth: 0,
        name: String::new(),
        visibility: Visibility::Public,
        modifier: MethodModifier::Plain,
        decorators: Vec::new(),
        header_range: 0..len,
        body_range: None,
        full_range,
        header_lines: full_lines.start..full_lines.end,
        body_lines: None,
        full_lines,
        docstring_range: None,
        docstring_lines: None,
        lines,
    };
    assert(string_views(c.decorators@) =~= seq![]);
    out.push(c);
    assert(card_views(out@) =~= seq![c@]);
    out
}

} // verus!
