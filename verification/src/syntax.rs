//! Syntax highlighting: tree-sitter highlight captures flattened into one
//! token kind per source byte, plus the luminous-void palette.
//!
//! Captures overlap (an outer `function_definition` around an inner
//! `identifier`), so they are applied widest first; narrower ones
//! overwrite, leaving the most specific kind on each byte.

use vstd::prelude::*;
use vstd::string::*;
use tree_sitter::StreamingIterator;
use crate::text::{before_first, is_char, str_eq};
use crate::tree::{parse_tree, Grammar};

verus! {

#[derive(Clone, Copy, Debug, PartialEq, Eq, Hash, Structural)]
pub enum TokenKind {
    Default,
    Keyword,
    String,
    EscapeInString,
    Comment,
    Number,
    Operator,
    Function,
    FunctionBuiltin,
    Class,
    Constant,
    ConstantBuiltin,
    Type,
    Property,
    Punctuation,
}

/// Token kind of a highlight capture name: a few dotted names are mapped
/// whole, the rest by their first dotted component; unknown names give
/// `Default` ("no override").
pub open spec fn kind_of_capture(name: Seq<char>) -> TokenKind {
    let base = before_first(name, is_char('.'));
    if name == "function.builtin"@ {
        TokenKind::FunctionBuiltin
    } else if name == "function.method"@ {
        TokenKind::Function
    } else if name == "constant.builtin"@ {
        TokenKind::ConstantBuiltin
    } else if name == "punctuation.special"@ {
        TokenKind::Punctuation
    } else if base == "keyword"@ {
        TokenKind::Keyword
    } else if base == "string"@ {
        TokenKind::String
    } else if base == "escape"@ {
        TokenKind::EscapeInString
    } else if base == "comment"@ {
        TokenKind::Comment
    } else if base == "number"@ {
        TokenKind::Number
    } else if base == "operator"@ {
        TokenKind::Operator
    } else if base == "function"@ {
        TokenKind::Function
    } else if base == "constructor"@ {
        TokenKind::Class
    } else if base == "constant"@ {
        TokenKind::Constant
    } else if base == "type"@ {
        TokenKind::Type
    } else if base == "property"@ {
        TokenKind::Property
    } else if base == "punctuation"@ {
        TokenKind::Punctuation
    } else {
        TokenKind::Default
    }
}

proof fn lemma_capture_base(b: Seq<char>, rest: Seq<char>)
    requires
        forall|j: int| 0 <= j < b.len() ==> b[j] != '.',
        rest.len() == 0 || rest[0] == '.',
    ensures
        before_first(b + rest, is_char('.')) == b,
{
    let s = b + rest;
    assert forall|j: int| 0 <= j < b.len() implies !is_char('.')(#[trigger] s[j]) by {
        assert(s[j] == b[j]);
    }
    if rest.len() > 0 {
        assert(s[b.len() as int] == rest[0]);
    }
    crate::text::lemma_before_first_at(s, is_char('.'), b.len() as int);
    assert(s.take(b.len() as int) =~= b);
}

/// A capture name is read by its first dotted component: each styled
/// component gives its kind for the bare name and every dotted
/// refinement of it (`function.builtin` and `constant.builtin` being the
/// refinements with kinds of their own), and an unstyled component such
/// as `variable` gives `Default`.
pub proof fn law_capture_kinds(rest: Seq<char>)
    requires
        rest.len() == 0 || rest[0] == '.',
    ensures
        kind_of_capture("keyword"@ + rest) == TokenKind::Keyword,
        kind_of_capture("string"@ + rest) == TokenKind::String,
        kind_of_capture("escape"@ + rest) == TokenKind::EscapeInString,
        kind_of_capture("comment"@ + rest) == TokenKind::Comment,
        kind_of_capture("number"@ + rest) == TokenKind::Number,
        kind_of_capture("operator"@ + rest) == TokenKind::Operator,
        rest != ".builtin"@ ==> kind_of_capture("function"@ + rest) == TokenKind::Function,
        kind_of_capture("constructor"@ + rest) == TokenKind::Class,
        rest != ".builtin"@ ==> kind_of_capture("constant"@ + rest) == TokenKind::Constant,
        kind_of_capture("type"@ + rest) == TokenKind::Type,
        kind_of_capture("property"@ + rest) == TokenKind::Property,
        kind_of_capture("punctuation"@ + rest) == TokenKind::Punctuation,
        kind_of_capture("function.builtin"@) == TokenKind::FunctionBuiltin,
        kind_of_capture("constant.builtin"@) == TokenKind::ConstantBuiltin,
        kind_of_capture("variable"@ + rest) == TokenKind::Default,
{
    reveal_strlit("keyword");
    reveal_strlit("string");
    reveal_strlit("escape");
    reveal_strlit("comment");
    reveal_strlit("number");
    reveal_strlit("operator");
    reveal_strlit("function");
    reveal_strlit("constructor");
    reveal_strlit("constant");
    reveal_strlit("type");
    reveal_strlit("property");
    reveal_strlit("punctuation");
    reveal_strlit("variable");
    reveal_strlit("function.builtin");
    reveal_strlit("function.method");
    reveal_strlit("constant.builtin");
    reveal_strlit("punctuation.special");
    reveal_strlit(".builtin");
    lemma_capture_base("keyword"@, rest);
    lemma_capture_base("string"@, rest);
    lemma_capture_base("escape"@, rest);
    lemma_capture_base("comment"@, rest);
    lemma_capture_base("number"@, rest);
    lemma_capture_base("operator"@, rest);
    lemma_capture_base("function"@, rest);
    lemma_capture_base("constructor"@, rest);
    lemma_capture_base("constant"@, rest);
    lemma_capture_base("type"@, rest);
    lemma_capture_base("property"@, rest);
    lemma_capture_base("punctuation"@, rest);
    lemma_capture_base("variable"@, rest);
    lemma_capture_base("function"@, ".builtin"@);
    lemma_capture_base("constant"@, ".builtin"@);
    assert("function"@ + ".builtin"@ =~= "function.builtin"@);
    assert("constant"@ + ".builtin"@ =~= "constant.builtin"@);
    if rest != ".builtin"@ {
        assert("function"@ + rest != "function.builtin"@) by {
            if "function"@ + rest == "function.builtin"@ {
                assert(("function"@ + rest).skip(8) =~= rest);
                assert("function.builtin"@.skip(8) =~= ".builtin"@);
            }
        }
        assert("constant"@ + rest != "constant.builtin"@) by {
            if "constant"@ + rest == "constant.builtin"@ {
                assert(("constant"@ + rest).skip(8) =~= rest);
                assert("constant.builtin"@.skip(8) =~= ".builtin"@);
            }
        }
    }
    // The other names differ from the four dotted names at their first
    // characters.
    assert(("keyword"@ + rest)[0] == 'k');
    assert(("string"@ + rest)[0] == 's');
    assert(("escape"@ + rest)[0] == 'e');
    assert(("comment"@ + rest)[0] == 'c' && ("comment"@ + rest)[1] == 'o' && ("comment"@ + rest)[2] == 'm');
    assert(("number"@ + rest)[0] == 'n');
    assert(("operator"@ + rest)[0] == 'o');
    assert(("constructor"@ + rest)[0] == 'c' && ("constructor"@ + rest)[3] == 's' && ("constructor"@ + rest)[4] == 't');
    assert(("type"@ + rest)[0] == 't');
    assert(("property"@ + rest)[0] == 'p' && ("property"@ + rest)[1] == 'r');
    assert(("variable"@ + rest)[0] == 'v');
    assert(("punctuation"@ + rest)[0] == 'p' && ("punctuation"@ + rest)[1] == 'u');
    assert(("function"@ + rest)[0] == 'f');
    assert(("constant"@ + rest)[0] == 'c' && ("constant"@ + rest)[3] == 's' && ("constant"@ + rest)[4] == 't');
}

/// The palette: sRGB color of each token kind.
pub open spec fn kind_color(k: TokenKind) -> (u8, u8, u8) {
    match k {
        TokenKind::Default => (220, 222, 230),
        TokenKind::Keyword => (116, 199, 236),
        TokenKind::String => (230, 190, 110),
        TokenKind::EscapeInString => (255, 220, 150),
        TokenKind::Comment => (100, 115, 140),
        TokenKind::Number => (158, 226, 176),
        TokenKind::Operator => (160, 180, 200),
        TokenKind::Function => (210, 180, 255),
        TokenKind::FunctionBuiltin => (180, 200, 255),
        TokenKind::Class => (255, 200, 170),
        TokenKind::Constant => (255, 180, 120),
        TokenKind::ConstantBuiltin => (200, 160, 220),
        TokenKind::Type => (140, 220, 220),
        TokenKind::Property => (210, 210, 240),
        TokenKind::Punctuation => (170, 170, 185),
    }
}

impl TokenKind {
    /// Map a highlight capture name (`keyword`, `function.builtin`, ...) to
    /// a token kind.
    pub fn from_capture_name(name: &str) -> (k: TokenKind)
        ensures
            k == kind_of_capture(name@),
    {
        if str_eq(name, "function.builtin") {
            return TokenKind::FunctionBuiltin;
        }
        if str_eq(name, "function.method") {
            return TokenKind::Function;
        }
        if str_eq(name, "constant.builtin") {
            return TokenKind::ConstantBuiltin;
        }
        if str_eq(name, "punctuation.special") {
            return TokenKind::Punctuation;
        }
        let base = crate::text::before_either(name, '.', '.');
        assert(crate::text::is_either('.', '.') == is_char('.'));
        let b = base.as_str();
        if str_eq(b, "keyword") {
            TokenKind::Keyword
        } else if str_eq(b, "string") {
            TokenKind::String
        } else if str_eq(b, "escape") {
            TokenKind::EscapeInString
        } else if str_eq(b, "comment") {
            TokenKind::Comment
        } else if str_eq(b, "number") {
            TokenKind::Number
        } else if str_eq(b, "operator") {
            TokenKind::Operator
        } else if str_eq(b, "function") {
            TokenKind::Function
        } else if str_eq(b, "constructor") {
            TokenKind::Class
        } else if str_eq(b, "constant") {
            TokenKind::Constant
        } else if str_eq(b, "type") {
            TokenKind::Type
        } else if str_eq(b, "property") {
            TokenKind::Property
        } else if str_eq(b, "punctuation") {
            TokenKind::Punctuation
        } else {
            TokenKind::Default
        }
    }

    /// sRGB color for this token kind.
    pub fn color(self) -> (c: (u8, u8, u8))
        ensures
            c == kind_color(self),
    {
        match self {
            TokenKind::Default => (220, 222, 230),
            TokenKind::Keyword => (116, 199, 236),
            TokenKind::String => (230, 190, 110),
            TokenKind::EscapeInString => (255, 220, 150),
            TokenKind::Comment => (100, 115, 140),
            TokenKind::Number => (158, 226, 176),
            TokenKind::Operator => (160, 180, 200),
            TokenKind::Function => (210, 180, 255),
            TokenKind::FunctionBuiltin => (180, 200, 255),
            TokenKind::Class => (255, 200, 170),
            TokenKind::Constant => (255, 180, 120),
            TokenKind::ConstantBuiltin => (200, 160, 220),
            TokenKind::Type => (140, 220, 220),
            TokenKind::Property => (210, 210, 240),
            TokenKind::Punctuation => (170, 170, 185),
        }
    }
}

pub open spec fn width(s: (usize, usize, TokenKind)) -> int {
    s.1 - s.0
}

/// `k` is where span `x` goes among `s`: before the first span narrower
/// than it (so equal widths keep their order).
pub open spec fn is_span_pos(s: Seq<(usize, usize, TokenKind)>, x: (usize, usize, TokenKind), k: int) -> bool {
    &&& 0 <= k <= s.len()
    &&& forall|j: int| 0 <= j < k ==> !(width(#[trigger] s[j]) < width(x))
    &&& (k == s.len() || width(s[k]) < width(x))
}

pub open spec fn span_pos(s: Seq<(usize, usize, TokenKind)>, x: (usize, usize, TokenKind)) -> int {
    choose|k: int| is_span_pos(s, x, k)
}

/// Stable sort of spans, widest first.
pub open spec fn widest_first(s: Seq<(usize, usize, TokenKind)>) -> Seq<(usize, usize, TokenKind)>
    decreases s.len(),
{
    if s.len() == 0 {
        seq![]
    } else {
        let r = widest_first(s.drop_last());
        let k = span_pos(r, s.last());
        r.take(k).push(s.last()) + r.skip(k)
    }
}

/// Kinds after painting `spans` in order over `len` default bytes: each
/// span overwrites the bytes it covers.
pub open spec fn paint(len: nat, spans: Seq<(usize, usize, TokenKind)>) -> Seq<TokenKind>
    decreases spans.len(),
{
    if spans.len() == 0 {
        Seq::new(len, |i: int| TokenKind::Default)
    } else {
        let p = paint(len, spans.drop_last());
        let sp = spans.last();
        Seq::new(len, |i: int| if sp.0 <= i < sp.1 { sp.2 } else { p[i] })
    }
}

/// The span a capture contributes: non-empty, inside the source, with a
/// capture index the query names and a kind other than `Default`.
pub open spec fn capture_span(cap: (usize, usize, u32), kinds: Seq<TokenKind>, len: nat) -> Option<
    (usize, usize, TokenKind),
> {
    if cap.0 < cap.1 && cap.1 <= len && (cap.2 as int) < kinds.len() && kinds[cap.2 as int]
        != TokenKind::Default {
        Some((cap.0, cap.1, kinds[cap.2 as int]))
    } else {
        None
    }
}

/// The spans of a capture list, in capture order.
pub open spec fn capture_spans(caps: Seq<(usize, usize, u32)>, kinds: Seq<TokenKind>, len: nat) -> Seq<
    (usize, usize, TokenKind),
>
    decreases caps.len(),
{
    if caps.len() == 0 {
        seq![]
    } else {
        let rest = capture_spans(caps.drop_last(), kinds, len);
        match capture_span(caps.last(), kinds, len) {
            Some(s) => rest.push(s),
            None => rest,
        }
    }
}

/// One token kind per byte: the captures, widest first, painted over
/// `Default`.
pub open spec fn highlighted(caps: Seq<(usize, usize, u32)>, kinds: Seq<TokenKind>, len: nat) -> Seq<
    TokenKind,
> {
    paint(len, widest_first(capture_spans(caps, kinds, len)))
}

/// Sort spans widest first, keeping the order of equal widths.
fn sort_widest_first(spans: Vec<(usize, usize, TokenKind)>) -> (out: Vec<(usize, usize, TokenKind)>)
    requires
        forall|j: int| 0 <= j < spans@.len() ==> (#[trigger] spans@[j]).0 <= spans@[j].1,
    ensures
        out@ == widest_first(spans@),
{
    let mut out: Vec<(usize, usize, TokenKind)> = Vec::new();
    let n = spans.len();
    let mut i: usize = 0;
    while i < n
        invariant
            n == spans@.len(),
            i <= n,
            out@ == widest_first(spans@.take(i as int)),
            forall|j: int| 0 <= j < spans@.len() ==> (#[trigger] spans@[j]).0 <= spans@[j].1,
            forall|j: int| 0 <= j < out@.len() ==> (#[trigger] out@[j]).0 <= out@[j].1,
            out@.len() == i,
        decreases n - i,
    {
        let x = spans[i];
        let xw = x.1 - x.0;
        let mut k: usize = 0;
        while k < out.len() && !(out[k].1 - out[k].0 < xw)
            invariant
                k <= out@.len(),
                xw == width(x),
                forall|j: int| 0 <= j < out@.len() ==> (#[trigger] out@[j]).0 <= out@[j].1,
                forall|j: int| 0 <= j < k ==> !(width(#[trigger] out@[j]) < width(x)),
            decreases out@.len() - k,
        {
            k = k + 1;
        }
        proof {
            let p = span_pos(out@, x);
            assert(is_span_pos(out@, x, k as int));
            if p < k {
                assert(!(width(out@[p]) < width(x)));
            } else if k < p {
                assert(!(width(out@[k as int]) < width(x)));
            }
            assert(spans@.take(i + 1).drop_last() =~= spans@.take(i as int));
            assert(spans@.take(i + 1).last() == x);
        }
        let ghost before = out@;
        out.insert(k, x);
        assert(out@ =~= before.take(k as int).push(x) + before.skip(k as int));
        assert forall|j: int| 0 <= j < out@.len() implies (#[trigger] out@[j]).0 <= out@[j].1 by {
            if j < k {
                assert(out@[j] == before[j]);
            } else if j > k {
                assert(out@[j] == before[j - 1]);
            }
        }
        i = i + 1;
    }
    assert(spans@.take(n as int) =~= spans@);
    out
}

/// Paint spans in order over `len` default bytes.
fn paint_spans(len: usize, spans: &Vec<(usize, usize, TokenKind)>) -> (kinds: Vec<TokenKind>)
    requires
        forall|j: int| 0 <= j < spans@.len() ==> (#[trigger] spans@[j]).1 <= len,
    ensures
        kinds@ == paint(len as nat, spans@),
{
    let mut kinds: Vec<TokenKind> = Vec::new();
    let mut i: usize = 0;
    while i < len
        invariant
            i <= len,
            kinds@ =~= Seq::new(i as nat, |j: int| TokenKind::Default),
        decreases len - i,
    {
        kinds.push(TokenKind::Default);
        i = i + 1;
    }
    assert(kinds@ =~= paint(len as nat, spans@.take(0)));
    let mut s: usize = 0;
    while s < spans.len()
        invariant
            s <= spans@.len(),
            forall|j: int| 0 <= j < spans@.len() ==> (#[trigger] spans@[j]).1 <= len,
            kinds@ == paint(len as nat, spans@.take(s as int)),
            kinds@.len() == len,
        decreases spans@.len() - s,
    {
        let (a, b, k) = spans[s];
        let ghost prev = kinds@;
        let mut p = a;
        while p < b
            invariant
                a <= p,
                a < b ==> p <= b,
                b <= a ==> p == a,
                b <= len,
                prev.len() == len,
                kinds@.len() == len,
                forall|q: int| 0 <= q < len ==> #[trigger] kinds@[q] == if a <= q < p {
                    k
                } else {
                    prev[q]
                },
            decreases b - p,
        {
            kinds.set(p, k);
            p = p + 1;
        }
        proof {
            assert(spans@.take(s + 1).drop_last() =~= spans@.take(s as int));
            let t = spans@.take(s + 1);
            assert(t.last() == (a, b, k));
            assert(t.drop_last() =~= spans@.take(s as int));
            assert(prev == paint(len as nat, t.drop_last()));
            assert forall|q: int| 0 <= q < len implies #[trigger] kinds@[q] == paint(len as nat, t)[q] by {
                assert(paint(len as nat, t)[q] == if a <= q < b { k } else { prev[q] });
            }
            assert(kinds@ =~= paint(len as nat, t));
        }
        s = s + 1;
    }
    assert(spans@.take(spans@.len() as int) =~= spans@);
    kinds
}

/// The spans of a capture list.
fn collect_spans(caps: &Vec<(usize, usize, u32)>, kinds: &Vec<TokenKind>, len: usize) -> (spans: Vec<
    (usize, usize, TokenKind),
>)
    ensures
        spans@ == capture_spans(caps@, kinds@, len as nat),
        forall|j: int| 0 <= j < spans@.len() ==> (#[trigger] spans@[j]).0 <= spans@[j].1,
        forall|j: int| 0 <= j < spans@.len() ==> (#[trigger] spans@[j]).1 <= len,
{
    let mut spans: Vec<(usize, usize, TokenKind)> = Vec::new();
    let mut i: usize = 0;
    while i < caps.len()
        invariant
            i <= caps@.len(),
            spans@ == capture_spans(caps@.take(i as int), kinds@, len as nat),
            forall|j: int| 0 <= j < spans@.len() ==> (#[trigger] spans@[j]).0 <= spans@[j].1,
            forall|j: int| 0 <= j < spans@.len() ==> (#[trigger] spans@[j]).1 <= len,
        decreases caps@.len() - i,
    {
        let (a, b, idx) = caps[i];
        assert(caps@.take(i + 1).drop_last() =~= caps@.take(i as int));
        assert(caps@.take(i + 1).last() == (a, b, idx));
        if a < b && b <= len && (idx as usize) < kinds.len() && kinds[idx as usize] != TokenKind::Default {
            spans.push((a, b, kinds[idx as usize]));
        }
        i = i + 1;
    }
    assert(caps@.take(caps@.len() as int) =~= caps@);
    spans
}

/// One token kind per byte from a capture list and the kinds of the
/// query's captures.
pub fn paint_captures(caps: &Vec<(usize, usize, u32)>, capture_kind: &Vec<TokenKind>, len: usize) -> (out:
    Vec<TokenKind>)
    ensures
        out@ == highlighted(caps@, capture_kind@, len as nat),
{
    let spans = collect_spans(caps, capture_kind, len);
    let sorted = sort_widest_first(spans);
    proof {
        lemma_widest_first_bounds(capture_spans(caps@, capture_kind@, len as nat), len);
    }
    paint_spans(len, &sorted)
}

/// Sorting keeps every span's end within bounds.
proof fn lemma_widest_first_bounds(s: Seq<(usize, usize, TokenKind)>, len: usize)
    requires
        forall|j: int| 0 <= j < s.len() ==> (#[trigger] s[j]).1 <= len,
    ensures
        forall|j: int| 0 <= j < widest_first(s).len() ==> (#[trigger] widest_first(s)[j]).1 <= len,
        widest_first(s).len() == s.len(),
    decreases s.len(),
{
    if s.len() > 0 {
        lemma_widest_first_bounds(s.drop_last(), len);
        let r = widest_first(s.drop_last());
        let k = span_pos(r, s.last());
        lemma_span_pos_exists(r, s.last());
        let w = r.take(k).push(s.last()) + r.skip(k);
        assert forall|j: int| 0 <= j < w.len() implies (#[trigger] w[j]).1 <= len by {
            if j < k {
                assert(w[j] == r[j]);
            } else if j > k {
                assert(w[j] == r[j - 1]);
            } else {
                assert(w[j] == s.last());
            }
        }
    }
}

proof fn lemma_span_pos_exists(s: Seq<(usize, usize, TokenKind)>, x: (usize, usize, TokenKind))
    ensures
        is_span_pos(s, x, span_pos(s, x)),
{
    let k = first_narrower(s, x);
    assert(is_span_pos(s, x, k));
}

/// Index of the first span of `s` narrower than `x`, or `s.len()`.
proof fn first_narrower(s: Seq<(usize, usize, TokenKind)>, x: (usize, usize, TokenKind)) -> (k: int)
    ensures
        is_span_pos(s, x, k),
    decreases s.len(),
{
    if s.len() == 0 {
        0
    } else if width(s[0]) < width(x) {
        0
    } else {
        let k = first_narrower(s.drop_first(), x);
        assert forall|j: int| 0 <= j < k + 1 implies !(width(#[trigger] s[j]) < width(x)) by {
            if j > 0 {
                assert(s[j] == s.drop_first()[j - 1]);
            }
        }
        if k + 1 < s.len() {
            assert(s[k + 1] == s.drop_first()[k]);
        }
        k + 1
    }
}

/// Span `sp` covers byte `i`.
pub open spec fn covers(sp: (usize, usize, TokenKind), i: int) -> bool {
    sp.0 <= i < sp.1
}

/// No span of `s` is wider than an earlier one.
pub open spec fn widest_first_ordered(s: Seq<(usize, usize, TokenKind)>) -> bool {
    forall|a: int, b: int| 0 <= a < b < s.len() ==> width(#[trigger] s[b]) <= width(#[trigger] s[a])
}

/// Sorting widest first orders the spans by width, narrowest last, and
/// keeps every span, each as often as it was given.
pub proof fn law_widest_first_sorts(s: Seq<(usize, usize, TokenKind)>)
    ensures
        widest_first_ordered(widest_first(s)),
        widest_first(s).to_multiset() == s.to_multiset(),
        widest_first(s).len() == s.len(),
    decreases s.len(),
{
    broadcast use vstd::seq_lib::group_to_multiset_ensures;

    if s.len() == 0 {
        assert(widest_first(s) =~= s);
    } else {
        let r = widest_first(s.drop_last());
        law_widest_first_sorts(s.drop_last());
        let x = s.last();
        let k = span_pos(r, x);
        lemma_span_pos_exists(r, x);
        let out = r.take(k).push(x) + r.skip(k);
        assert(out =~= r.insert(k, x));
        vstd::seq_lib::to_multiset_insert(r, k, x);
        assert(s =~= s.drop_last().push(x));
        vstd::seq_lib::to_multiset_build(s.drop_last(), x);
        assert forall|a: int, b: int| 0 <= a < b < out.len() implies width(#[trigger] out[b]) <= width(#[trigger] out[a]) by {
            if b < k {
                assert(out[a] == r[a] && out[b] == r[b]);
            } else if b == k {
                assert(out[b] == x && out[a] == r[a]);
            } else if a < k {
                assert(out[a] == r[a] && out[b] == r[b - 1]);
            } else if a == k {
                assert(out[a] == x && out[b] == r[b - 1]);
                assert(width(r[k]) < width(x));
                if b - 1 > k {
                    assert(width(r[b - 1]) <= width(r[k]));
                }
            } else {
                assert(out[a] == r[a - 1] && out[b] == r[b - 1]);
            }
        }
    }
}

/// The last span of `spans` that covers byte `i`, if any.
pub open spec fn last_cover(spans: Seq<(usize, usize, TokenKind)>, i: int) -> Option<int>
    decreases spans.len(),
{
    if spans.len() == 0 {
        None
    } else if covers(spans.last(), i) {
        Some(spans.len() - 1)
    } else {
        last_cover(spans.drop_last(), i)
    }
}

proof fn lemma_last_cover(spans: Seq<(usize, usize, TokenKind)>, i: int)
    ensures
        match last_cover(spans, i) {
            Some(j) => 0 <= j < spans.len() && covers(spans[j], i) && forall|m: int|
                j < m < spans.len() ==> !covers(#[trigger] spans[m], i),
            None => forall|m: int| 0 <= m < spans.len() ==> !covers(#[trigger] spans[m], i),
        },
    decreases spans.len(),
{
    if spans.len() > 0 {
        lemma_last_cover(spans.drop_last(), i);
        if !covers(spans.last(), i) {
            assert forall|m: int| 0 <= m < spans.len() - 1 implies spans[m] == spans.drop_last()[m] by {}
        }
    }
}

/// Painting leaves on each byte the kind of the last span covering it,
/// or `Default`.
proof fn lemma_paint_last(len: nat, spans: Seq<(usize, usize, TokenKind)>, i: int)
    requires
        0 <= i < len,
    ensures
        paint(len, spans)[i] == match last_cover(spans, i) {
            Some(j) => spans[j].2,
            None => TokenKind::Default,
        },
    decreases spans.len(),
{
    if spans.len() > 0 {
        lemma_paint_last(len, spans.drop_last(), i);
        lemma_last_cover(spans.drop_last(), i);
        if !covers(spans.last(), i) {
            match last_cover(spans.drop_last(), i) {
                Some(j) => {
                    assert(spans.drop_last()[j] == spans[j]);
                },
                None => {},
            }
        }
    }
}

/// Highlighting gives every byte the kind of the narrowest span that
/// covers it (of several equally narrow ones, one of them), and
/// `Default` to bytes no span covers.
pub proof fn law_highlight_most_specific(caps: Seq<(usize, usize, u32)>, kinds: Seq<TokenKind>, len: nat, i: int)
    requires
        0 <= i < len,
    ensures
        ({
            let spans = capture_spans(caps, kinds, len);
            let out = highlighted(caps, kinds, len);
            &&& out.len() == len
            &&& (forall|j: int| 0 <= j < spans.len() ==> !covers(#[trigger] spans[j], i)) ==> out[i]
                == TokenKind::Default
            &&& (exists|j: int| 0 <= j < spans.len() && covers(#[trigger] spans[j], i)) ==> exists|j: int|
                0 <= j < spans.len() && covers(#[trigger] spans[j], i) && out[i] == spans[j].2 && forall|m: int|
                    0 <= m < spans.len() && covers(#[trigger] spans[m], i) ==> width(spans[j]) <= width(spans[m])
        }),
{
    broadcast use vstd::seq_lib::group_to_multiset_ensures;

    let spans = capture_spans(caps, kinds, len);
    let sorted = widest_first(spans);
    law_widest_first_sorts(spans);
    lemma_paint_last(len, sorted, i);
    lemma_last_cover(sorted, i);
    match last_cover(sorted, i) {
        None => {
            assert forall|j: int| 0 <= j < spans.len() implies !covers(#[trigger] spans[j], i) by {
                assert(spans.contains(spans[j]));
                assert(sorted.to_multiset().count(spans[j]) > 0);
                assert(sorted.contains(spans[j]));
            }
        },
        Some(w) => {
            let x = sorted[w];
            assert(sorted.contains(x));
            assert(spans.to_multiset().count(x) > 0);
            assert(spans.contains(x));
            let j = choose|j: int| 0 <= j < spans.len() && spans[j] == x;
            assert forall|m: int| 0 <= m < spans.len() && covers(#[trigger] spans[m], i) implies width(
                spans[j],
            ) <= width(spans[m]) by {
                assert(spans.contains(spans[m]));
                assert(sorted.to_multiset().count(spans[m]) > 0);
                assert(sorted.contains(spans[m]));
                let q = choose|q: int| 0 <= q < sorted.len() && sorted[q] == spans[m];
                if q > w {
                    assert(!covers(sorted[q], i));
                } else if q < w {
                    assert(width(sorted[w]) <= width(sorted[q]));
                }
            }
            assert(covers(spans[j], i));
        },
    }
}

/// The highlight query source that the grammar crate of `grammar` ships.
pub uninterp spec fn shipped_highlights_query(grammar: Grammar) -> Seq<char>;

/// The capture names, by index, of the highlight query `query` compiled
/// for `grammar` (`Query::new`, `Query::capture_names`); `None` when it
/// does not compile.
pub uninterp spec fn query_capture_names(grammar: Grammar, query: Seq<char>) -> Option<Seq<Seq<char>>>;

/// The captures (start byte, end byte, capture index) that the highlight
/// query `query` yields over `source` parsed with `grammar`, in the order
/// `QueryCursor::captures` yields them; `None` when the source does not
/// parse or the query does not compile.
pub uninterp spec fn query_captures(grammar: Grammar, query: Seq<char>, source: Seq<char>) -> Option<
    Seq<(usize, usize, u32)>,
>;

#[verifier::external_type_specification]
#[verifier::external_body]
pub struct ExLanguage(tree_sitter::Language);

/// The tree-sitter `Language` of `grammar` (the grammar crate's
/// `LANGUAGE`, converted). Nothing is claimed of it: it is opaque.
#[verifier::external_body]
pub(crate) fn grammar_language(grammar: Grammar) -> tree_sitter::Language {
    match grammar {
        Grammar::Python => tree_sitter_python::LANGUAGE.into(),
        Grammar::Rust => tree_sitter_rust::LANGUAGE.into(),
        Grammar::Markdown => tree_sitter_md::LANGUAGE.into(),
    }
}

/// The highlight query the grammar crate of `grammar` ships
/// (`HIGHLIGHTS_QUERY`; Markdown's block grammar: `HIGHLIGHT_QUERY_BLOCK`).
/// Claims only that the text is `shipped_highlights_query(grammar)`.
#[verifier::external_body]
fn shipped_highlights(grammar: Grammar) -> (q: &'static str)
    ensures
        q@ == shipped_highlights_query(grammar),
{
    match grammar {
        Grammar::Python => tree_sitter_python::HIGHLIGHTS_QUERY,
        Grammar::Rust => tree_sitter_rust::HIGHLIGHTS_QUERY,
        Grammar::Markdown => tree_sitter_md::HIGHLIGHT_QUERY_BLOCK,
    }
}

/// Capture names of the highlight query `query` for `grammar`
/// (`Query::new`, `Query::capture_names`); `None` when the query does not
/// compile. Claims only that the result is `query_capture_names`.
#[verifier::external_body]
fn highlight_capture_names(grammar: Grammar, query: &str) -> (r: Option<Vec<String>>)
    ensures
        match r {
            Some(v) => query_capture_names(grammar, query@) == Some(crate::cards::string_views(v@)),
            None => query_capture_names(grammar, query@) is None,
        },
{
    let query = tree_sitter::Query::new(&grammar_language(grammar), query).ok()?;
    Some(query.capture_names().iter().map(|n| n.to_string()).collect())
}

/// Parses `source` and runs the highlight query `query` over the tree
/// (`QueryCursor::captures`), collecting each capture's byte range and
/// index. Claims only that the result is `query_captures`.
#[verifier::external_body]
fn highlight_captures(grammar: Grammar, query: &str, source: &str) -> (r: Option<Vec<(usize, usize, u32)>>)
    ensures
        match r {
            Some(v) => query_captures(grammar, query@, source@) == Some(v@),
            None => query_captures(grammar, query@, source@) is None,
        },
{
    let language = grammar_language(grammar);
    let mut parser = tree_sitter::Parser::new();
    parser.set_language(&language).ok()?;
    let tree = parser.parse(source, None)?;
    let query = tree_sitter::Query::new(&language, query).ok()?;
    let mut cursor = tree_sitter::QueryCursor::new();
    let mut caps = cursor.captures(&query, tree.root_node(), source.as_bytes());
    let mut out = Vec::new();
    while let Some((m, i)) = caps.next() {
        let c = m.captures()[*i];
        out.push((c.node.start_byte(), c.node.end_byte(), c.index));
    }
    Some(out)
}

/// The highlight query a language uses: its grammar crate's for Python
/// and Rust; none (the empty query) for Markdown.
pub open spec fn highlights_of(grammar: Grammar) -> Seq<char> {
    match grammar {
        Grammar::Python => shipped_highlights_query(Grammar::Python),
        Grammar::Rust => shipped_highlights_query(Grammar::Rust),
        Grammar::Markdown => seq![],
    }
}

/// The highlight query source for `grammar` (see `highlights_of`).
pub fn highlights_query(grammar: Grammar) -> (q: &'static str)
    ensures
        q@ == highlights_of(grammar),
{
    match grammar {
        Grammar::Python => shipped_highlights(Grammar::Python),
        Grammar::Rust => shipped_highlights(Grammar::Rust),
        Grammar::Markdown => {
            let q = "";
            proof {
                reveal_strlit("");
            }
            q
        },
    }
}

/// A highlight query for one grammar, with the token kind of each of its
/// captures.
pub struct Highlighter {
    pub grammar: Grammar,
    /// The highlight query source.
    pub query: &'static str,
    /// `capture_kind[i]` is the token kind of the query's capture `i`.
    pub capture_kind: Vec<TokenKind>,
}

/// The token kinds of a list of capture names.
pub open spec fn kinds_of_names(names: Seq<Seq<char>>) -> Seq<TokenKind> {
    names.map_values(|n: Seq<char>| kind_of_capture(n))
}

impl Highlighter {
    /// Build a highlighter for `grammar`; `None` when its highlight query
    /// does not compile.
    pub fn new_for_language(grammar: Grammar) -> (r: Option<Highlighter>)
        ensures
            match query_capture_names(grammar, highlights_of(grammar)) {
                Some(names) => r matches Some(h) && h.grammar == grammar && h.query@ == highlights_of(
                    grammar,
                ) && h.capture_kind@ == kinds_of_names(names),
                None => r is None,
            },
    {
        let query = highlights_query(grammar);
        let names = match highlight_capture_names(grammar, query) {
            Some(v) => v,
            None => {
                return None;
            },
        };
        let ghost nv = crate::cards::string_views(names@);
        let mut kinds: Vec<TokenKind> = Vec::new();
        let mut i: usize = 0;
        while i < names.len()
            invariant
                i <= names@.len(),
                nv == crate::cards::string_views(names@),
                kinds@ =~= kinds_of_names(nv).take(i as int),
            decreases names@.len() - i,
        {
            kinds.push(TokenKind::from_capture_name(names[i].as_str()));
            i = i + 1;
        }
        assert(kinds@ =~= kinds_of_names(nv));
        Some(Highlighter { grammar, query, capture_kind: kinds })
    }

    /// A highlighter for Python.
    pub fn new_python() -> (r: Option<Highlighter>)
        ensures
            match query_capture_names(Grammar::Python, highlights_of(Grammar::Python)) {
                Some(names) => r matches Some(h) && h.grammar == Grammar::Python && h.query@
                    == highlights_of(Grammar::Python) && h.capture_kind@ == kinds_of_names(names),
                None => r is None,
            },
    {
        Highlighter::new_for_language(Grammar::Python)
    }

    /// Parse `source` with this highlighter's grammar; `None` when the
    /// parser gives up.
    pub fn parse(&self, source: &str) -> (r: Option<crate::tree::SyntaxNode>)
        ensures
            r == crate::tree::parsed_tree(self.grammar, source@),
    {
        parse_tree(self.grammar, source)
    }

    /// One token kind per source byte; all `Default` when the source does
    /// not parse.
    pub fn highlight(&self, source: &str) -> (out: Vec<TokenKind>)
        ensures
            out@.len() == source.spec_bytes().len(),
            out@ == match query_captures(self.grammar, self.query@, source@) {
                Some(caps) => highlighted(caps, self.capture_kind@, source.spec_bytes().len()),
                None => paint(source.spec_bytes().len(), seq![]),
            },
    {
        let len = source.as_bytes().len();
        match highlight_captures(self.grammar, self.query, source) {
            Some(caps) => paint_captures(&caps, &self.capture_kind, len),
            None => {
                let none: Vec<(usize, usize, TokenKind)> = Vec::new();
                assert(none@ =~= seq![]);
                paint_spans(len, &none)
            },
        }
    }
}

} // verus!
