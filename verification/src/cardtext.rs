//! A card's text as it is drawn: the continuation lines dedented to the
//! signature's level with the per-byte token kinds kept in step, and the
//! text cut into runs of one kind for coloring.

use vstd::prelude::*;
use vstd::string::*;
use vstd::utf8::*;
use std::ops::Range;
use crate::cards::{byte_range_to_line_range, line_range, mk_range, partition_point, sorted, Card, CardKind};
use crate::state::HighlightedSource;
use crate::syntax::TokenKind;
use crate::text::chars_of;

verus! {

broadcast use vstd::utf8::group_utf8_lib;

/// The UTF-8 length of `c`.
pub open spec fn width(c: char) -> nat {
    encode_scalar(c as u32).len()
}

/// Byte offset of character `i` of `s`.
pub open spec fn byte_offset(s: Seq<char>, i: int) -> nat {
    encode_utf8(s.take(i)).len()
}

pub proof fn lemma_encode_utf8_concat(a: Seq<char>, b: Seq<char>)
    ensures
        encode_utf8(a + b) == encode_utf8(a) + encode_utf8(b),
    decreases a.len(),
{
    if a.len() == 0 {
        assert(a + b =~= b);
        assert(encode_utf8(a) =~= Seq::<u8>::empty());
        assert(encode_utf8(a) + encode_utf8(b) =~= encode_utf8(b));
    } else {
        assert((a + b).drop_first() =~= a.drop_first() + b);
        lemma_encode_utf8_concat(a.drop_first(), b);
        assert((a + b)[0] == a[0]);
        assert(encode_utf8(a + b) =~= encode_utf8(a) + encode_utf8(b));
    }
}

pub proof fn lemma_byte_offset_step(s: Seq<char>, i: int)
    requires
        0 <= i < s.len(),
    ensures
        byte_offset(s, i + 1) == byte_offset(s, i) + width(s[i]),
        encode_utf8(s.take(i + 1)) == encode_utf8(s.take(i)) + encode_scalar(s[i] as u32),
{
    assert(s.take(i + 1) =~= s.take(i) + seq![s[i]]);
    lemma_encode_utf8_concat(s.take(i), seq![s[i]]);
    let t = seq![s[i]];
    assert(t.drop_first() =~= Seq::<char>::empty());
    assert(t[0] == s[i]);
    assert(encode_utf8(t.drop_first()) =~= Seq::<u8>::empty());
    assert(encode_utf8(t) =~= encode_scalar(s[i] as u32));
}

/// The UTF-8 length of a character.
fn char_width(c: char) -> (w: usize)
    ensures
        w == width(c),
        1 <= w <= 4,
        w == 1 <==> (c as u32) < 0x80,
{
    let u = c as u32;
    proof {
        char_is_scalar(c);
    }
    if u < 0x80 {
        1
    } else if u < 0x800 {
        2
    } else if u < 0x10000 {
        3
    } else {
        4
    }
}

/// Character `i` of `s` is dropped when dedenting by `strip`: it is a
/// space on a line after the first, among that line's first `strip`
/// characters, with only spaces before it on the line.
pub open spec fn dropped(s: Seq<char>, strip: int, i: int) -> bool {
    exists|j: int|
        0 <= j < i && i - j <= strip && s[j] == '\n' && forall|k: int| j < k <= i ==> #[trigger] s[k] == ' '
}

/// The characters of the first `n` of `s` that are kept.
pub open spec fn dedented_chars(s: Seq<char>, strip: int, n: int) -> Seq<char>
    decreases n,
{
    if n <= 0 {
        seq![]
    } else if dropped(s, strip, n - 1) {
        dedented_chars(s, strip, n - 1)
    } else {
        dedented_chars(s, strip, n - 1).push(s[n - 1])
    }
}

/// The kinds of the bytes of the first `n` characters of `s` that are
/// kept.
pub open spec fn dedented_kinds(s: Seq<char>, kinds: Seq<TokenKind>, strip: int, n: int) -> Seq<TokenKind>
    decreases n,
{
    if n <= 0 {
        seq![]
    } else if dropped(s, strip, n - 1) {
        dedented_kinds(s, kinds, strip, n - 1)
    } else {
        dedented_kinds(s, kinds, strip, n - 1) + kinds.subrange(
            byte_offset(s, n - 1) as int,
            byte_offset(s, n) as int,
        )
    }
}

/// Strip up to `strip` leading spaces from every line of `text` but the
/// first, keeping `kinds` (one per byte) in step. The first line is left
/// alone: its indentation was already cut off where the card begins.
/// With nothing to strip, both come back unchanged.
pub fn dedent_with_kinds(text: &str, kinds: &[TokenKind], strip: usize) -> (r: (String, Vec<TokenKind>))
    requires
        strip == 0 || kinds@.len() >= text.spec_bytes().len(),
    ensures
        strip == 0 ==> r.0@ == text@ && r.1@ == kinds@,
        strip > 0 ==> r.0@ == dedented_chars(text@, strip as int, text@.len() as int) && r.1@
            == dedented_kinds(text@, kinds@, strip as int, text@.len() as int),
        r.0@ == dedent_by_lines(text@, strip as int),
{
    proof {
        law_dedent_line_by_line(text@, strip as int);
        lemma_dedent_by_zero(text@, text@.len() as int);
        assert(text@.take(text@.len() as int) =~= text@);
    }
    if strip == 0 {
        let mut all: Vec<TokenKind> = Vec::new();
        let mut q: usize = 0;
        while q < kinds.len()
            invariant
                q <= kinds@.len(),
                all@ == kinds@.take(q as int),
            decreases kinds@.len() - q,
        {
            all.push(kinds[q]);
            assert(kinds@.take(q + 1) =~= kinds@.take(q as int).push(kinds@[q as int]));
            q = q + 1;
        }
        assert(kinds@.take(kinds@.len() as int) =~= kinds@);
        return (String::from_str(text), all);
    }
    let v = chars_of(text);
    let ghost s = text@;
    let n = v.len();
    let mut out_text = String::new();
    let mut out_kinds: Vec<TokenKind> = Vec::new();
    let mut run_start: usize = 0;
    let mut bi: usize = 0;
    let mut nl_seen = false;
    let mut last_nl: usize = 0;
    let mut all_space = true;
    let mut i: usize = 0;
    let klen = kinds.len();
    proof {
        assert(s.take(0) =~= Seq::<char>::empty());
        assert(encode_utf8(s.take(0)) =~= Seq::<u8>::empty());
        assert(s.subrange(0, 0) =~= Seq::<char>::empty());
        assert(out_text@ + s.subrange(0, 0) =~= dedented_chars(s, strip as int, 0));
    }
    while i < n
        invariant
            v@ == s,
            s == text@,
            n == s.len(),
            strip > 0,
            kinds@.len() >= text.spec_bytes().len(),
            klen == kinds@.len(),
            text.spec_bytes() == encode_utf8(s),
            i <= n,
            run_start <= i,
            bi == byte_offset(s, i as int),
            bi <= kinds@.len(),
            out_text@ + s.subrange(run_start as int, i as int) == dedented_chars(s, strip as int, i as int),
            out_kinds@ == dedented_kinds(s, kinds@, strip as int, i as int),
            nl_seen ==> last_nl < i && s[last_nl as int] == '\n' && forall|k: int| last_nl < k < i ==> #[trigger] s[k] != '\n',
            !nl_seen ==> forall|k: int| 0 <= k < i ==> #[trigger] s[k] != '\n',
            nl_seen ==> (all_space <==> forall|k: int| last_nl < k < i ==> #[trigger] s[k] == ' '),
        decreases n - i,
    {
        let c = v[i];
        let w = char_width(c);
        proof {
            lemma_byte_offset_step(s, i as int);
            assert(s.take(i + 1) + s.skip(i + 1) =~= s);
            lemma_encode_utf8_concat(s.take(i + 1), s.skip(i + 1));
            assert(byte_offset(s, i + 1) <= encode_utf8(s).len());
            assert(bi + w <= klen);
        }
        let drop = nl_seen && all_space && c == ' ' && i - last_nl <= strip;
        proof {
            if drop {
                assert(dropped(s, strip as int, i as int)) by {
                    assert forall|k: int| last_nl < k <= i implies #[trigger] s[k] == ' ' by {
                        if k < i {
                        }
                    }
                }
            } else if dropped(s, strip as int, i as int) {
                let j = choose|j: int|
                    0 <= j < i && i - j <= strip && s[j] == '\n' && forall|k: int| j < k <= i ==> #[trigger] s[k] == ' ';
                assert(s[i as int] == ' ');
                if !nl_seen {
                    assert(s[j] != '\n');
                } else if j < last_nl {
                    assert(s[last_nl as int] == ' ');
                } else if j > last_nl {
                    assert(s[j] != '\n');
                } else {
                    assert forall|k: int| last_nl < k < i implies #[trigger] s[k] == ' ' by {
                        assert(j < k <= i);
                    }
                    assert(false);
                }
            }
        }
        if drop {
            out_text.append(text.substring_char(run_start, i));
            run_start = i + 1;
            proof {
                assert(s.subrange(run_start as int, i + 1) =~= Seq::<char>::empty());
                assert(out_text@ + s.subrange(run_start as int, i + 1) =~= dedented_chars(s, strip as int, i + 1));
            }
        } else {
            let mut q: usize = bi;
            let end = bi + w;
            let ghost before = out_kinds@;
            while q < end
                invariant
                    bi <= q <= end,
                    end <= kinds@.len(),
                    out_kinds@ == before + kinds@.subrange(bi as int, q as int),
                decreases end - q,
            {
                out_kinds.push(kinds[q]);
                assert(kinds@.subrange(bi as int, q + 1) =~= kinds@.subrange(bi as int, q as int).push(kinds@[q as int]));
                q = q + 1;
            }
            proof {
                assert(s.subrange(run_start as int, i + 1) =~= s.subrange(run_start as int, i as int).push(c));
            }
        }
        if c == '\n' {
            nl_seen = true;
            last_nl = i;
            all_space = true;
        } else if c != ' ' {
            all_space = false;
        }
        bi = bi + w;
        i = i + 1;
    }
    out_text.append(text.substring_char(run_start, n));
    proof {
        assert(s.take(n as int) =~= s);
    }
    (out_text, out_kinds)
}

/// The kinds of the dedented text match its bytes one for one.
pub proof fn law_dedent_keeps_kinds_in_step(s: Seq<char>, kinds: Seq<TokenKind>, strip: int, n: int)
    requires
        0 <= n <= s.len(),
        kinds.len() >= encode_utf8(s).len(),
    ensures
        dedented_kinds(s, kinds, strip, n).len() == encode_utf8(dedented_chars(s, strip, n)).len(),
    decreases n,
{
    if n == 0 {
        assert(encode_utf8(dedented_chars(s, strip, n)) =~= Seq::<u8>::empty());
    } else {
        law_dedent_keeps_kinds_in_step(s, kinds, strip, n - 1);
        if !dropped(s, strip, n - 1) {
            let c = s[n - 1];
            let dc = dedented_chars(s, strip, n - 1);
            lemma_byte_offset_step(s, n - 1);
            assert(s.take(n) + s.skip(n) =~= s);
            lemma_encode_utf8_concat(s.take(n), s.skip(n));
            lemma_encode_utf8_concat(dc, seq![c]);
            let t = seq![c];
            assert(t.drop_first() =~= Seq::<char>::empty());
            assert(encode_utf8(t.drop_first()) =~= Seq::<u8>::empty());
            assert(encode_utf8(t) =~= encode_scalar(c as u32));
            assert(dc.push(c) =~= dc + t);
        }
    }
}

/// Index just past the last newline among the first `n` characters of
/// `s`, or 0 when there is none.
pub open spec fn last_line_start(s: Seq<char>, n: int) -> int
    decreases n,
{
    if n <= 0 {
        0
    } else if s[n - 1] == '\n' {
        n
    } else {
        last_line_start(s, n - 1)
    }
}

/// Number of leading spaces of `l`.
pub open spec fn leading_spaces(l: Seq<char>) -> nat
    decreases l.len(),
{
    if l.len() > 0 && l[0] == ' ' {
        1 + leading_spaces(l.drop_first())
    } else {
        0
    }
}

/// `s` dedented line by line, its lines cut as `str::split_inclusive('\n')`
/// cuts them: the first line as it is, each later line without its first
/// `min(strip, leading spaces)` characters.
pub open spec fn dedent_by_lines(s: Seq<char>, strip: int) -> Seq<char>
    decreases s.len(),
{
    let k = last_line_start(s, s.len() - 1);
    if k <= 0 || k >= s.len() {
        s
    } else {
        let l = s.skip(k);
        let lead = leading_spaces(l) as int;
        dedent_by_lines(s.take(k), strip) + l.skip(if strip < lead { strip } else { lead })
    }
}

proof fn lemma_last_line_start(s: Seq<char>, n: int)
    requires
        n <= s.len(),
    ensures
        0 <= last_line_start(s, n),
        n <= 0 || last_line_start(s, n) <= n,
        last_line_start(s, n) >= 1 ==> s[last_line_start(s, n) - 1] == '\n',
        forall|t: int| last_line_start(s, n) <= t < n ==> s[t] != '\n',
    decreases n,
{
    if n > 0 && s[n - 1] != '\n' {
        lemma_last_line_start(s, n - 1);
    }
}

proof fn lemma_leading_spaces(l: Seq<char>)
    ensures
        leading_spaces(l) <= l.len(),
        forall|t: int| 0 <= t < leading_spaces(l) ==> l[t] == ' ',
        leading_spaces(l) < l.len() ==> l[leading_spaces(l) as int] != ' ',
    decreases l.len(),
{
    if l.len() > 0 && l[0] == ' ' {
        lemma_leading_spaces(l.drop_first());
        assert forall|t: int| 0 <= t < leading_spaces(l) implies l[t] == ' ' by {
            if t > 0 {
                assert(l[t] == l.drop_first()[t - 1]);
            }
        }
        if leading_spaces(l) < l.len() {
            assert(l[leading_spaces(l) as int] == l.drop_first()[leading_spaces(l) - 1]);
        }
    }
}

/// Whether a character is dropped depends only on the text up to it.
proof fn lemma_dropped_prefix(s: Seq<char>, strip: int, k: int, i: int)
    requires
        0 <= i < k <= s.len(),
    ensures
        dropped(s, strip, i) == dropped(s.take(k), strip, i),
{
    let t = s.take(k);
    if dropped(s, strip, i) {
        let j = choose|j: int|
            0 <= j < i && i - j <= strip && s[j] == '\n' && forall|q: int| j < q <= i ==> #[trigger] s[q] == ' ';
        assert(t[j] == s[j]);
        assert forall|q: int| j < q <= i implies #[trigger] t[q] == ' ' by {
            assert(t[q] == s[q]);
        }
    }
    if dropped(t, strip, i) {
        let j = choose|j: int|
            0 <= j < i && i - j <= strip && t[j] == '\n' && forall|q: int| j < q <= i ==> #[trigger] t[q] == ' ';
        assert(t[j] == s[j]);
        assert forall|q: int| j < q <= i implies #[trigger] s[q] == ' ' by {
            assert(t[q] == s[q]);
        }
    }
}

proof fn lemma_dedented_prefix(s: Seq<char>, strip: int, k: int, m: int)
    requires
        0 <= m <= k <= s.len(),
    ensures
        dedented_chars(s, strip, m) == dedented_chars(s.take(k), strip, m),
    decreases m,
{
    if m > 0 {
        lemma_dedented_prefix(s, strip, k, m - 1);
        lemma_dropped_prefix(s, strip, k, m - 1);
        assert(s.take(k)[m - 1] == s[m - 1]);
    }
}

/// On the last line (from `k` on), the dropped characters are the first
/// `min(strip, leading spaces)` of it.
proof fn lemma_dropped_last_line(s: Seq<char>, strip: int, k: int, i: int)
    requires
        0 <= strip,
        1 <= k <= i < s.len(),
        s[k - 1] == '\n',
        forall|t: int| k <= t < s.len() - 1 ==> s[t] != '\n',
    ensures
        dropped(s, strip, i) == (i - k < strip && i - k < leading_spaces(s.skip(k))),
{
    let l = s.skip(k);
    lemma_leading_spaces(l);
    let lead = leading_spaces(l) as int;
    if dropped(s, strip, i) {
        let j = choose|j: int|
            0 <= j < i && i - j <= strip && s[j] == '\n' && forall|q: int| j < q <= i ==> #[trigger] s[q] == ' ';
        if j < k - 1 {
            assert(s[k - 1] == ' ');
        } else if j > k - 1 {
            assert(s[j] != '\n');
        }
        assert(j == k - 1);
        if i - k >= lead {
            assert(l[lead] == s[k + lead]);
            assert(s[k + lead] == ' ');
        }
    }
    if i - k < strip && i - k < lead {
        assert forall|q: int| k - 1 < q <= i implies #[trigger] s[q] == ' ' by {
            assert(l[q - k] == s[q]);
        }
        assert(dropped(s, strip, i));
    }
}

proof fn lemma_dedented_last_line(s: Seq<char>, strip: int, k: int, n: int)
    requires
        0 <= strip,
        1 <= k <= n <= s.len(),
        s[k - 1] == '\n',
        forall|t: int| k <= t < s.len() - 1 ==> s[t] != '\n',
    ensures
        ({
            let l = s.skip(k);
            let lead = leading_spaces(l) as int;
            let m = if strip < lead { strip } else { lead };
            let c = if n - k < m { n - k } else { m };
            dedented_chars(s, strip, n) == dedented_chars(s, strip, k) + l.subrange(c, n - k)
        }),
    decreases n,
{
    let l = s.skip(k);
    lemma_leading_spaces(l);
    let lead = leading_spaces(l) as int;
    let m = if strip < lead { strip } else { lead };
    if n == k {
        assert(l.subrange(0, 0) =~= Seq::<char>::empty());
        assert(dedented_chars(s, strip, k) + l.subrange(0, 0) =~= dedented_chars(s, strip, k));
    } else {
        lemma_dedented_last_line(s, strip, k, n - 1);
        lemma_dropped_last_line(s, strip, k, n - 1);
        let c0 = if n - 1 - k < m { n - 1 - k } else { m };
        if n - 1 - k < m {
            assert(l.subrange(c0, n - 1 - k) =~= Seq::<char>::empty());
            assert(l.subrange(n - k, n - k) =~= Seq::<char>::empty());
        } else {
            assert(l.subrange(m, n - k) =~= l.subrange(m, n - 1 - k).push(s[n - 1]));
            assert(dedented_chars(s, strip, k) + l.subrange(m, n - k) =~= (dedented_chars(s, strip, k)
                + l.subrange(m, n - 1 - k)).push(s[n - 1]));
        }
    }
}

proof fn lemma_no_newline_keeps_all(s: Seq<char>, strip: int, n: int)
    requires
        0 <= n <= s.len(),
        forall|t: int| 0 <= t < s.len() - 1 ==> s[t] != '\n',
    ensures
        dedented_chars(s, strip, n) == s.take(n),
    decreases n,
{
    if n > 0 {
        lemma_no_newline_keeps_all(s, strip, n - 1);
        if dropped(s, strip, n - 1) {
            let j = choose|j: int|
                0 <= j < n - 1 && (n - 1) - j <= strip && s[j] == '\n' && forall|q: int| j < q <= n - 1 ==> #[trigger] s[q] == ' ';
            assert(s[j] != '\n');
        }
        assert(s.take(n) =~= s.take(n - 1).push(s[n - 1]));
    }
}

proof fn lemma_dedent_by_zero(s: Seq<char>, n: int)
    requires
        0 <= n <= s.len(),
    ensures
        dedented_chars(s, 0, n) == s.take(n),
    decreases n,
{
    if n > 0 {
        lemma_dedent_by_zero(s, n - 1);
        assert(!dropped(s, 0, n - 1));
        assert(s.take(n) =~= s.take(n - 1).push(s[n - 1]));
    }
}

/// Dedenting keeps the first line of the text and cuts from each later
/// line (`str::split_inclusive('\n')`) its first `min(strip, leading
/// spaces)` characters, and nothing else.
pub proof fn law_dedent_line_by_line(s: Seq<char>, strip: int)
    requires
        0 <= strip,
    ensures
        dedented_chars(s, strip, s.len() as int) == dedent_by_lines(s, strip),
    decreases s.len(),
{
    let k = last_line_start(s, s.len() - 1);
    lemma_last_line_start(s, s.len() - 1);
    if k <= 0 || k >= s.len() {
        lemma_no_newline_keeps_all(s, strip, s.len() as int);
        assert(s.take(s.len() as int) =~= s);
    } else {
        let l = s.skip(k);
        lemma_leading_spaces(l);
        let lead = leading_spaces(l) as int;
        let m = if strip < lead { strip } else { lead };
        lemma_dedented_last_line(s, strip, k, s.len() as int);
        lemma_dedented_prefix(s, strip, k, k);
        law_dedent_line_by_line(s.take(k), strip);
        assert(s.take(k).len() == k);
        assert(l.subrange(m, s.len() - k) =~= l.skip(m));
    }
}

/// `e` ends the bytes of kind `kinds[i]` that start at `i`: the first
/// position after `i` that ends the text or holds another kind.
pub open spec fn is_kind_end(kinds: Seq<TokenKind>, len: int, i: int, e: int) -> bool {
    &&& i < e <= len
    &&& forall|m: int| i < m < e ==> #[trigger] kinds[m] == kinds[i]
    &&& (e == len || kinds[e] != kinds[i])
}

/// `e` is the first character boundary of `b` at or after `from` (or the
/// end of `b`).
pub open spec fn is_boundary_end(b: Seq<u8>, from: int, e: int) -> bool {
    &&& from <= e <= b.len()
    &&& forall|m: int| from <= m < e ==> !#[trigger] is_char_boundary(b, m)
    &&& (e == b.len() || is_char_boundary(b, e))
}

/// Bytes `start..end` of `b` are one run: `end` is the end of the bytes
/// of `start`'s kind, pushed on to the next character boundary.
#[verifier::opaque]
pub open spec fn is_run(b: Seq<u8>, kinds: Seq<TokenKind>, start: int, end: int) -> bool {
    exists|e1: int| #[trigger] is_kind_end(kinds, b.len() as int, start, e1) && is_boundary_end(b, e1, end)
}

/// The run of one token kind that starts at byte `i` of `text`: from `i`
/// to the end of that kind's bytes, pushed on to a character boundary;
/// `None` at the end of the text.
pub fn next_run(text: &str, kinds: &[TokenKind], i: usize) -> (r: Option<(usize, usize, TokenKind)>)
    requires
        kinds@.len() >= text.spec_bytes().len(),
    ensures
        (r is None) <==> i >= text.spec_bytes().len(),
        r matches Some(t) ==> t.0 == i && t.2 == kinds@[i as int],
        r matches Some(t) ==> i < t.1 <= text.spec_bytes().len(),
        r matches Some(t) ==> is_run(text.spec_bytes(), kinds@, i as int, t.1 as int),
{
    let len = text.as_bytes().len();
    if i >= len {
        return None;
    }
    let k = kinds[i];
    let mut end = i + 1;
    while end < len && kinds[end] == k
        invariant
            len == text.spec_bytes().len(),
            kinds@.len() >= len,
            i < end <= len,
            k == kinds@[i as int],
            forall|m: int| i < m < end ==> #[trigger] kinds@[m] == k,
        decreases len - end,
    {
        end = end + 1;
    }
    let ghost e1 = end as int;
    assert(is_kind_end(kinds@, len as int, i as int, e1));
    while end < len && !text.is_char_boundary(end)
        invariant
            len == text.spec_bytes().len(),
            e1 <= end <= len,
            forall|m: int| e1 <= m < end ==> !#[trigger] is_char_boundary(text.spec_bytes(), m),
        decreases len - end,
    {
        end = end + 1;
    }
    assert(is_kind_end(kinds@, text.spec_bytes().len() as int, i as int, e1) && is_boundary_end(text.spec_bytes(), e1, end as int));
    assert(is_run(text.spec_bytes(), kinds@, i as int, end as int)) by {
        reveal(is_run);
    }
    Some((i, end, k))
}

/// The runs of one token kind that cover `text`, in order, starting at
/// byte 0: each is `next_run` at the end of the one before.
pub fn runs(text: &str, kinds: &[TokenKind]) -> (out: Vec<(usize, usize, TokenKind)>)
    requires
        kinds@.len() >= text.spec_bytes().len(),
    ensures
        forall|j: int| 0 <= j < out@.len() ==> (#[trigger] out@[j]).0 < out@[j].1 <= text.spec_bytes().len(),
        out@.len() == 0 <==> text.spec_bytes().len() == 0,
        out@.len() > 0 ==> out@[0].0 == 0 && out@.last().1 == text.spec_bytes().len(),
        forall|j: int| 0 <= j < out@.len() - 1 ==> (#[trigger] out@[j]).1 == out@[j + 1].0,
        forall|j: int| 0 <= j < out@.len() ==> (#[trigger] out@[j]).2 == kinds@[out@[j].0 as int],
        forall|j: int| 0 <= j < out@.len() ==> is_run(text.spec_bytes(), kinds@, (#[trigger] out@[j]).0 as int, out@[j].1 as int),
{
    let len = text.as_bytes().len();
    let mut out: Vec<(usize, usize, TokenKind)> = Vec::new();
    let mut i: usize = 0;
    while i < len
        invariant
            len == text.spec_bytes().len(),
            kinds@.len() >= len,
            i <= len,
            forall|j: int| 0 <= j < out@.len() ==> (#[trigger] out@[j]).0 < out@[j].1 <= len,
            out@.len() == 0 <==> i == 0,
            out@.len() > 0 ==> out@[0].0 == 0 && out@.last().1 == i,
            forall|j: int| 0 <= j < out@.len() - 1 ==> (#[trigger] out@[j]).1 == out@[j + 1].0,
            forall|j: int| 0 <= j < out@.len() ==> (#[trigger] out@[j]).2 == kinds@[out@[j].0 as int],
            forall|j: int| 0 <= j < out@.len() ==> is_run(text.spec_bytes(), kinds@, (#[trigger] out@[j]).0 as int, out@[j].1 as int),
        ensures
            i == len,
            forall|j: int| 0 <= j < out@.len() ==> (#[trigger] out@[j]).0 < out@[j].1 <= len,
            out@.len() == 0 <==> i == 0,
            out@.len() > 0 ==> out@[0].0 == 0 && out@.last().1 == i,
            forall|j: int| 0 <= j < out@.len() - 1 ==> (#[trigger] out@[j]).1 == out@[j + 1].0,
            forall|j: int| 0 <= j < out@.len() ==> (#[trigger] out@[j]).2 == kinds@[out@[j].0 as int],
            forall|j: int| 0 <= j < out@.len() ==> is_run(text.spec_bytes(), kinds@, (#[trigger] out@[j]).0 as int, out@[j].1 as int),
        decreases len - i,
    {
        match next_run(text, kinds, i) {
            Some((start, end, k)) => {
                let ghost before = out@;
                out.push((start, end, k));
                assert forall|j: int| 0 <= j < out@.len() - 1 implies (#[trigger] out@[j]).1 == out@[j + 1].0 by {
                    if j < before.len() - 1 {
                        assert(out@[j] == before[j]);
                        assert(out@[j + 1] == before[j + 1]);
                    } else {
                        assert(out@[j] == before.last());
                    }
                }
                assert forall|j: int| 0 <= j < out@.len() implies is_run(text.spec_bytes(), kinds@, (#[trigger] out@[j]).0 as int, out@[j].1 as int) by {
                    if j < before.len() {
                        assert(out@[j] == before[j]);
                    }
                }
                i = end;
            },
            None => {
                break;
            },
        }
    }
    out
}

/// The bytes a card shows: a class only its signature, any other card
/// everything from its first decorator on.
pub open spec fn text_range(kind: CardKind, header_range: Range<usize>, full_range: Range<usize>) -> Range<usize> {
    if kind == CardKind::Class {
        header_range
    } else {
        full_range
    }
}

/// Column of byte `pos`: how far it lies from the start of its line.
pub open spec fn column_of(offsets: Seq<usize>, pos: usize) -> int {
    pos - offsets[line_range(mk_range(pos as int, pos as int), offsets).start as int]
}

/// The text and token kinds a card shows, from the characters `s` of its
/// byte range and their kinds `ks`: the lines after the first dedented by
/// the column the card starts at, so the body sits one level below the
/// signature; unchanged at column 0.
pub open spec fn shown_text(s: Seq<char>, ks: Seq<TokenKind>, col: int) -> (Seq<char>, Seq<TokenKind>) {
    if col == 0 {
        (s, ks)
    } else {
        (dedented_chars(s, col, s.len() as int), dedented_kinds(s, ks, col, s.len() as int))
    }
}

proof fn lemma_boundary_in_tail(b: Seq<u8>, start: int, end: int)
    requires
        valid_utf8(b),
        0 <= start <= end <= b.len(),
        is_char_boundary(b, start),
        is_char_boundary(b, end),
    ensures
        is_char_boundary(b.subrange(start, b.len() as int), end - start),
{
    let t = b.subrange(start, b.len() as int);
    valid_utf8_split(b, start);
    if end == b.len() {
        is_char_boundary_start_end_of_seq(t);
    } else {
        is_char_boundary_iff_not_is_continuation_byte(b, end);
        is_char_boundary_iff_not_is_continuation_byte(t, end - start);
        assert(t[end - start] == b[end]);
    }
}

/// The text and per-byte token kinds a card shows (see `shown_text`).
pub fn card_text(hl: &HighlightedSource, card: &Card) -> (r: (String, Vec<TokenKind>))
    requires
        sorted(hl.line_offsets@),
        hl.line_offsets@.len() > 0,
        hl.line_offsets@[0] <= text_range(card.kind, card.header_range, card.full_range).start,
        text_range(card.kind, card.header_range, card.full_range).start <= text_range(card.kind, card.header_range, card.full_range).end
            <= encode_utf8(hl.source.contents@).len(),
        is_char_boundary(encode_utf8(hl.source.contents@), text_range(card.kind, card.header_range, card.full_range).start as int),
        is_char_boundary(encode_utf8(hl.source.contents@), text_range(card.kind, card.header_range, card.full_range).end as int),
        hl.kinds@.len() >= text_range(card.kind, card.header_range, card.full_range).end,
    ensures
        ({
            let range = text_range(card.kind, card.header_range, card.full_range);
            let bytes = encode_utf8(hl.source.contents@);
            (r.0@, r.1@) == shown_text(
                decode_utf8(bytes.subrange(range.start as int, range.end as int)),
                hl.kinds@.subrange(range.start as int, range.end as int),
                column_of(hl.line_offsets@, range.start),
            )
        }),
{
    let range = match card.kind {
        CardKind::Class => card.header_range.start..card.header_range.end,
        _ => card.full_range.start..card.full_range.end,
    };
    let start = range.start;
    let end = range.end;
    let ghost bytes = encode_utf8(hl.source.contents@);
    let lines = byte_range_to_line_range(&(start..start), hl.line_offsets.as_slice());
    proof {
        crate::cards::lemma_partition_point(hl.line_offsets@, start, false);
    }
    let base_col = start - hl.line_offsets[lines.start];
    let contents = hl.source.contents.as_str();
    proof {
        lemma_boundary_in_tail(bytes, start as int, end as int);
    }
    let (_, tail) = contents.split_at(start);
    let (mid, _) = tail.split_at(end - start);
    proof {
        assert(mid.spec_bytes() =~= bytes.subrange(start as int, end as int));
        encode_utf8_decode_utf8(mid@);
    }
    let mut ks: Vec<TokenKind> = Vec::new();
    let mut q: usize = start;
    while q < end
        invariant
            start <= q <= end,
            end <= hl.kinds@.len(),
            ks@ == hl.kinds@.subrange(start as int, q as int),
        decreases end - q,
    {
        ks.push(hl.kinds[q]);
        assert(hl.kinds@.subrange(start as int, q + 1) =~= hl.kinds@.subrange(start as int, q as int).push(hl.kinds@[q as int]));
        q = q + 1;
    }
    dedent_with_kinds(mid, ks.as_slice(), base_col)
}

} // verus!
