//! Character-level helpers shared by the parsers and builders: the
//! trimming, splitting and comparing that the extractors need, each
//! stated over the string's characters.

use vstd::prelude::*;
use vstd::string::*;

verus! {

/// Unicode `White_Space`, the property that `char::is_whitespace` tests.
pub open spec fn is_ws(c: char) -> bool {
    ||| (c as u32) >= 0x09 && (c as u32) <= 0x0D
    ||| c as u32 == 0x20
    ||| c as u32 == 0x85
    ||| c as u32 == 0xA0
    ||| c as u32 == 0x1680
    ||| (c as u32) >= 0x2000 && (c as u32) <= 0x200A
    ||| c as u32 == 0x2028
    ||| c as u32 == 0x2029
    ||| c as u32 == 0x202F
    ||| c as u32 == 0x205F
    ||| c as u32 == 0x3000
}

/// `k` is the length of the longest prefix of `s` whose characters all
/// satisfy `p`.
pub open spec fn is_lead_len(s: Seq<char>, p: spec_fn(char) -> bool, k: int) -> bool {
    &&& 0 <= k <= s.len()
    &&& forall|j: int| 0 <= j < k ==> p(#[trigger] s[j])
    &&& (k == s.len() || !p(s[k]))
}

/// Length of the longest prefix of `s` whose characters all satisfy `p`.
pub open spec fn lead_len(s: Seq<char>, p: spec_fn(char) -> bool) -> int {
    choose|k: int| is_lead_len(s, p, k)
}

/// `k` is the length of the longest suffix of `s` whose characters all
/// satisfy `p`.
pub open spec fn is_trail_len(s: Seq<char>, p: spec_fn(char) -> bool, k: int) -> bool {
    &&& 0 <= k <= s.len()
    &&& forall|j: int| s.len() - k <= j < s.len() ==> p(#[trigger] s[j])
    &&& (k == s.len() || !p(s[s.len() - k - 1]))
}

/// Length of the longest suffix of `s` whose characters all satisfy `p`.
pub open spec fn trail_len(s: Seq<char>, p: spec_fn(char) -> bool) -> int {
    choose|k: int| is_trail_len(s, p, k)
}

pub proof fn lemma_trail_len_exists(s: Seq<char>, p: spec_fn(char) -> bool)
    ensures
        exists|k: int| is_trail_len(s, p, k),
        is_trail_len(s, p, trail_len(s, p)),
    decreases s.len(),
{
    if s.len() == 0 {
        assert(is_trail_len(s, p, 0));
    } else if !p(s.last()) {
        assert(is_trail_len(s, p, 0));
    } else {
        lemma_trail_len_exists(s.drop_last(), p);
        let k = trail_len(s.drop_last(), p);
        assert(is_trail_len(s, p, k + 1)) by {
            assert forall|j: int| s.len() - (k + 1) <= j < s.len() implies p(#[trigger] s[j]) by {
                if j < s.len() - 1 {
                    assert(s[j] == s.drop_last()[j]);
                }
            }
            if k + 1 < s.len() {
                assert(s[s.len() - (k + 1) - 1] == s.drop_last()[s.drop_last().len() - k - 1]);
            }
        }
    }
}

/// `s` without its leading characters that satisfy `p`
/// (`str::trim_start_matches` with a predicate).
pub open spec fn trim_start_by(s: Seq<char>, p: spec_fn(char) -> bool) -> Seq<char> {
    s.skip(lead_len(s, p))
}

/// `s` without its trailing characters that satisfy `p`.
pub open spec fn trim_end_by(s: Seq<char>, p: spec_fn(char) -> bool) -> Seq<char> {
    s.take(s.len() - trail_len(s, p))
}

/// Predicate: whitespace.
pub open spec fn ws() -> spec_fn(char) -> bool {
    |c: char| is_ws(c)
}

/// Predicate: the character `ch`.
pub open spec fn is_char(ch: char) -> spec_fn(char) -> bool {
    |c: char| c == ch
}

/// Predicate: one of the characters `a`, `b`.
pub open spec fn is_either(a: char, b: char) -> spec_fn(char) -> bool {
    |c: char| c == a || c == b
}

/// `str::trim`: both ends stripped of whitespace.
pub open spec fn trim(s: Seq<char>) -> Seq<char> {
    trim_end_by(trim_start_by(s, ws()), ws())
}

/// The part of `s` before the first character that satisfies `p`, or all
/// of `s` (the first item of `str::split`).
pub open spec fn before_first(s: Seq<char>, p: spec_fn(char) -> bool) -> Seq<char> {
    s.take(lead_len(s, |c: char| !p(c)))
}

/// `before_first` stops at the first character satisfying `p`.
pub proof fn lemma_before_first_at(s: Seq<char>, p: spec_fn(char) -> bool, k: int)
    requires
        0 <= k <= s.len(),
        forall|j: int| 0 <= j < k ==> !p(#[trigger] s[j]),
        k == s.len() || p(s[k]),
    ensures
        before_first(s, p) == s.take(k),
{
    let q = |c: char| !p(c);
    assert(is_lead_len(s, q, k));
    lemma_lead_len_unique(s, q, k);
}

pub proof fn lemma_lead_len_unique(s: Seq<char>, p: spec_fn(char) -> bool, k: int)
    requires
        is_lead_len(s, p, k),
    ensures
        lead_len(s, p) == k,
{
    assert(exists|k2: int| is_lead_len(s, p, k2));
    let k2 = lead_len(s, p);
    if k2 < k {
        assert(p(s[k2]));
    } else if k < k2 {
        assert(p(s[k]));
    }
}

pub proof fn lemma_trail_len_unique(s: Seq<char>, p: spec_fn(char) -> bool, k: int)
    requires
        is_trail_len(s, p, k),
    ensures
        trail_len(s, p) == k,
{
    assert(exists|k2: int| is_trail_len(s, p, k2));
    let k2 = trail_len(s, p);
    if k2 < k {
        assert(p(s[s.len() - k2 - 1]));
    } else if k < k2 {
        assert(p(s[s.len() - k - 1]));
    }
}

/// The characters of `s`, in order.
pub fn chars_of(s: &str) -> (v: Vec<char>)
    ensures
        v@ == s@,
{
    let mut v: Vec<char> = Vec::new();
    for c in it: s.chars()
        invariant
            it.seq() == s@,
            v@ == it.seq().take(it.index() as int),
    {
        v.push(c);
    }
    v
}

/// `char::is_whitespace`.
pub fn is_whitespace(c: char) -> (b: bool)
    ensures
        b == is_ws(c),
{
    let u = c as u32;
    (u >= 0x09 && u <= 0x0D) || u == 0x20 || u == 0x85 || u == 0xA0 || u == 0x1680 || (u >= 0x2000
        && u <= 0x200A) || u == 0x2028 || u == 0x2029 || u == 0x202F || u == 0x205F || u == 0x3000
}

/// Number of leading whitespace characters of `v` from position `from`.
fn ws_run_from(v: &Vec<char>, from: usize) -> (k: usize)
    requires
        from <= v@.len(),
    ensures
        is_lead_len(v@.skip(from as int), ws(), k as int),
{
    let mut i = from;
    while i < v.len() && is_whitespace(v[i])
        invariant
            from <= i <= v@.len(),
            forall|j: int| from <= j < i ==> is_ws(#[trigger] v@[j]),
        decreases v@.len() - i,
    {
        i = i + 1;
    }
    let ghost t = v@.skip(from as int);
    assert forall|j: int| 0 <= j < i - from implies is_ws(#[trigger] t[j]) by {
        assert(t[j] == v@[j + from]);
    }
    i - from
}

/// `str::trim`.
pub fn trim_str(s: &str) -> (r: String)
    ensures
        r@ == trim(s@),
{
    let v = chars_of(s);
    let n = v.len();
    let a = ws_run_from(&v, 0);
    assert(v@.skip(0) =~= v@);
    proof {
        lemma_lead_len_unique(s@, ws(), a as int);
    }
    let mut b = n;
    while b > a && is_whitespace(v[b - 1])
        invariant
            a <= b <= n,
            n == v@.len(),
            forall|j: int| b <= j < n ==> is_ws(#[trigger] v@[j]),
        decreases b,
    {
        b = b - 1;
    }
    let ghost t = s@.skip(a as int);
    proof {
        assert forall|j: int| t.len() - (n - b) <= j < t.len() implies is_ws(#[trigger] t[j]) by {
            assert(t[j] == v@[j + a]);
        }
        if n - b < t.len() {
            assert(t[t.len() - (n - b) - 1] == v@[b - 1]);
        }
        assert(is_trail_len(t, ws(), (n - b) as int));
        lemma_trail_len_unique(t, ws(), (n - b) as int);
        assert(trim(s@) =~= s@.subrange(a as int, b as int));
    }
    String::from_str(s.substring_char(a, b))
}

/// `str::trim_start_matches(ch)`.
pub fn trim_start_char(s: &str, ch: char) -> (r: String)
    ensures
        r@ == trim_start_by(s@, is_char(ch)),
{
    let v = chars_of(s);
    let mut i: usize = 0;
    while i < v.len() && v[i] == ch
        invariant
            v@ == s@,
            i <= v@.len(),
            forall|j: int| 0 <= j < i ==> is_char(ch)(#[trigger] v@[j]),
        decreases v@.len() - i,
    {
        i = i + 1;
    }
    proof {
        lemma_lead_len_unique(s@, is_char(ch), i as int);
    }
    String::from_str(s.substring_char(i, v.len()))
}

/// The part of `s` before the first `a` or `b` (the first item of
/// `str::split` on those characters).
pub fn before_either(s: &str, a: char, b: char) -> (r: String)
    ensures
        r@ == before_first(s@, is_either(a, b)),
{
    let v = chars_of(s);
    let mut i: usize = 0;
    while i < v.len() && v[i] != a && v[i] != b
        invariant
            v@ == s@,
            i <= v@.len(),
            forall|j: int| 0 <= j < i ==> (|c: char| !is_either(a, b)(c))(#[trigger] v@[j]),
        decreases v@.len() - i,
    {
        i = i + 1;
    }
    proof {
        lemma_lead_len_unique(s@, |c: char| !is_either(a, b)(c), i as int);
    }
    String::from_str(s.substring_char(0, i))
}

/// Whether two strings hold the same characters.
pub fn str_eq(a: &str, b: &str) -> (r: bool)
    ensures
        r == (a@ == b@),
{
    let va = chars_of(a);
    let vb = chars_of(b);
    if va.len() != vb.len() {
        return false;
    }
    let mut i: usize = 0;
    while i < va.len()
        invariant
            va@ == a@,
            vb@ == b@,
            va@.len() == vb@.len(),
            i <= va@.len(),
            forall|j: int| 0 <= j < i ==> va@[j] == vb@[j],
        decreases va@.len() - i,
    {
        if va[i] != vb[i] {
            return false;
        }
        i = i + 1;
    }
    assert(a@ =~= b@);
    true
}


/// ASCII lowercase of one character.
pub open spec fn lower_char(c: char) -> char {
    if 'A' <= c && c <= 'Z' {
        ((c as u32) + 32) as char
    } else {
        c
    }
}

/// `str::to_ascii_lowercase`.
pub open spec fn ascii_lower(s: Seq<char>) -> Seq<char> {
    s.map_values(|c: char| lower_char(c))
}

fn lower_char_exec(c: char) -> (r: char)
    ensures
        r == lower_char(c),
{
    if c >= 'A' && c <= 'Z' {
        let b = c as u8;
        assert(b as u32 == c as u32);
        let r = (b + 32) as char;
        assert(r as u32 == (c as u32) + 32);
        r
    } else {
        c
    }
}

/// Whether `x`, lowercased, equals `s`.
pub fn lower_eq(x: &str, s: &str) -> (r: bool)
    ensures
        r == (ascii_lower(x@) == s@),
{
    let vx = chars_of(x);
    let vs = chars_of(s);
    if vx.len() != vs.len() {
        assert(ascii_lower(x@).len() != s@.len());
        return false;
    }
    let mut i: usize = 0;
    while i < vx.len()
        invariant
            vx@ == x@,
            vs@ == s@,
            vx@.len() == vs@.len(),
            i <= vx@.len(),
            forall|j: int| 0 <= j < i ==> lower_char(vx@[j]) == vs@[j],
        decreases vx@.len() - i,
    {
        if lower_char_exec(vx[i]) != vs[i] {
            assert(ascii_lower(x@)[i as int] != s@[i as int]);
            return false;
        }
        i = i + 1;
    }
    assert(ascii_lower(x@) =~= s@);
    true
}

/// `str::eq_ignore_ascii_case`.
pub fn eq_ignore_ascii_case(a: &str, b: &str) -> (r: bool)
    ensures
        r == (ascii_lower(a@) == ascii_lower(b@)),
{
    let va = chars_of(a);
    let vb = chars_of(b);
    if va.len() != vb.len() {
        assert(ascii_lower(a@).len() != ascii_lower(b@).len());
        return false;
    }
    let mut i: usize = 0;
    while i < va.len()
        invariant
            va@ == a@,
            vb@ == b@,
            va@.len() == vb@.len(),
            i <= va@.len(),
            forall|j: int| 0 <= j < i ==> lower_char(va@[j]) == lower_char(vb@[j]),
        decreases va@.len() - i,
    {
        if lower_char_exec(va[i]) != lower_char_exec(vb[i]) {
            assert(ascii_lower(a@)[i as int] != ascii_lower(b@)[i as int]);
            return false;
        }
        i = i + 1;
    }
    assert(ascii_lower(a@) =~= ascii_lower(b@));
    true
}

/// Predicate: not a slash.
pub open spec fn not_slash() -> spec_fn(char) -> bool {
    |c: char| c != '/'
}

/// The final component of a `/`-separated path, `.` components ignored,
/// as `Path::file_name` finds it before its `..` check.
pub open spec fn last_path_component(s: Seq<char>) -> Option<Seq<char>>
    decreases s.len(),
{
    let t = trim_end_by(s, is_char('/'));
    proof {
        lemma_trail_len_exists(s, is_char('/'));
    }
    if t.len() == 0 {
        None
    } else {
        let k = trail_len(t, not_slash());
        proof {
            lemma_trail_len_exists(t, not_slash());
            lemma_trail_len_exists(s, is_char('/'));
            assert(t.last() == s[t.len() - 1]);
        }
        let comp = t.skip(t.len() - k);
        if comp == seq!['.'] && k >= 1 {
            last_path_component(t.take(t.len() - k))
        } else {
            Some(comp)
        }
    }
}

/// Predicate: not a dot.
pub open spec fn not_dot_char() -> spec_fn(char) -> bool {
    |c: char| c != '.'
}

/// `Path::extension` of a file name: the part after the final `.`, unless
/// there is no `.` or the only one starts the name.
pub open spec fn name_extension(name: Seq<char>) -> Option<Seq<char>> {
    let k = trail_len(name, not_dot_char());
    if k == name.len() {
        None
    } else if name.len() - k - 1 == 0 {
        None
    } else {
        Some(name.skip(name.len() - k))
    }
}

/// `Path::extension` of a `/`-separated path.
pub open spec fn path_extension(path: Seq<char>) -> Option<Seq<char>> {
    match last_path_component(path) {
        None => None,
        Some(c) => if c == seq!['.', '.'] {
            None
        } else {
            name_extension(c)
        },
    }
}

/// Length of the run of `/` at the end of `v[..end]`.
fn slash_run_before(v: &Vec<char>, end: usize) -> (k: usize)
    requires
        end <= v@.len(),
    ensures
        is_trail_len(v@.take(end as int), is_char('/'), k as int),
{
    let mut b = end;
    while b > 0 && v[b - 1] == '/'
        invariant
            b <= end <= v@.len(),
            forall|j: int| b <= j < end ==> is_char('/')(#[trigger] v@[j]),
        decreases b,
    {
        b = b - 1;
    }
    let ghost t = v@.take(end as int);
    assert forall|j: int| t.len() - (end - b) <= j < t.len() implies is_char('/')(#[trigger] t[j]) by {
        assert(t[j] == v@[j]);
    }
    end - b
}

/// Length of the run of non-`/` at the end of `v[..end]`.
fn component_run_before(v: &Vec<char>, end: usize) -> (k: usize)
    requires
        end <= v@.len(),
    ensures
        is_trail_len(v@.take(end as int), not_slash(), k as int),
{
    let mut b = end;
    while b > 0 && v[b - 1] != '/'
        invariant
            b <= end <= v@.len(),
            forall|j: int| b <= j < end ==> not_slash()(#[trigger] v@[j]),
        decreases b,
    {
        b = b - 1;
    }
    let ghost t = v@.take(end as int);
    assert forall|j: int| t.len() - (end - b) <= j < t.len() implies not_slash()(#[trigger] t[j]) by {
        assert(t[j] == v@[j]);
    }
    end - b
}

/// Bounds of `last_path_component(path)` within `v`.
fn last_component_bounds(v: &Vec<char>) -> (r: Option<(usize, usize)>)
    ensures
        match r {
            Some((a, b)) => a <= b <= v@.len() && last_path_component(v@) == Some(
                v@.subrange(a as int, b as int),
            ),
            None => last_path_component(v@) is None,
        },
{
    let mut end = v.len();
    assert(v@.take(end as int) =~= v@);
    loop
        invariant
            end <= v@.len(),
            last_path_component(v@) == last_path_component(v@.take(end as int)),
        decreases end,
    {
        let ghost s = v@.take(end as int);
        let k1 = slash_run_before(v, end);
        proof {
            lemma_trail_len_unique(s, is_char('/'), k1 as int);
        }
        let t_end = end - k1;
        let ghost t = s.take(t_end as int);
        assert(t =~= v@.take(t_end as int));
        if t_end == 0 {
            return None;
        }
        let k2 = component_run_before(v, t_end);
        proof {
            lemma_trail_len_unique(t, not_slash(), k2 as int);
        }
        let c_start = t_end - k2;
        let ghost comp = t.skip(t.len() - k2);
        assert(comp =~= v@.subrange(c_start as int, t_end as int));
        if k2 == 1 && v[c_start] == '.' {
            assert(comp =~= seq!['.']);
            assert(t.take(t.len() - k2) =~= v@.take(c_start as int));
            end = c_start;
        } else {
            assert(comp != seq!['.'] || k2 < 1) by {
                if comp == seq!['.'] {
                    assert(comp.len() == 1);
                    assert(comp[0] == v@[c_start as int]);
                }
            }
            return Some((c_start, t_end));
        }
    }
}

/// `name_extension` of `v[a..b]`, as bounds within `v`.
fn name_extension_bounds(v: &Vec<char>, a: usize, b: usize) -> (r: Option<(usize, usize)>)
    requires
        a <= b <= v@.len(),
    ensures
        match r {
            Some((x, y)) => x <= y <= v@.len() && name_extension(v@.subrange(a as int, b as int))
                == Some(v@.subrange(x as int, y as int)),
            None => name_extension(v@.subrange(a as int, b as int)) is None,
        },
{
    let ghost comp = v@.subrange(a as int, b as int);
    let mut e = b;
    while e > a && v[e - 1] != '.'
        invariant
            a <= e <= b <= v@.len(),
            forall|j: int| e <= j < b ==> not_dot_char()(#[trigger] v@[j]),
        decreases e,
    {
        e = e - 1;
    }
    let kd = b - e;
    proof {
        assert forall|j: int| comp.len() - kd <= j < comp.len() implies not_dot_char()(
            #[trigger] comp[j],
        ) by {
            assert(comp[j] == v@[a + j]);
        }
        if kd < comp.len() {
            assert(comp[comp.len() - kd - 1] == v@[e - 1]);
        }
        lemma_trail_len_unique(comp, not_dot_char(), kd as int);
    }
    if e == a {
        return None;
    }
    if e - 1 == a {
        return None;
    }
    assert(comp.skip(comp.len() - kd) =~= v@.subrange(e as int, b as int));
    Some((e, b))
}

/// `Path::new(path).extension()`, as a string.
pub fn extension_of(path: &str) -> (r: Option<String>)
    ensures
        match r {
            Some(e) => path_extension(path@) == Some(e@),
            None => path_extension(path@) is None,
        },
{
    let v = chars_of(path);
    assert(v@ == path@);
    match last_component_bounds(&v) {
        None => None,
        Some((a, b)) => {
            let ghost comp = v@.subrange(a as int, b as int);
            if b - a == 2 && v[a] == '.' && v[a + 1] == '.' {
                assert(comp =~= seq!['.', '.']);
                return None;
            }
            assert(comp != seq!['.', '.']) by {
                if comp == seq!['.', '.'] {
                    assert(comp[0] == v@[a as int]);
                    assert(comp[1] == v@[a + 1]);
                }
            }
            match name_extension_bounds(&v, a, b) {
                None => None,
                Some((x, y)) => Some(String::from_str(path.substring_char(x, y))),
            }
        },
    }
}

} // verus!
