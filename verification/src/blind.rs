//! The file-tree blind: which slat design each row gets, and which rope
//! each row hangs on.
//!
//! Each depth of the tree gets its own rope, spanning only the siblings
//! of one parent folder, the way a file-tree view draws its `│`
//! connectors: the root rope holds the depth-0 rows, and each expanded
//! folder starts a new rope for its children.

use vstd::prelude::*;
use crate::filetree::SlatEntry;

verus! {

/// How slats present their items: all as plaques, all as shelves, or
/// alternating by row.
#[derive(Debug, Clone, Copy, PartialEq, Eq, Structural)]
pub enum SlatMode {
    Closed,
    Open,
    Alternating,
}

/// The design drawn for one slat.
#[derive(Debug, Clone, Copy, PartialEq, Eq, Structural)]
pub enum SlatDesign {
    /// Tall plaque with the file name inked on its face.
    Closed,
    /// Thin shelf with the file name standing on top.
    Open,
}

/// The design of row `index`: the mode's own, or, alternating, plaques on
/// even rows and shelves on odd ones.
pub open spec fn design_of(mode: SlatMode, index: int) -> SlatDesign {
    match mode {
        SlatMode::Closed => SlatDesign::Closed,
        SlatMode::Open => SlatDesign::Open,
        SlatMode::Alternating => if index % 2 == 0 {
            SlatDesign::Closed
        } else {
            SlatDesign::Open
        },
    }
}

/// Slat design for row `index`.
pub fn design_for_index(mode: SlatMode, index: usize) -> (d: SlatDesign)
    ensures
        d == design_of(mode, index as int),
{
    match mode {
        SlatMode::Closed => SlatDesign::Closed,
        SlatMode::Open => SlatDesign::Open,
        SlatMode::Alternating => if index % 2 == 0 {
            SlatDesign::Closed
        } else {
            SlatDesign::Open
        },
    }
}

/// The open ropes after leaving every one deeper than `d`.
pub open spec fn pop_deeper(stack: Seq<(usize, usize)>, d: usize) -> Seq<(usize, usize)>
    decreases stack.len(),
{
    if stack.len() > 0 && stack.last().0 > d {
        pop_deeper(stack.drop_last(), d)
    } else {
        stack
    }
}

/// The scan that assigns ropes, after the rows of `depths`: the open
/// ropes as (depth, id) from shallowest to deepest, the next unused id,
/// and the id given to each row. A row joins the open rope of its depth
/// once the deeper ones are closed; without one, it starts a new rope.
pub open spec fn rope_scan(depths: Seq<usize>) -> (Seq<(usize, usize)>, nat, Seq<usize>)
    decreases depths.len(),
{
    if depths.len() == 0 {
        (seq![], 0, seq![])
    } else {
        let (st, next, g) = rope_scan(depths.drop_last());
        let d = depths.last();
        let st1 = pop_deeper(st, d);
        let (st2, next2) = if st1.len() > 0 && st1.last().0 == d {
            (st1, next)
        } else {
            (st1.push((d, next as usize)), next + 1)
        };
        (st2, next2, g.push(st2.last().1))
    }
}

/// The rope id of each row of depths `depths`.
pub open spec fn rope_groups(depths: Seq<usize>) -> Seq<usize> {
    rope_scan(depths).2
}

/// The depths of a list of rows.
pub open spec fn row_depths(entries: Seq<SlatEntry>) -> Seq<usize> {
    entries.map_values(|e: SlatEntry| e.depth)
}

pub proof fn lemma_rope_scan_len(depths: Seq<usize>)
    ensures
        rope_scan(depths).2.len() == depths.len(),
        rope_scan(depths).1 <= depths.len(),
    decreases depths.len(),
{
    if depths.len() > 0 {
        lemma_rope_scan_len(depths.drop_last());
    }
}

/// Give every row a rope id: siblings (same depth, same parent subtree)
/// share one; when the depth comes back to a level after a shallower row,
/// a new rope starts there.
pub fn assign_rope_groups(entries: &[SlatEntry]) -> (ids: Vec<usize>)
    ensures
        ids@ == rope_groups(row_depths(entries@)),
{
    let ghost depths = row_depths(entries@);
    let mut ids: Vec<usize> = Vec::new();
    let mut next: usize = 0;
    let mut stack: Vec<(usize, usize)> = Vec::new();
    let mut i: usize = 0;
    while i < entries.len()
        invariant
            i <= entries@.len(),
            depths == row_depths(entries@),
            rope_scan(depths.take(i as int)) == (stack@, next as nat, ids@),
            next <= i,
        decreases entries@.len() - i,
    {
        let d = entries[i].depth;
        proof {
            assert(depths.take(i + 1).drop_last() =~= depths.take(i as int));
            assert(depths.take(i + 1).last() == d);
        }
        let ghost st0 = stack@;
        while stack.len() > 0 && stack[stack.len() - 1].0 > d
            invariant
                pop_deeper(stack@, d) == pop_deeper(st0, d),
            decreases stack@.len(),
        {
            let ghost before = stack@;
            stack.pop();
            assert(stack@ =~= before.drop_last());
        }
        if !(stack.len() > 0 && stack[stack.len() - 1].0 == d) {
            stack.push((d, next));
            next = next + 1;
        }
        ids.push(stack[stack.len() - 1].1);
        i = i + 1;
    }
    assert(depths.take(entries@.len() as int) =~= depths);
    ids
}

/// No row strictly between rows `r` and `n` is shallower than row `r`.
pub open spec fn none_shallower_between(depths: Seq<usize>, r: int, n: int) -> bool {
    forall|k: int| r < k < n ==> depths[k] >= depths[r]
}

spec fn increasing(st: Seq<(usize, usize)>) -> bool {
    forall|a: int, b: int| 0 <= a < b < st.len() ==> st[a].0 < st[b].0
}

spec fn stack_has(st: Seq<(usize, usize)>, x: (usize, usize)) -> bool {
    exists|a: int| 0 <= a < st.len() && st[a] == x
}

/// What holds of the scan after its first `n` rows.
spec fn scan_ok(depths: Seq<usize>, n: int) -> bool {
    let (st, next, g) = rope_scan(depths.take(n));
    &&& increasing(st)
    &&& forall|a: int, b: int| 0 <= a < b < st.len() ==> (#[trigger] st[a]).1 != (#[trigger] st[b]).1
    &&& g.len() == n
    &&& forall|r: int| 0 <= r < n ==> (#[trigger] g[r]) < next
    &&& forall|a: int| 0 <= a < st.len() ==> (#[trigger] st[a]).1 < next
    &&& forall|r: int|
        0 <= r < n ==> (none_shallower_between(depths, r, n) <==> stack_has(st, (depths[r], #[trigger] g[r])))
    &&& forall|a: int, r: int|
        0 <= a < st.len() && 0 <= r < n && #[trigger] g[r] == (#[trigger] st[a]).1 ==> depths[r] == st[a].0
            && none_shallower_between(depths, r, n)
    &&& forall|r1: int, r2: int|
        0 <= r1 < r2 < n ==> (#[trigger] g[r1] == #[trigger] g[r2] <==> (depths[r1] == depths[r2]
            && none_shallower_between(depths, r1, r2)))
}

/// Leaving the ropes deeper than `d` keeps a prefix of an increasing
/// stack: exactly its entries at depth `d` or shallower.
proof fn lemma_pop_deeper(st: Seq<(usize, usize)>, d: usize)
    requires
        increasing(st),
    ensures
        pop_deeper(st, d).len() <= st.len(),
        pop_deeper(st, d) == st.take(pop_deeper(st, d).len() as int),
        forall|a: int| 0 <= a < pop_deeper(st, d).len() ==> (#[trigger] st[a]).0 <= d,
        forall|a: int| pop_deeper(st, d).len() <= a < st.len() ==> (#[trigger] st[a]).0 > d,
    decreases st.len(),
{
    if st.len() > 0 && st.last().0 > d {
        let t = st.drop_last();
        assert(increasing(t));
        lemma_pop_deeper(t, d);
        let p = pop_deeper(t, d);
        assert(p == st.take(p.len() as int)) by {
            assert(t.take(p.len() as int) =~= st.take(p.len() as int));
        }
        assert forall|a: int| p.len() <= a < st.len() implies (#[trigger] st[a]).0 > d by {
            if a < st.len() - 1 {
                assert(st[a] == t[a]);
            }
        }
        assert forall|a: int| 0 <= a < p.len() implies (#[trigger] st[a]).0 <= d by {
            assert(st[a] == t[a]);
        }
    } else {
        assert(st.take(st.len() as int) =~= st);
        assert forall|a: int| 0 <= a < st.len() implies (#[trigger] st[a]).0 <= d by {
            if st.len() > 0 && a < st.len() - 1 {
                assert(st[a].0 < st[st.len() - 1].0);
            }
        }
    }
}

proof fn lemma_scan_step(depths: Seq<usize>, n: int)
    requires
        0 <= n < depths.len(),
        depths.len() <= usize::MAX,
        scan_ok(depths, n),
    ensures
        scan_ok(depths, n + 1),
{
    let (st, next, g) = rope_scan(depths.take(n));
    assert(depths.take(n + 1).drop_last() =~= depths.take(n));
    assert(depths.take(n + 1).last() == depths[n]);
    lemma_rope_scan_len(depths.take(n));
    let d = depths[n];
    let st1 = pop_deeper(st, d);
    lemma_pop_deeper(st, d);
    let joined = st1.len() > 0 && st1.last().0 == d;
    let st2 = if joined { st1 } else { st1.push((d, next as usize)) };
    let next2 = if joined { next } else { next + 1 };
    let g2 = g.push(st2.last().1);
    assert(rope_scan(depths.take(n + 1)) == (st2, next2, g2));
    assert(next as usize == next);
    // The stack after popping: an entry survives exactly when it is at
    // depth d or shallower.
    assert forall|x: (usize, usize)| stack_has(st1, x) <==> (stack_has(st, x) && x.0 <= d) by {
        if stack_has(st1, x) {
            let a = choose|a: int| 0 <= a < st1.len() && st1[a] == x;
            assert(st[a] == st1[a]);
        }
        if stack_has(st, x) && x.0 <= d {
            let a = choose|a: int| 0 <= a < st.len() && st[a] == x;
            assert(a < st1.len());
            assert(st1[a] == st[a]);
        }
    }
    assert(increasing(st1));
    assert(increasing(st2)) by {
        if !joined && st1.len() > 0 {
            assert(st1.last().0 <= d);
        }
    }
    assert forall|x: (usize, usize)| stack_has(st2, x) <==> (stack_has(st1, x) || (!joined && x == (
    d, next as usize))) by {
        if stack_has(st2, x) {
            let a = choose|a: int| 0 <= a < st2.len() && st2[a] == x;
            if a < st1.len() {
                assert(st1[a] == st2[a]);
            }
        }
        if stack_has(st1, x) {
            let a = choose|a: int| 0 <= a < st1.len() && st1[a] == x;
            assert(st2[a] == st1[a]);
        }
        if !joined && x == (d, next as usize) {
            assert(st2[st1.len() as int] == x);
        }
    }
    // the entry at the top after the row is (d, g2[n])
    assert(st2.last() == (d, g2[n]));
    assert(stack_has(st2, (d, g2[n]))) by {
        assert(st2[st2.len() - 1] == (d, g2[n]));
    }
    assert forall|r: int| 0 <= r < n + 1 implies (#[trigger] g2[r]) < next2 by {
        if r < n {
            assert(g2[r] == g[r]);
        }
    }
    assert forall|a: int| 0 <= a < st2.len() implies (#[trigger] st2[a]).1 < next2 by {
        if a < st1.len() {
            assert(st2[a] == st1[a]);
            assert(st1[a] == st[a]);
        }
    }
    // Rows before n stay open exactly when they are not deeper than d.
    assert forall|r: int| 0 <= r < n implies (none_shallower_between(depths, r, n + 1) <==> (
    none_shallower_between(depths, r, n) && depths[r] <= d)) by {
        if none_shallower_between(depths, r, n + 1) {
            assert forall|k: int| r < k < n implies depths[k] >= depths[r] by {
            }
            assert(depths[n] >= depths[r]);
        }
    }
    assert forall|r: int|
        0 <= r < n + 1 implies (none_shallower_between(depths, r, n + 1) <==> stack_has(
        st2,
        (depths[r], #[trigger] g2[r]),
    )) by {
        if r < n {
            assert(g2[r] == g[r]);
            if stack_has(st2, (depths[r], g[r])) && !stack_has(st1, (depths[r], g[r])) {
                assert(g[r] < next);
            }
        } else {
            assert(none_shallower_between(depths, r, n + 1));
        }
    }
    assert forall|a: int, b: int| 0 <= a < b < st2.len() implies (#[trigger] st2[a]).1 != (#[trigger] st2[b]).1 by {
        if b < st1.len() {
            assert(st2[a] == st[a]);
            assert(st2[b] == st[b]);
        } else {
            assert(st2[a] == st[a]);
        }
    }
    assert forall|a: int, r: int|
        0 <= a < st2.len() && 0 <= r < n + 1 && #[trigger] g2[r] == (#[trigger] st2[a]).1 implies depths[r]
        == st2[a].0 && none_shallower_between(depths, r, n + 1) by {
        if r < n {
            assert(g2[r] == g[r]);
            if a < st1.len() {
                assert(st2[a] == st1[a]);
                assert(st1[a] == st[a]);
            } else {
                assert(st2[a].1 == next);
                assert(g[r] < next);
            }
        } else {
            if a < st2.len() - 1 {
                assert(st2[a].1 != st2[st2.len() - 1].1);
            }
            assert(none_shallower_between(depths, r, n + 1));
        }
    }
    assert forall|r1: int, r2: int|
        0 <= r1 < r2 < n + 1 implies (#[trigger] g2[r1] == #[trigger] g2[r2] <==> (depths[r1] == depths[r2]
            && none_shallower_between(depths, r1, r2))) by {
        assert(g2[r1] == g[r1]);
        if r2 < n {
            assert(g2[r2] == g[r2]);
        } else {
            let t = st2.len() - 1;
            if g2[r1] == g2[r2] {
                if joined {
                    assert(st2[t] == st[t]);
                    assert(g[r1] == st[t].1);
                } else {
                    assert(g[r1] < next);
                }
            }
            if depths[r1] == depths[r2] && none_shallower_between(depths, r1, r2) {
                assert(stack_has(st, (depths[r1], g[r1])));
                assert(stack_has(st1, (depths[r1], g[r1])));
                let a = choose|a: int| 0 <= a < st1.len() && st1[a] == (depths[r1], g[r1]);
                if a < st1.len() - 1 {
                    assert(st1[a].0 < st1[st1.len() - 1].0);
                }
                assert(joined);
                assert(a == st1.len() - 1);
            }
        }
    }
}

proof fn lemma_scan_ok(depths: Seq<usize>, n: int)
    requires
        0 <= n <= depths.len(),
        depths.len() <= usize::MAX,
    ensures
        scan_ok(depths, n),
    decreases n,
{
    if n == 0 {
        assert(depths.take(0) =~= Seq::<usize>::empty());
    } else {
        lemma_scan_ok(depths, n - 1);
        lemma_scan_step(depths, n - 1);
    }
}

/// Two rows hang on the same rope exactly when they are at the same
/// depth and no row between them is shallower.
pub proof fn law_rope_siblings(depths: Seq<usize>, i: int, j: int)
    requires
        0 <= i < j < depths.len(),
        depths.len() <= usize::MAX,
    ensures
        rope_groups(depths)[i] == rope_groups(depths)[j] <==> (depths[i] == depths[j]
            && none_shallower_between(depths, i, j)),
{
    lemma_scan_ok(depths, depths.len() as int);
    assert(depths.take(depths.len() as int) =~= depths);
    let g = rope_groups(depths);
    assert(g[i] == g[j] <==> (depths[i] == depths[j] && none_shallower_between(depths, i, j)));
}

} // verus!
