//! Junction boxes joined into circuits: the pairs of boxes come in order (nearest
//! first); each pair joins the circuits of its two boxes. Boxes carry a circuit number
//! (`0`: none yet), and each circuit keeps the list of its boxes.
use vstd::prelude::*;
use std::collections::HashMap;

verus! {

broadcast use vstd::std_specs::hash::group_hash_axioms;

/// The circuit of each box, and the boxes of each circuit.
pub type Circuits = (Seq<usize>, Map<usize, Seq<usize>>);

/// The boxes of `members` moved to circuit `g`.
pub open spec fn relabel(grp: Seq<usize>, members: Seq<usize>, g: usize) -> Seq<usize> {
    Seq::new(grp.len(), |p: int| if members.contains(p as usize) {
        g
    } else {
        grp[p]
    })
}

/// Joins boxes `p1` and `p2` as the `i`-th pair: two loose boxes start circuit `i + 1`;
/// a loose box joins the other's circuit; two circuits merge into the first.
pub open spec fn connect(st: Circuits, i: int, p1: usize, p2: usize) -> Circuits {
    let grp = st.0;
    let gs = st.1;
    let g1 = grp[p1 as int];
    let g2 = grp[p2 as int];
    let s1: Circuits = if g1 == g2 {
        if g2 == 0 {
            (
                grp.update(p1 as int, (i + 1) as usize).update(p2 as int, (i + 1) as usize),
                gs.insert((i + 1) as usize, seq![p1, p2]),
            )
        } else {
            st
        }
    } else if g1 == 0 {
        (grp.update(p1 as int, g2), gs.insert(g2, gs[g2].push(p1)))
    } else if g2 == 0 {
        (grp.update(p2 as int, g1), gs.insert(g1, gs[g1].push(p2)))
    } else {
        (relabel(grp, gs[g2], g1), gs.remove(g2).insert(g1, gs[g1] + gs[g2]))
    };
    (s1.0.update(p2 as int, s1.0[p1 as int]), s1.1)
}

/// The circuits after the first `k` pairs, from `n` loose boxes.
pub open spec fn run(n: nat, pairs: Seq<(usize, usize)>, k: int) -> Circuits
    decreases k,
{
    if k <= 0 {
        (Seq::new(n, |p: int| 0usize), Map::empty())
    } else {
        let pr = pairs[k - 1];
        connect(run(n, pairs, k - 1), k - 1, pr.0, pr.1)
    }
}

/// Every pair names boxes that exist.
pub open spec fn pairs_ok(n: nat, pairs: Seq<(usize, usize)>) -> bool {
    forall|k: int| 0 <= k < pairs.len() ==> (#[trigger] pairs[k]).0 < n && pairs[k].1 < n
}

/// The bookkeeping agrees: a box's circuit exists and lists it, listed boxes exist,
/// circuit numbers are among `1..=k`.
pub open spec fn kept(n: nat, st: Circuits, k: int) -> bool {
    &&& st.0.len() == n
    &&& forall|p: int|
        0 <= p < n && #[trigger] st.0[p] != 0 ==> st.1.contains_key(st.0[p]) && st.1[st.0[p]].contains(
            p as usize,
        )
    &&& forall|g: usize, j: int| #[trigger] st.1.contains_key(g) && 0 <= j < st.1[g].len() ==> (#[trigger] st.1[g][j]) < n
    &&& forall|g: usize| #[trigger] st.1.contains_key(g) ==> 1 <= g <= k
    &&& forall|g: usize, j: int|
        #[trigger] st.1.contains_key(g) && 0 <= j < st.1[g].len() ==> st.0[(#[trigger] st.1[g][j]) as int] == g
    &&& st.1.dom().finite()
}

proof fn lemma_run_kept(n: nat, pairs: Seq<(usize, usize)>, k: int)
    requires
        pairs_ok(n, pairs),
        0 <= k <= pairs.len(),
        pairs.len() <= usize::MAX,
    ensures
        kept(n, run(n, pairs, k), k),
    decreases k,
{
    if k > 0 {
        lemma_run_kept(n, pairs, k - 1);
        let st = run(n, pairs, k - 1);
        let pr = pairs[k - 1];
        let p1 = pr.0;
        let p2 = pr.1;
        let grp = st.0;
        let gs = st.1;
        let g1 = grp[p1 as int];
        let g2 = grp[p2 as int];
        let r = run(n, pairs, k);
        assert(r == connect(st, k - 1, p1, p2));
        if g1 == g2 {
            if g2 == 0 {
                let gn = (k - 1 + 1) as usize;
                assert(gn == k);
                assert(!gs.contains_key(gn));
                assert forall|g: usize, j: int| #[trigger] r.1.contains_key(g) && 0 <= j < r.1[g].len() implies r.0[(#[trigger] r.1[g][j]) as int] == g by {
                    if g != gn {
                        assert(r.1[g] == gs[g]);
                        assert(st.0[gs[g][j] as int] == g);
                    }
                }
                assert forall|p: int| 0 <= p < n && #[trigger] r.0[p] != 0 implies r.1.contains_key(r.0[p]) && r.1[r.0[p]].contains(p as usize) by {
                    if p == p1 as int {
                        assert(r.1[gn][0] == p1);
                    } else if p == p2 as int {
                        assert(r.1[gn][1] == p2);
                    } else {
                        assert(r.0[p] == grp[p]);
                        assert(grp[p] != gn);
                    }
                }
            } else {
                assert(gs[g1].contains(p1));
            }
        } else if g1 == 0 {
            assert(gs.contains_key(g2));
            let l = gs[g2].push(p1);
            assert forall|g: usize, j: int| #[trigger] r.1.contains_key(g) && 0 <= j < r.1[g].len() implies r.0[(#[trigger] r.1[g][j]) as int] == g by {
                if g == g2 {
                    if j < gs[g2].len() {
                        assert(l[j] == gs[g2][j]);
                        assert(st.0[gs[g2][j] as int] == g2);
                    }
                } else {
                    assert(r.1[g] == gs[g]);
                    assert(st.0[gs[g][j] as int] == g);
                    assert(gs[g][j] != p1) by {
                        if gs[g][j] == p1 {
                            assert(st.0[p1 as int] == g);
                        }
                    }
                }
            }
            assert forall|p: int| 0 <= p < n && #[trigger] r.0[p] != 0 implies r.1.contains_key(r.0[p]) && r.1[r.0[p]].contains(p as usize) by {
                if p == p1 as int {
                    assert(l[gs[g2].len() as int] == p1);
                } else if r.0[p] == g2 {
                    assert(gs[g2].contains(p as usize));
                    let j = choose|j: int| 0 <= j < gs[g2].len() && gs[g2][j] == p as usize;
                    assert(l[j] == p as usize);
                } else {
                    assert(r.1[r.0[p]] == gs[grp[p]]);
                }
            }
            assert forall|g: usize, j: int| #[trigger] r.1.contains_key(g) && 0 <= j < r.1[g].len() implies (#[trigger] r.1[g][j]) < n by {
                if g == g2 && j < gs[g2].len() {
                    assert(l[j] == gs[g2][j]);
                }
            }
        } else if g2 == 0 {
            assert(gs.contains_key(g1));
            let l = gs[g1].push(p2);
            assert forall|g: usize, j: int| #[trigger] r.1.contains_key(g) && 0 <= j < r.1[g].len() implies r.0[(#[trigger] r.1[g][j]) as int] == g by {
                if g == g1 {
                    if j < gs[g1].len() {
                        assert(l[j] == gs[g1][j]);
                        assert(st.0[gs[g1][j] as int] == g1);
                    }
                } else {
                    assert(r.1[g] == gs[g]);
                    assert(st.0[gs[g][j] as int] == g);
                    assert(gs[g][j] != p2) by {
                        if gs[g][j] == p2 {
                            assert(st.0[p2 as int] == g);
                        }
                    }
                }
            }
            assert forall|p: int| 0 <= p < n && #[trigger] r.0[p] != 0 implies r.1.contains_key(r.0[p]) && r.1[r.0[p]].contains(p as usize) by {
                if p == p2 as int {
                    assert(l[gs[g1].len() as int] == p2);
                } else if r.0[p] == g1 {
                    assert(gs[g1].contains(p as usize));
                    let j = choose|j: int| 0 <= j < gs[g1].len() && gs[g1][j] == p as usize;
                    assert(l[j] == p as usize);
                } else {
                    assert(r.1[r.0[p]] == gs[grp[p]]);
                }
            }
            assert forall|g: usize, j: int| #[trigger] r.1.contains_key(g) && 0 <= j < r.1[g].len() implies (#[trigger] r.1[g][j]) < n by {
                if g == g1 && j < gs[g1].len() {
                    assert(l[j] == gs[g1][j]);
                }
            }
        } else {
            assert(gs.contains_key(g1));
            assert(gs.contains_key(g2));
            let m = gs[g1] + gs[g2];
            let rl = relabel(grp, gs[g2], g1);
            assert(gs[g2].contains(p2));
            assert(rl[p2 as int] == g1);
            assert(rl[p1 as int] == g1) by {
                if gs[g2].contains(p1) {
                    let j = choose|j: int| 0 <= j < gs[g2].len() && gs[g2][j] == p1;
                    assert(st.0[p1 as int] == g2);
                }
            }
            assert forall|g: usize, j: int| #[trigger] r.1.contains_key(g) && 0 <= j < r.1[g].len() implies r.0[(#[trigger] r.1[g][j]) as int] == g by {
                if g == g1 {
                    if j < gs[g1].len() {
                        assert(m[j] == gs[g1][j]);
                        let q = gs[g1][j];
                        assert(st.0[q as int] == g1);
                        assert(rl[q as int] == g1);
                    } else {
                        assert(m[j] == gs[g2][j - gs[g1].len()]);
                        assert(gs[g2].contains(m[j]));
                    }
                } else {
                    assert(g != g2);
                    assert(r.1[g] == gs[g]);
                    let q = gs[g][j];
                    assert(st.0[q as int] == g);
                    assert(!gs[g2].contains(q)) by {
                        if gs[g2].contains(q) {
                            let t = choose|t: int| 0 <= t < gs[g2].len() && gs[g2][t] == q;
                            assert(st.0[gs[g2][t] as int] == g2);
                        }
                    }
                    assert(q != p2) by {
                        assert(st.0[p2 as int] == g2);
                    }
                }
            }
            assert forall|p: int| 0 <= p < n && #[trigger] r.0[p] != 0 implies r.1.contains_key(r.0[p]) && r.1[r.0[p]].contains(p as usize) by {
                if gs[g2].contains(p as usize) {
                    let j = choose|j: int| 0 <= j < gs[g2].len() && gs[g2][j] == p as usize;
                    assert(m[gs[g1].len() + j] == p as usize);
                    assert(r.0[p] == g1);
                } else if p == p2 as int {
                    assert(false);
                } else if grp[p] == g1 {
                    assert(gs[g1].contains(p as usize));
                    let j = choose|j: int| 0 <= j < gs[g1].len() && gs[g1][j] == p as usize;
                    assert(m[j] == p as usize);
                } else {
                    assert(r.0[p] == grp[p]);
                    assert(grp[p] != g2) by {
                        if grp[p] == g2 {
                            assert(gs[g2].contains(p as usize));
                        }
                    }
                    assert(r.1[grp[p]] == gs[grp[p]]);
                }
            }
            assert forall|g: usize, j: int| #[trigger] r.1.contains_key(g) && 0 <= j < r.1[g].len() implies (#[trigger] r.1[g][j]) < n by {
                if g == g1 {
                    if j < gs[g1].len() {
                        assert(m[j] == gs[g1][j]);
                    } else {
                        assert(m[j] == gs[g2][j - gs[g1].len()]);
                    }
                }
            }
        }
    }
}

/// Boxes `a` and `b` are the two ends of one of the first `k` pairs.
pub open spec fn edge(pairs: Seq<(usize, usize)>, k: int, a: usize, b: usize) -> bool {
    exists|j: int| 0 <= j < k && (#[trigger] pairs[j] == (a, b) || pairs[j] == (b, a))
}

/// `w` walks from box to box along the first `k` pairs.
pub open spec fn is_walk(pairs: Seq<(usize, usize)>, k: int, w: Seq<usize>) -> bool {
    &&& w.len() >= 1
    &&& forall|i: int| 0 <= i < w.len() - 1 ==> #[trigger] edge(pairs, k, w[i], w[i + 1])
}

/// The first `k` pairs link `x` to `y` (every box is linked to itself).
pub open spec fn joined(pairs: Seq<(usize, usize)>, k: int, x: usize, y: usize) -> bool {
    exists|w: Seq<usize>| #[trigger] is_walk(pairs, k, w) && w[0] == x && w.last() == y
}

/// One of the first `k` pairs names box `x`.
pub open spec fn touched(pairs: Seq<(usize, usize)>, k: int, x: usize) -> bool {
    exists|j: int| 0 <= j < k && ((#[trigger] pairs[j]).0 == x || pairs[j].1 == x)
}

/// `x` and `y` are the same box, or carry the same circuit number.
pub open spec fn same(g: Seq<usize>, x: int, y: int) -> bool {
    x == y || (g[x] != 0 && g[x] == g[y])
}

/// How one pair changes the circuits: the circuits of its two boxes become one, and
/// only its boxes leave "no circuit".
proof fn lemma_step_labels(n: nat, pairs: Seq<(usize, usize)>, k: int)
    requires
        n <= usize::MAX,
        pairs_ok(n, pairs),
        1 <= k <= pairs.len(),
        pairs.len() <= usize::MAX,
    ensures
        run(n, pairs, k).0.len() == n,
        forall|x: int, y: int|
            0 <= x < n && 0 <= y < n ==> (#[trigger] same(run(n, pairs, k).0, x, y) <==> (same(
                run(n, pairs, k - 1).0,
                x,
                y,
            ) || (same(run(n, pairs, k - 1).0, x, pairs[k - 1].0 as int) && same(
                run(n, pairs, k - 1).0,
                pairs[k - 1].1 as int,
                y,
            )) || (same(run(n, pairs, k - 1).0, x, pairs[k - 1].1 as int) && same(
                run(n, pairs, k - 1).0,
                pairs[k - 1].0 as int,
                y,
            )))),
        forall|x: int|
            0 <= x < n ==> ((#[trigger] run(n, pairs, k).0[x] == 0) <==> (run(n, pairs, k - 1).0[x] == 0 && x
                != pairs[k - 1].0 && x != pairs[k - 1].1)),
{
    lemma_run_kept(n, pairs, k - 1);
    let st = run(n, pairs, k - 1);
    let g = st.0;
    let gs = st.1;
    let a = pairs[k - 1].0;
    let b = pairs[k - 1].1;
    assert(pairs[k - 1].0 < n && pairs[k - 1].1 < n);
    let h = run(n, pairs, k).0;
    assert(run(n, pairs, k) == connect(st, k - 1, a, b));
    let ga = g[a as int];
    let gb = g[b as int];
    assert forall|x: int| 0 <= x < n && #[trigger] g[x] != 0 implies 1 <= g[x] <= k - 1 by {
        assert(gs.contains_key(g[x]));
    }
    if ga == gb {
        if gb == 0 {
            assert forall|x: int| 0 <= x < n implies #[trigger] h[x] == (if x == a || x == b {
                k as usize
            } else {
                g[x]
            }) by {}
        } else {
            assert(h =~= g);
        }
    } else if ga == 0 {
        assert forall|x: int| 0 <= x < n implies #[trigger] h[x] == (if x == a {
            gb
        } else {
            g[x]
        }) by {}
    } else if gb == 0 {
        assert forall|x: int| 0 <= x < n implies #[trigger] h[x] == (if x == b {
            ga
        } else {
            g[x]
        }) by {}
    } else {
        let rl = relabel(g, gs[gb], ga);
        assert forall|x: int| 0 <= x < n implies #[trigger] rl[x] == (if g[x] == gb {
            ga
        } else {
            g[x]
        }) by {
            assert((x as usize) as int == x);
            if g[x] == gb {
                assert(gs[gb].contains(x as usize));
            } else if gs[gb].contains(x as usize) {
                let j = choose|j: int| 0 <= j < gs[gb].len() && gs[gb][j] == x as usize;
                assert(g[gs[gb][j] as int] == gb);
            }
        }
        assert forall|x: int| 0 <= x < n implies #[trigger] h[x] == (if g[x] == gb {
            ga
        } else {
            g[x]
        }) by {
            if x == b {
                assert(rl[a as int] == ga);
            }
        }
    }
}

proof fn lemma_walk_mono(pairs: Seq<(usize, usize)>, k1: int, k2: int, w: Seq<usize>)
    requires
        k1 <= k2,
        is_walk(pairs, k1, w),
    ensures
        is_walk(pairs, k2, w),
{
    assert forall|i: int| 0 <= i < w.len() - 1 implies #[trigger] edge(pairs, k2, w[i], w[i + 1]) by {
        assert(edge(pairs, k1, w[i], w[i + 1]));
        let j = choose|j: int| 0 <= j < k1 && (#[trigger] pairs[j] == (w[i], w[i + 1]) || pairs[j] == (w[i + 1], w[i]));
    }
}

proof fn lemma_walk_join(pairs: Seq<(usize, usize)>, k: int, w1: Seq<usize>, w2: Seq<usize>)
    requires
        is_walk(pairs, k, w1),
        is_walk(pairs, k, w2),
        edge(pairs, k, w1.last(), w2[0]),
    ensures
        is_walk(pairs, k, w1 + w2),
        (w1 + w2)[0] == w1[0],
        (w1 + w2).last() == w2.last(),
{
    let w = w1 + w2;
    assert forall|i: int| 0 <= i < w.len() - 1 implies #[trigger] edge(pairs, k, w[i], w[i + 1]) by {
        if i < w1.len() - 1 {
            assert(edge(pairs, k, w1[i], w1[i + 1]));
        } else if i == w1.len() - 1 {
        } else {
            let t = i - w1.len();
            assert(edge(pairs, k, w2[t], w2[t + 1]));
        }
    }
}

/// Along a walk whose every step joins boxes of one circuit, the ends share a circuit.
proof fn lemma_walk_same(n: nat, pairs: Seq<(usize, usize)>, k: int, g: Seq<usize>, w: Seq<usize>)
    requires
        pairs_ok(n, pairs),
        0 <= k <= pairs.len(),
        is_walk(pairs, k, w),
        w[0] < n,
        forall|u: usize, v: usize| u < n && v < n && #[trigger] edge(pairs, k, u, v) ==> same(g, u as int, v as int),
    ensures
        w.last() < n,
        same(g, w[0] as int, w.last() as int),
    decreases w.len(),
{
    if w.len() > 1 {
        let d = w.drop_last();
        assert forall|i: int| 0 <= i < d.len() - 1 implies #[trigger] edge(pairs, k, d[i], d[i + 1]) by {
            assert(edge(pairs, k, w[i], w[i + 1]));
        }
        lemma_walk_same(n, pairs, k, g, d);
        let i = w.len() - 2;
        assert(edge(pairs, k, w[i], w[i + 1]));
        let u = w[i];
        let v = w[i + 1];
        let j = choose|j: int| 0 <= j < k && (#[trigger] pairs[j] == (u, v) || pairs[j] == (v, u));
        assert(pairs[j].0 < n && pairs[j].1 < n);
    }
}

/// Boxes share a circuit exactly when the pairs joined so far link them, and a box is
/// in no circuit exactly when no pair so far names it.
proof fn lemma_linked(n: nat, pairs: Seq<(usize, usize)>, k: int)
    requires
        n <= usize::MAX,
        pairs_ok(n, pairs),
        0 <= k <= pairs.len(),
        pairs.len() <= usize::MAX,
    ensures
        forall|x: usize, y: usize|
            x < n && y < n ==> (same(run(n, pairs, k).0, x as int, y as int) <==> #[trigger] joined(pairs, k, x, y)),
        forall|x: usize| x < n ==> ((run(n, pairs, k).0[x as int] == 0) <==> !#[trigger] touched(pairs, k, x)),
    decreases k,
{
    let g = run(n, pairs, k).0;
    if k == 0 {
        assert forall|x: usize, y: usize| x < n && y < n implies (same(g, x as int, y as int) <==> #[trigger] joined(pairs, k, x, y)) by {
            if x == y {
                assert(is_walk(pairs, k, seq![x]));
            }
            if joined(pairs, k, x, y) {
                let w = choose|w: Seq<usize>| #[trigger] is_walk(pairs, k, w) && w[0] == x && w.last() == y;
                if w.len() > 1 {
                    let i: int = 0;
                    assert(edge(pairs, k, w[i], w[i + 1]));
                }
            }
        }
    } else {
        lemma_linked(n, pairs, k - 1);
        lemma_step_labels(n, pairs, k);
        let g0 = run(n, pairs, k - 1).0;
        let a = pairs[k - 1].0;
        let b = pairs[k - 1].1;
        assert(a < n && b < n);
        assert(edge(pairs, k, a, b));
        assert(edge(pairs, k, b, a));
        assert forall|u: usize, v: usize| u < n && v < n && #[trigger] edge(pairs, k, u, v) implies same(g, u as int, v as int) by {
            let j = choose|j: int| 0 <= j < k && (#[trigger] pairs[j] == (u, v) || pairs[j] == (v, u));
            if j == k - 1 {
                assert(same(g, u as int, v as int));
            } else {
                assert(edge(pairs, k - 1, u, v));
                assert(is_walk(pairs, k - 1, seq![u, v]));
                assert(joined(pairs, k - 1, u, v));
                assert(same(g0, u as int, v as int));
            }
        }
        assert forall|x: usize, y: usize| x < n && y < n implies (same(g, x as int, y as int) <==> #[trigger] joined(pairs, k, x, y)) by {
            if joined(pairs, k, x, y) {
                let w = choose|w: Seq<usize>| #[trigger] is_walk(pairs, k, w) && w[0] == x && w.last() == y;
                lemma_walk_same(n, pairs, k, g, w);
            }
            if same(g, x as int, y as int) {
                if same(g0, x as int, y as int) {
                    assert(joined(pairs, k - 1, x, y));
                    let w = choose|w: Seq<usize>| #[trigger] is_walk(pairs, k - 1, w) && w[0] == x && w.last() == y;
                    lemma_walk_mono(pairs, k - 1, k, w);
                } else if same(g0, x as int, a as int) && same(g0, b as int, y as int) {
                    assert(joined(pairs, k - 1, x, a));
                    assert(joined(pairs, k - 1, b, y));
                    let w1 = choose|w: Seq<usize>| #[trigger] is_walk(pairs, k - 1, w) && w[0] == x && w.last() == a;
                    let w2 = choose|w: Seq<usize>| #[trigger] is_walk(pairs, k - 1, w) && w[0] == b && w.last() == y;
                    lemma_walk_mono(pairs, k - 1, k, w1);
                    lemma_walk_mono(pairs, k - 1, k, w2);
                    lemma_walk_join(pairs, k, w1, w2);
                    assert(is_walk(pairs, k, w1 + w2));
                } else {
                    assert(same(g0, x as int, b as int) && same(g0, a as int, y as int));
                    assert(joined(pairs, k - 1, x, b));
                    assert(joined(pairs, k - 1, a, y));
                    let w1 = choose|w: Seq<usize>| #[trigger] is_walk(pairs, k - 1, w) && w[0] == x && w.last() == b;
                    let w2 = choose|w: Seq<usize>| #[trigger] is_walk(pairs, k - 1, w) && w[0] == a && w.last() == y;
                    lemma_walk_mono(pairs, k - 1, k, w1);
                    lemma_walk_mono(pairs, k - 1, k, w2);
                    lemma_walk_join(pairs, k, w1, w2);
                    assert(is_walk(pairs, k, w1 + w2));
                }
            }
        }
        assert forall|x: usize| x < n implies ((g[x as int] == 0) <==> !#[trigger] touched(pairs, k, x)) by {
            if touched(pairs, k, x) {
                let j = choose|j: int| 0 <= j < k && ((#[trigger] pairs[j]).0 == x || pairs[j].1 == x);
                if j < k - 1 {
                    assert(touched(pairs, k - 1, x));
                }
            }
            if touched(pairs, k - 1, x) {
                let j = choose|j: int| 0 <= j < k - 1 && ((#[trigger] pairs[j]).0 == x || pairs[j].1 == x);
                assert(touched(pairs, k, x));
            }
            if x == a || x == b {
                assert(touched(pairs, k, x));
            }
        }
    }
}

/// Two boxes are in one circuit after the first `k` pairs exactly when those pairs link
/// them; a box is in no circuit exactly when none of those pairs names it.
pub proof fn circuits_are_linked_boxes(n: nat, pairs: Seq<(usize, usize)>, k: int, x: usize, y: usize)
    requires
        n <= usize::MAX,
        pairs_ok(n, pairs),
        0 <= k <= pairs.len(),
        pairs.len() <= usize::MAX,
        x < n,
        y < n,
    ensures
        (x == y || (run(n, pairs, k).0[x as int] != 0 && run(n, pairs, k).0[x as int] == run(n, pairs, k).0[y as int]))
            <==> joined(pairs, k, x, y),
        run(n, pairs, k).0[x as int] == 0 <==> !touched(pairs, k, x),
{
    lemma_linked(n, pairs, k);
    assert(joined(pairs, k, x, y) == same(run(n, pairs, k).0, x as int, y as int));
    assert(touched(pairs, k, x) == (run(n, pairs, k).0[x as int] != 0));
}

/// No circuit lists a box twice, when every pair names two different boxes.
proof fn lemma_run_distinct(n: nat, pairs: Seq<(usize, usize)>, k: int)
    requires
        n <= usize::MAX,
        pairs_ok(n, pairs),
        0 <= k <= pairs.len(),
        pairs.len() <= usize::MAX,
        forall|j: int| 0 <= j < pairs.len() ==> (#[trigger] pairs[j]).0 != pairs[j].1,
    ensures
        forall|c: usize| #[trigger] run(n, pairs, k).1.contains_key(c) ==> run(n, pairs, k).1[c].no_duplicates(),
    decreases k,
{
    if k > 0 {
        lemma_run_distinct(n, pairs, k - 1);
        lemma_run_kept(n, pairs, k - 1);
        let st = run(n, pairs, k - 1);
        let g = st.0;
        let gs = st.1;
        let a = pairs[k - 1].0;
        let b = pairs[k - 1].1;
        assert(a < n && b < n && a != b);
        let r = run(n, pairs, k);
        assert(r == connect(st, k - 1, a, b));
        let ga = g[a as int];
        let gb = g[b as int];
        if ga == gb {
            if gb == 0 {
                assert(seq![a, b].no_duplicates());
            }
        } else if ga == 0 {
            assert(!gs[gb].contains(a)) by {
                if gs[gb].contains(a) {
                    let j = choose|j: int| 0 <= j < gs[gb].len() && gs[gb][j] == a;
                    assert(g[gs[gb][j] as int] == gb);
                }
            }
            let l = gs[gb].push(a);
            assert(l.no_duplicates()) by {
                assert forall|i: int, j: int| 0 <= i < l.len() && 0 <= j < l.len() && i != j implies l[i] != l[j] by {
                    if i < gs[gb].len() && j < gs[gb].len() {
                        assert(gs[gb].no_duplicates());
                    } else if i < gs[gb].len() {
                        assert(gs[gb].contains(l[i]));
                    } else if j < gs[gb].len() {
                        assert(gs[gb].contains(l[j]));
                    }
                }
            }
        } else if gb == 0 {
            assert(!gs[ga].contains(b)) by {
                if gs[ga].contains(b) {
                    let j = choose|j: int| 0 <= j < gs[ga].len() && gs[ga][j] == b;
                    assert(g[gs[ga][j] as int] == ga);
                }
            }
            let l = gs[ga].push(b);
            assert(l.no_duplicates()) by {
                assert forall|i: int, j: int| 0 <= i < l.len() && 0 <= j < l.len() && i != j implies l[i] != l[j] by {
                    if i < gs[ga].len() && j < gs[ga].len() {
                        assert(gs[ga].no_duplicates());
                    } else if i < gs[ga].len() {
                        assert(gs[ga].contains(l[i]));
                    } else if j < gs[ga].len() {
                        assert(gs[ga].contains(l[j]));
                    }
                }
            }
        } else {
            assert(gs.contains_key(ga) && gs.contains_key(gb));
            assert forall|i: int, j: int| 0 <= i < gs[ga].len() && 0 <= j < gs[gb].len() implies gs[ga][i] != gs[gb][j] by {
                assert(g[gs[ga][i] as int] == ga);
                assert(g[gs[gb][j] as int] == gb);
            }
            vstd::seq_lib::lemma_no_dup_in_concat(gs[ga], gs[gb]);
        }
    }
}

/// Each circuit lists every box of it exactly once: its length is the number of boxes
/// that carry its number (given that every pair names two different boxes).
pub proof fn circuit_sizes_count_boxes(n: nat, pairs: Seq<(usize, usize)>, k: int, c: usize)
    requires
        n <= usize::MAX,
        pairs_ok(n, pairs),
        0 <= k <= pairs.len(),
        pairs.len() <= usize::MAX,
        forall|j: int| 0 <= j < pairs.len() ==> (#[trigger] pairs[j]).0 != pairs[j].1,
        run(n, pairs, k).1.contains_key(c),
    ensures
        run(n, pairs, k).1[c].len() == Set::new(|x: usize| x < n && run(n, pairs, k).0[x as int] == c).len(),
{
    lemma_run_kept(n, pairs, k);
    lemma_run_distinct(n, pairs, k);
    let st = run(n, pairs, k);
    let l = st.1[c];
    let members = Set::new(|x: usize| x < n && st.0[x as int] == c);
    assert(l.to_set() =~= members) by {
        assert forall|x: usize| l.to_set().contains(x) <==> members.contains(x) by {
            if l.contains(x) {
                let j = choose|j: int| 0 <= j < l.len() && l[j] == x;
                assert(st.0[l[j] as int] == c);
            }
            if members.contains(x) {
                assert(c >= 1);
                assert(st.1[st.0[x as int]].contains(x));
            }
        }
    }
    l.unique_seq_to_set();
}

pub open spec fn groups_view(m: Map<usize, Vec<usize>>) -> Map<usize, Seq<usize>> {
    m.map_values(|v: Vec<usize>| v@)
}

/// Joins `p1` and `p2` as the `i`-th pair.
fn connect_step(
    grp: &mut Vec<usize>,
    groups: &mut HashMap<usize, Vec<usize>>,
    i: usize,
    p1: usize,
    p2: usize,
    Ghost(n): Ghost<nat>,
)
    requires
        kept(n, (old(grp)@, groups_view(old(groups)@)), i as int),
        p1 < n,
        p2 < n,
        i < usize::MAX,
    ensures
        (final(grp)@, groups_view(final(groups)@)) == connect((old(grp)@, groups_view(old(groups)@)), i as int, p1, p2),
{
    let ghost st: Circuits = (grp@, groups_view(groups@));
    let ghost gs = st.1;
    let g1 = grp[p1];
    let g2 = grp[p2];
    if g1 == g2 {
        if g2 == 0 {
            assert(!gs.contains_key((i + 1) as usize));
            groups.insert(i + 1, vec![p1, p2]);
            grp.set(p1, i + 1);
            grp.set(p2, i + 1);
            assert(groups_view(groups@) =~= gs.insert((i + 1) as usize, seq![p1, p2]));
        }
    } else if g1 == 0 {
        assert(gs.contains_key(g2));
        let mut v = groups.remove(&g2).unwrap();
        v.push(p1);
        groups.insert(g2, v);
        grp.set(p1, g2);
        assert(groups_view(groups@) =~= gs.insert(g2, gs[g2].push(p1)));
    } else if g2 == 0 {
        assert(gs.contains_key(g1));
        let mut v = groups.remove(&g1).unwrap();
        v.push(p2);
        groups.insert(g1, v);
        grp.set(p2, g1);
        assert(groups_view(groups@) =~= gs.insert(g1, gs[g1].push(p2)));
    } else {
        assert(gs.contains_key(g1));
        assert(gs.contains_key(g2));
        let tmp = groups.remove(&g2).unwrap();
        let mut v1 = groups.remove(&g1).unwrap();
        assert(tmp@ == gs[g2]);
        assert(v1@ == gs[g1]);
        let ghost grp0 = grp@;
        assert(grp0.len() == grp.len());
        let mut t: usize = 0;
        while t < tmp.len()
            invariant
                t <= tmp.len(),
                grp@.len() == n,
                grp0.len() == n,
                n <= usize::MAX,
                forall|j: int| 0 <= j < tmp@.len() ==> tmp@[j] < n,
                grp@ == relabel(grp0, tmp@.take(t as int), g1),
            decreases tmp.len() - t,
        {
            let m = tmp[t];
            grp.set(m, g1);
            t += 1;
            assert(grp@ =~= relabel(grp0, tmp@.take(t as int), g1)) by {
                let cur = tmp@.take(t as int);
                let pre = tmp@.take(t - 1);
                assert forall|p: int| 0 <= p < n implies grp@[p] == relabel(grp0, cur, g1)[p] by {
                    if cur.contains(p as usize) && p != m {
                        let j = choose|j: int| 0 <= j < cur.len() && cur[j] == p as usize;
                        assert(j < t - 1) by {
                            if j == t - 1 {
                                assert(cur[j] == m);
                            }
                        }
                        assert(pre[j] == p as usize);
                    }
                    if pre.contains(p as usize) {
                        let j = choose|j: int| 0 <= j < pre.len() && pre[j] == p as usize;
                        assert(cur[j] == p as usize);
                    }
                    if p == m {
                        assert(cur[t - 1] == m);
                    }
                }
            }
        }
        assert(tmp@.take(tmp.len() as int) =~= tmp@);
        let ghost v10 = v1@;
        let mut t: usize = 0;
        while t < tmp.len()
            invariant
                t <= tmp.len(),
                v1@ == v10 + tmp@.take(t as int),
            decreases tmp.len() - t,
        {
            v1.push(tmp[t]);
            t += 1;
            assert(v1@ =~= v10 + tmp@.take(t as int));
        }
        groups.insert(g1, v1);
        assert(groups_view(groups@) =~= gs.remove(g2).insert(g1, gs[g1] + gs[g2]));
    }
    let q = grp[p1];
    grp.set(p2, q);
}

/// The sizes of the circuits numbered `1..=j`, in order of number.
pub open spec fn sizes_upto(gs: Map<usize, Seq<usize>>, j: int) -> Seq<usize>
    decreases j,
{
    if j <= 0 {
        Seq::empty()
    } else {
        let s = sizes_upto(gs, j - 1);
        if gs.contains_key(j as usize) {
            s.push(gs[j as usize].len() as usize)
        } else {
            s
        }
    }
}

/// Inserts `x` after every element at least as large.
pub open spec fn insert_desc(sorted: Seq<usize>, x: usize) -> Seq<usize>
    decreases sorted.len(),
{
    if sorted.len() == 0 {
        seq![x]
    } else if sorted.last() >= x {
        sorted.push(x)
    } else {
        insert_desc(sorted.drop_last(), x).push(sorted.last())
    }
}

/// The sizes, largest first.
pub open spec fn sort_desc(s: Seq<usize>) -> Seq<usize>
    decreases s.len(),
{
    if s.len() == 0 {
        s
    } else {
        insert_desc(sort_desc(s.drop_last()), s.last())
    }
}

proof fn lemma_insert_desc_at(s: Seq<usize>, x: usize, j: int)
    requires
        0 <= j <= s.len(),
        j > 0 ==> s[j - 1] >= x,
        forall|k: int| j <= k < s.len() ==> #[trigger] s[k] < x,
    ensures
        insert_desc(s, x) == s.insert(j, x),
    decreases s.len(),
{
    if s.len() == 0 {
        assert(s.insert(j, x) =~= seq![x]);
    } else if j == s.len() {
        assert(s.insert(j, x) =~= s.push(x));
    } else {
        let d = s.drop_last();
        assert(s[s.len() - 1] < x);
        lemma_insert_desc_at(d, x, j);
        assert(d.insert(j, x).push(s.last()) =~= s.insert(j, x));
    }
}

fn sort_sizes(v: &Vec<usize>) -> (r: Vec<usize>)
    ensures
        r@ == sort_desc(v@),
{
    let mut out: Vec<usize> = Vec::new();
    let mut i: usize = 0;
    while i < v.len()
        invariant
            i <= v.len(),
            out@ == sort_desc(v@.take(i as int)),
        decreases v.len() - i,
    {
        let x = v[i];
        let mut j: usize = out.len();
        while j > 0 && out[j - 1] < x
            invariant
                j <= out.len(),
                forall|k: int| j <= k < out.len() ==> #[trigger] out@[k] < x,
            decreases j,
        {
            j -= 1;
        }
        proof {
            lemma_insert_desc_at(out@, x, j as int);
            assert(v@.take(i + 1).drop_last() =~= v@.take(i as int));
            assert(v@.take(i + 1).last() == x);
        }
        out.insert(j, x);
        i += 1;
    }
    assert(v@.take(v.len() as int) =~= v@);
    out
}

/// How many pairs are joined for `iterations`.
pub open spec fn processed(len: int, iterations: int) -> int {
    if iterations <= 0 {
        0
    } else if iterations >= len {
        len
    } else {
        iterations
    }
}

/// The circuit sizes, largest first, after the pairs joined for `iterations`.
pub open spec fn top_sizes(n: nat, pairs: Seq<(usize, usize)>, iterations: int) -> Seq<usize> {
    let k = processed(pairs.len() as int, iterations);
    sort_desc(sizes_upto(run(n, pairs, k).1, k))
}

/// Joins the first `iterations` pairs and lists the sizes of the circuits, largest first.
pub fn circuit_sizes(n: usize, pairs: &Vec<(usize, usize)>, iterations: i32) -> (r: Vec<usize>)
    requires
        pairs_ok(n as nat, pairs@),
        pairs@.len() <= i32::MAX,
        iterations > i32::MIN,
    ensures
        r@ == top_sizes(n as nat, pairs@, iterations as int),
{
    let mut grp: Vec<usize> = Vec::new();
    let mut z: usize = 0;
    while z < n
        invariant
            z <= n,
            grp@ == Seq::new(z as nat, |p: int| 0usize),
        decreases n - z,
    {
        grp.push(0);
        z += 1;
        assert(grp@ =~= Seq::new(z as nat, |p: int| 0usize));
    }
    let mut groups: HashMap<usize, Vec<usize>> = HashMap::new();
    assert(groups_view(groups@) =~= Map::<usize, Seq<usize>>::empty());
    let lim = iterations - 1;
    let mut i: usize = 0;
    while i < pairs.len() && (i as i32) <= lim
        invariant
            i <= pairs.len(),
            pairs@.len() <= i32::MAX,
            lim == iterations - 1,
            pairs_ok(n as nat, pairs@),
            i <= processed(pairs@.len() as int, iterations as int),
            (grp@, groups_view(groups@)) == run(n as nat, pairs@, i as int),
        decreases pairs.len() - i,
    {
        proof {
            lemma_run_kept(n as nat, pairs@, i as int);
        }
        let (p1, p2) = pairs[i];
        assert(pairs@[i as int].0 < n && pairs@[i as int].1 < n);
        connect_step(&mut grp, &mut groups, i, p1, p2, Ghost(n as nat));
        i += 1;
    }
    let ghost k = processed(pairs@.len() as int, iterations as int);
    assert(i == k);
    let ghost gs = groups_view(groups@);
    let mut sizes: Vec<usize> = Vec::new();
    let mut key: usize = 1;
    while key <= i
        invariant
            1 <= key <= i + 1,
            i <= pairs@.len(),
            pairs@.len() <= i32::MAX,
            gs == groups_view(groups@),
            sizes@ == sizes_upto(gs, key - 1),
        decreases i + 1 - key,
    {
        match groups.get(&key) {
            Some(v) => {
                assert(gs.contains_key(key));
                sizes.push(v.len());
            },
            None => {
                assert(!gs.contains_key(key));
            },
        }
        key += 1;
    }
    sort_sizes(&sizes)
}

/// Joins the first `iterations` pairs and multiplies the sizes of the three largest
/// circuits (the product converted to `i32` as `as` does).
pub fn largest_circuits(n: usize, pairs: &Vec<(usize, usize)>, iterations: i32) -> (r: i32)
    requires
        pairs_ok(n as nat, pairs@),
        pairs@.len() <= i32::MAX,
        iterations > i32::MIN,
        top_sizes(n as nat, pairs@, iterations as int).len() >= 3,
        top_sizes(n as nat, pairs@, iterations as int)[0] * top_sizes(n as nat, pairs@, iterations as int)[1]
            <= usize::MAX,
        top_sizes(n as nat, pairs@, iterations as int)[0] * top_sizes(n as nat, pairs@, iterations as int)[1]
            * top_sizes(n as nat, pairs@, iterations as int)[2] <= usize::MAX,
    ensures
        r == (top_sizes(n as nat, pairs@, iterations as int)[0] * top_sizes(n as nat, pairs@, iterations as int)[1]
            * top_sizes(n as nat, pairs@, iterations as int)[2]) as i32,
{
    let sorted = circuit_sizes(n, pairs, iterations);
    let a = sorted[0] * sorted[1] * sorted[2];
    a as i32
}

/// Every box is in a circuit, and there is a single circuit.
pub open spec fn all_joined(st: Circuits) -> bool {
    !(st.1.len() > 1 || exists|p: int| 0 <= p < st.0.len() && #[trigger] st.0[p] == 0)
}

/// Joins the pairs in order until all boxes form one circuit, and returns the pair
/// that completed it.
pub fn last_connection(n: usize, pairs: &Vec<(usize, usize)>) -> (r: (usize, usize))
    requires
        pairs_ok(n as nat, pairs@),
        exists|k: int| 0 <= k < pairs@.len() && #[trigger] all_joined(run(n as nat, pairs@, k + 1)),
    ensures
        exists|k: int|
            0 <= k < pairs@.len() && r == pairs@[k] && all_joined(run(n as nat, pairs@, k + 1)) && forall|j: int|
                0 <= j < k ==> !#[trigger] all_joined(run(n as nat, pairs@, j + 1)),
{
    let mut grp: Vec<usize> = Vec::new();
    let mut z: usize = 0;
    while z < n
        invariant
            z <= n,
            grp@ == Seq::new(z as nat, |p: int| 0usize),
        decreases n - z,
    {
        grp.push(0);
        z += 1;
        assert(grp@ =~= Seq::new(z as nat, |p: int| 0usize));
    }
    let mut groups: HashMap<usize, Vec<usize>> = HashMap::new();
    assert(groups_view(groups@) =~= Map::<usize, Seq<usize>>::empty());
    let mut i: usize = 0;
    while i < pairs.len()
        invariant
            i <= pairs.len(),
            pairs_ok(n as nat, pairs@),
            (grp@, groups_view(groups@)) == run(n as nat, pairs@, i as int),
            forall|j: int| 0 <= j < i ==> !#[trigger] all_joined(run(n as nat, pairs@, j + 1)),
        decreases pairs.len() - i,
    {
        proof {
            lemma_run_kept(n as nat, pairs@, i as int);
        }
        let (p1, p2) = pairs[i];
        assert(pairs@[i as int].0 < n && pairs@[i as int].1 < n);
        connect_step(&mut grp, &mut groups, i, p1, p2, Ghost(n as nat));
        let mut check = false;
        let mut p: usize = 0;
        while p < grp.len()
            invariant
                p <= grp.len(),
                check <==> exists|q: int| 0 <= q < p && #[trigger] grp@[q] == 0,
            decreases grp.len() - p,
        {
            if grp[p] == 0 {
                check = true;
            }
            p += 1;
        }
        let a = groups.len() > 1 || check;
        proof {
            assert(groups_view(groups@).dom() =~= groups@.dom());
            assert(groups_view(groups@).len() == groups@.len());
            assert(pairs@[i as int] == (p1, p2));
            assert((grp@, groups_view(groups@)) == run(n as nat, pairs@, i + 1));
            if a {
                if check {
                    let q = choose|q: int| 0 <= q < p && #[trigger] grp@[q] == 0;
                    assert(run(n as nat, pairs@, i + 1).0[q] == 0);
                } else {
                    assert(groups@.len() > 1);
                }
                assert(!all_joined(run(n as nat, pairs@, i + 1)));
            }
        }
        if !a {
            return (p1, p2);
        }
        i += 1;
    }
    proof {
        let k = choose|k: int| 0 <= k < pairs@.len() && #[trigger] all_joined(run(n as nat, pairs@, k + 1));
        assert(!all_joined(run(n as nat, pairs@, k + 1)));
    }
    (0, 0)
}

} // verus!
