//! What the path counts of the device graph count: the walks along outputs, through
//! allowed devices, that end at a device without outputs.
use vstd::prelude::*;
use vstd::relations::injective_on;
use crate::devices::{bounded, kids_sum, lemma_bounded_child, ok_child, paths, walk, Graph};

verus! {

/// The walks from `v` through allowed devices that end at a device without outputs.
pub open spec fn leaf_walks(g: Graph, d: Seq<bool>, f: Seq<bool>, all: bool, v: int) -> Set<Seq<int>> {
    Set::new(|p: Seq<int>| walk(g, d, f, all, p) && p[0] == v && g.kids(p.last()).len() == 0)
}

/// No device lists one output twice.
pub open spec fn simple_outputs(g: Graph) -> bool {
    forall|u: int| 0 <= u < g.n() ==> (#[trigger] g.kids(u)).no_duplicates()
}

/// The leaf walks from `v` that go on to one of its first `j` outputs.
pub open spec fn walks_via(g: Graph, d: Seq<bool>, f: Seq<bool>, all: bool, v: int, j: int) -> Set<Seq<int>> {
    Set::new(
        |p: Seq<int>|
            leaf_walks(g, d, f, all, v).contains(p) && p.len() >= 2 && exists|i: int|
                0 <= i < j && p[1] == #[trigger] g.kids(v)[i] as int,
    )
}

/// The walks from `v` that go on with a leaf walk from `c`.
pub open spec fn prefixed(v: int, s: Set<Seq<int>>) -> Set<Seq<int>> {
    s.map(|q: Seq<int>| seq![v] + q)
}

proof fn lemma_walk_prepend(g: Graph, d: Seq<bool>, f: Seq<bool>, all: bool, v: int, q: Seq<int>)
    requires
        0 <= v < g.n(),
        walk(g, d, f, all, q),
        g.kids(v).contains(q[0] as usize),
        ok_child(d, f, all, q[0]),
    ensures
        walk(g, d, f, all, seq![v] + q),
{
    let p = seq![v] + q;
    assert forall|i: int| 1 <= i < p.len() implies g.kids(p[i - 1]).contains(#[trigger] p[i] as usize) && 0 <= p[i]
        < g.n() && ok_child(d, f, all, p[i]) by {
        assert(p[i] == q[i - 1]);
        if i > 1 {
            assert(p[i - 1] == q[i - 2]);
            assert(g.kids(q[(i - 1) - 1]).contains(q[i - 1] as usize));
        }
    }
}

proof fn lemma_walk_tail(g: Graph, d: Seq<bool>, f: Seq<bool>, all: bool, p: Seq<int>)
    requires
        walk(g, d, f, all, p),
        p.len() >= 2,
    ensures
        walk(g, d, f, all, p.skip(1)),
        p =~= seq![p[0]] + p.skip(1),
        g.kids(p[0]).contains(p[1] as usize),
        ok_child(d, f, all, p[1]),
{
    let q = p.skip(1);
    assert(g.kids(p[1 - 1]).contains(p[1] as usize));
    assert forall|i: int| 1 <= i < q.len() implies g.kids(q[i - 1]).contains(#[trigger] q[i] as usize) && 0 <= q[i]
        < g.n() && ok_child(d, f, all, q[i]) by {
        assert(q[i] == p[i + 1]);
        assert(q[i - 1] == p[(i + 1) - 1]);
    }
}

/// The paths count of `v` is the number of leaf walks from `v`.
proof fn lemma_paths_walks(g: Graph, d: Seq<bool>, f: Seq<bool>, all: bool, v: int, bound: nat)
    requires
        g.wf(),
        g.n() <= usize::MAX,
        simple_outputs(g),
        0 <= v < g.n(),
        bounded(g, d, f, all, v, bound),
    ensures
        leaf_walks(g, d, f, all, v).finite(),
        paths(g, d, f, all, v, bound) == leaf_walks(g, d, f, all, v).len(),
    decreases bound, 1int, 0int,
{
    let lw = leaf_walks(g, d, f, all, v);
    assert(walk(g, d, f, all, seq![v]));
    let k = g.kids(v).len() as int;
    if k == 0 {
        assert(lw =~= set![seq![v]]) by {
            assert forall|p: Seq<int>| lw.contains(p) implies p == seq![v] by {
                if p.len() >= 2 {
                    lemma_walk_tail(g, d, f, all, p);
                }
                assert(p =~= seq![v]);
            }
            assert(seq![v].last() == v);
        }
    } else {
        lemma_kids_walks(g, d, f, all, v, bound, k);
        assert(lw =~= walks_via(g, d, f, all, v, k)) by {
            assert forall|p: Seq<int>| lw.contains(p) implies walks_via(g, d, f, all, v, k).contains(p) by {
                if p.len() < 2 {
                    assert(p.last() == p[0]);
                }
                lemma_walk_tail(g, d, f, all, p);
                let i = choose|i: int| 0 <= i < g.kids(v).len() && g.kids(v)[i] == p[1] as usize;
                assert((p[1] as usize) as int == p[1]);
                assert(p[1] == g.kids(v)[i] as int);
            }
        }
    }
}

/// Of the first `j` outputs of `v`, the allowed ones together start exactly `kids_sum`
/// leaf walks.
proof fn lemma_kids_walks(g: Graph, d: Seq<bool>, f: Seq<bool>, all: bool, v: int, bound: nat, j: int)
    requires
        g.wf(),
        g.n() <= usize::MAX,
        simple_outputs(g),
        0 <= v < g.n(),
        bounded(g, d, f, all, v, bound),
        0 <= j <= g.kids(v).len(),
    ensures
        bound >= 1,
        walks_via(g, d, f, all, v, j).finite(),
        kids_sum(g, d, f, all, v, j, (bound - 1) as nat) == walks_via(g, d, f, all, v, j).len(),
    decreases bound, 0int, j,
{
    assert(walk(g, d, f, all, seq![v]));
    let cur = walks_via(g, d, f, all, v, j);
    if j == 0 {
        assert(cur =~= Set::<Seq<int>>::empty());
    } else {
        lemma_kids_walks(g, d, f, all, v, bound, j - 1);
        let prev = walks_via(g, d, f, all, v, j - 1);
        let c = g.kids(v)[j - 1] as int;
        assert(g.kids(v).contains(c as usize));
        assert(0 <= c < g.n());
        assert(g.kids(v).no_duplicates());
        if ok_child(d, f, all, c) {
            lemma_bounded_child(g, d, f, all, v, c, bound);
            lemma_paths_walks(g, d, f, all, c, (bound - 1) as nat);
            let lc = leaf_walks(g, d, f, all, c);
            let pre = prefixed(v, lc);
            let h = |q: Seq<int>| seq![v] + q;
            assert(injective_on(h, lc)) by {
                assert forall|q1: Seq<int>, q2: Seq<int>| lc.contains(q1) && lc.contains(q2) && #[trigger] h(q1) == #[trigger] h(q2) implies q1 == q2 by {
                    assert(q1 =~= h(q1).skip(1));
                    assert(q2 =~= h(q2).skip(1));
                }
            }
            vstd::set_lib::lemma_map_size(lc, pre, h);
            assert(cur =~= prev + pre) by {
                assert forall|p: Seq<int>| cur.contains(p) <==> (prev + pre).contains(p) by {
                    if cur.contains(p) && !prev.contains(p) {
                        let i = choose|i: int| 0 <= i < j && p[1] == #[trigger] g.kids(v)[i] as int;
                        if i < j - 1 {
                            assert(prev.contains(p));
                        }
                        lemma_walk_tail(g, d, f, all, p);
                        let q = p.skip(1);
                        assert(q.last() == p.last());
                        assert(lc.contains(q));
                        assert(h(q) =~= p);
                    }
                    if pre.contains(p) {
                        let q = choose|q: Seq<int>| lc.contains(q) && h(q) == p;
                        lemma_walk_prepend(g, d, f, all, v, q);
                        assert(p.last() == q.last());
                        assert(p[1] == q[0]);
                        assert(p[1] == g.kids(v)[j - 1] as int);
                    }
                    if prev.contains(p) {
                        let i = choose|i: int| 0 <= i < j - 1 && p[1] == #[trigger] g.kids(v)[i] as int;
                        assert(p[1] == g.kids(v)[i] as int);
                    }
                }
            }
            assert(prev.disjoint(pre)) by {
                assert forall|p: Seq<int>| prev.contains(p) implies !pre.contains(p) by {
                    if pre.contains(p) {
                        let q = choose|q: Seq<int>| lc.contains(q) && h(q) == p;
                        let i = choose|i: int| 0 <= i < j - 1 && p[1] == #[trigger] g.kids(v)[i] as int;
                        assert(p[1] == q[0]);
                        assert(g.kids(v)[i] != g.kids(v)[j - 1]);
                    }
                }
            }
            vstd::set_lib::lemma_set_disjoint_lens(prev, pre);
        } else {
            assert(cur =~= prev) by {
                assert forall|p: Seq<int>| cur.contains(p) implies prev.contains(p) by {
                    let i = choose|i: int| 0 <= i < j && p[1] == #[trigger] g.kids(v)[i] as int;
                    lemma_walk_tail(g, d, f, all, p);
                    if i == j - 1 {
                        assert(ok_child(d, f, all, p[1]));
                    }
                }
            }
        }
    }
}

/// Some walk from `u` through allowed devices has exactly `k` devices.
pub open spec fn walk_of_len(g: Graph, d: Seq<bool>, f: Seq<bool>, all: bool, u: int, k: nat) -> bool {
    exists|p: Seq<int>| #[trigger] walk(g, d, f, all, p) && p[0] == u && p.len() == k
}

/// The most devices of a walk from `u`, counted up to `r + 1`.
pub open spec fn reach_len(g: Graph, d: Seq<bool>, f: Seq<bool>, all: bool, u: int, r: nat) -> nat
    decreases r, 1int, 0int,
{
    if r == 0 {
        1
    } else {
        1 + kids_max(g, d, f, all, u, g.kids(u).len() as int, (r - 1) as nat)
    }
}

/// The largest `reach_len` over the allowed devices among the first `j` outputs of `u`.
pub open spec fn kids_max(g: Graph, d: Seq<bool>, f: Seq<bool>, all: bool, u: int, j: int, r: nat) -> nat
    decreases r, 2int, j,
{
    if j <= 0 {
        0
    } else {
        let a = kids_max(g, d, f, all, u, j - 1, r);
        let c = g.kids(u)[j - 1] as int;
        let b = if ok_child(d, f, all, c) {
            reach_len(g, d, f, all, c, r)
        } else {
            0
        };
        if a >= b {
            a
        } else {
            b
        }
    }
}

proof fn lemma_reach_len_bounds(g: Graph, d: Seq<bool>, f: Seq<bool>, all: bool, u: int, r: nat)
    ensures
        1 <= reach_len(g, d, f, all, u, r) <= r + 1,
    decreases r, 1int, 0int,
{
    if r > 0 {
        lemma_kids_max_bounds(g, d, f, all, u, g.kids(u).len() as int, (r - 1) as nat);
    }
}

proof fn lemma_kids_max_bounds(g: Graph, d: Seq<bool>, f: Seq<bool>, all: bool, u: int, j: int, r: nat)
    ensures
        kids_max(g, d, f, all, u, j, r) <= r + 1,
    decreases r, 2int, j,
{
    if j > 0 {
        lemma_kids_max_bounds(g, d, f, all, u, j - 1, r);
        lemma_reach_len_bounds(g, d, f, all, g.kids(u)[j - 1] as int, r);
    }
}

/// A walk of `k` devices from `u`, with `k <= r + 1`, shows in `reach_len`.
proof fn lemma_walk_shows(g: Graph, d: Seq<bool>, f: Seq<bool>, all: bool, p: Seq<int>, r: nat)
    requires
        g.n() <= usize::MAX,
        walk(g, d, f, all, p),
        p.len() <= r + 1,
    ensures
        reach_len(g, d, f, all, p[0], r) >= p.len(),
    decreases p.len(),
{
    lemma_reach_len_bounds(g, d, f, all, p[0], r);
    if p.len() >= 2 {
        lemma_walk_tail(g, d, f, all, p);
        let q = p.skip(1);
        lemma_walk_shows(g, d, f, all, q, (r - 1) as nat);
        let u = p[0];
        let i = choose|i: int| 0 <= i < g.kids(u).len() && g.kids(u)[i] == p[1] as usize;
        assert((p[1] as usize) as int == p[1]);
        assert(g.kids(u)[i] as int == p[1]);
        lemma_kids_max_at(g, d, f, all, u, g.kids(u).len() as int, i, (r - 1) as nat);
    }
}

proof fn lemma_kids_max_at(g: Graph, d: Seq<bool>, f: Seq<bool>, all: bool, u: int, j: int, i: int, r: nat)
    requires
        0 <= i < j <= g.kids(u).len(),
        ok_child(d, f, all, g.kids(u)[i] as int),
    ensures
        kids_max(g, d, f, all, u, j, r) >= reach_len(g, d, f, all, g.kids(u)[i] as int, r),
    decreases j,
{
    if i < j - 1 {
        lemma_kids_max_at(g, d, f, all, u, j - 1, i, r);
    }
}

/// `reach_len` is the length of a walk: every length up to it is reached.
proof fn lemma_reach_walks(g: Graph, d: Seq<bool>, f: Seq<bool>, all: bool, u: int, r: nat, k: nat)
    requires
        g.wf(),
        g.n() <= usize::MAX,
        0 <= u < g.n(),
        1 <= k <= reach_len(g, d, f, all, u, r),
    ensures
        walk_of_len(g, d, f, all, u, k),
    decreases r,
{
    assert(walk(g, d, f, all, seq![u]));
    if k >= 2 {
        let n = g.kids(u).len() as int;
        let (i, c) = lemma_kids_max_witness(g, d, f, all, u, n, (r - 1) as nat);
        lemma_reach_walks(g, d, f, all, c, (r - 1) as nat, (k - 1) as nat);
        let q = choose|q: Seq<int>| #[trigger] walk(g, d, f, all, q) && q[0] == c && q.len() == k - 1;
        assert(g.kids(u).contains(q[0] as usize)) by {
            assert(g.kids(u)[i] == c as usize);
        }
        lemma_walk_prepend(g, d, f, all, u, q);
        assert((seq![u] + q)[0] == u);
    }
}

/// A largest output, when `kids_max` is positive.
proof fn lemma_kids_max_witness(g: Graph, d: Seq<bool>, f: Seq<bool>, all: bool, u: int, j: int, r: nat) -> (ic: (int, int))
    requires
        g.wf(),
        0 <= u < g.n(),
        0 <= j <= g.kids(u).len(),
        kids_max(g, d, f, all, u, j, r) >= 1,
    ensures
        0 <= ic.0 < j,
        ic.1 == g.kids(u)[ic.0] as int,
        0 <= ic.1 < g.n(),
        ok_child(d, f, all, ic.1),
        reach_len(g, d, f, all, ic.1, r) == kids_max(g, d, f, all, u, j, r),
    decreases j,
{
    let a = kids_max(g, d, f, all, u, j - 1, r);
    let c = g.kids(u)[j - 1] as int;
    let b = if ok_child(d, f, all, c) {
        reach_len(g, d, f, all, c, r)
    } else {
        0
    };
    if a >= b {
        lemma_kids_max_witness(g, d, f, all, u, j - 1, r)
    } else {
        (j - 1, c)
    }
}

/// Every walk from `v` has at most `n` devices exactly when `reach_len` stays within `n`.
proof fn lemma_bounded_reach(g: Graph, d: Seq<bool>, f: Seq<bool>, all: bool, v: int, n: nat)
    requires
        g.wf(),
        g.n() <= usize::MAX,
        0 <= v < g.n(),
    ensures
        bounded(g, d, f, all, v, n) <==> reach_len(g, d, f, all, v, n) <= n,
{
    lemma_reach_len_bounds(g, d, f, all, v, n);
    if reach_len(g, d, f, all, v, n) > n {
        lemma_reach_walks(g, d, f, all, v, n, n + 1);
        let p = choose|p: Seq<int>| #[trigger] walk(g, d, f, all, p) && p[0] == v && p.len() == n + 1;
        assert(!bounded(g, d, f, all, v, n));
    } else {
        assert forall|p: Seq<int>| #[trigger] walk(g, d, f, all, p) && p[0] == v implies p.len() <= n by {
            if p.len() > n {
                let q = p.take((n + 1) as int);
                assert(walk(g, d, f, all, q)) by {
                    assert forall|i: int| 1 <= i < q.len() implies g.kids(q[i - 1]).contains(#[trigger] q[i] as usize)
                        && 0 <= q[i] < g.n() && ok_child(d, f, all, q[i]) by {
                        assert(q[i] == p[i]);
                        assert(q[i - 1] == p[i - 1]);
                    }
                }
                lemma_walk_shows(g, d, f, all, q, n);
            }
        }
    }
}

/// Whether every walk from `v` through allowed devices has at most as many devices as
/// the graph has (so no walk from `v` comes back to a device).
pub fn walks_bounded(g: &Graph, d: &Vec<bool>, f: &Vec<bool>, all: bool, v: usize) -> (r: bool)
    requires
        g.wf(),
        g.n() < usize::MAX,
        v < g.n(),
        all || (d@.len() == g.n() && f@.len() == g.n()),
    ensures
        r == bounded(*g, d@, f@, all, v as int, g.n() as nat),
{
    let n = g.nodes.len();
    let mut cur: Vec<usize> = Vec::new();
    let mut u: usize = 0;
    while u < n
        invariant
            u <= n,
            n == g.n(),
            cur@.len() == u,
            forall|w: int| 0 <= w < u ==> cur@[w] == reach_len(*g, d@, f@, all, w, 0),
        decreases n - u,
    {
        cur.push(1);
        u += 1;
    }
    let mut r: usize = 0;
    while r < n
        invariant
            r <= n,
            n == g.n(),
            n < usize::MAX,
            g.wf(),
            all || (d@.len() == n && f@.len() == n),
            cur@.len() == n,
            forall|w: int| 0 <= w < n ==> cur@[w] == reach_len(*g, d@, f@, all, w, r as nat),
        decreases n - r,
    {
        let mut next: Vec<usize> = Vec::new();
        let mut u: usize = 0;
        while u < n
            invariant
                u <= n,
                r < n,
                n == g.n(),
                n < usize::MAX,
                g.wf(),
                all || (d@.len() == n && f@.len() == n),
                cur@.len() == n,
                forall|w: int| 0 <= w < n ==> cur@[w] == reach_len(*g, d@, f@, all, w, r as nat),
                next@.len() == u,
                forall|w: int| 0 <= w < u ==> next@[w] == reach_len(*g, d@, f@, all, w, (r + 1) as nat),
            decreases n - u,
        {
            let kids = &g.nodes[u].children;
            let mut best: usize = 0;
            let mut j: usize = 0;
            while j < kids.len()
                invariant
                    j <= kids@.len(),
                    u < n,
                    r < n,
                    n == g.n(),
                    g.wf(),
                    kids@ == g.kids(u as int),
                    all || (d@.len() == n && f@.len() == n),
                    cur@.len() == n,
                    forall|w: int| 0 <= w < n ==> cur@[w] == reach_len(*g, d@, f@, all, w, r as nat),
                    best == kids_max(*g, d@, f@, all, u as int, j as int, r as nat),
                    best <= r + 1,
                decreases kids@.len() - j,
            {
                let c = kids[j];
                assert(c < n);
                let ok = all || (d[c] && f[c]);
                if ok {
                    proof {
                        lemma_reach_len_bounds(*g, d@, f@, all, c as int, r as nat);
                    }
                    if cur[c] > best {
                        best = cur[c];
                    }
                }
                j += 1;
            }
            next.push(best + 1);
            u += 1;
        }
        cur = next;
        r += 1;
    }
    proof {
        lemma_bounded_reach(*g, d@, f@, all, v as int, n as nat);
    }
    cur[v] <= n
}

/// The path counts of the device graph count walks: from `v`, along outputs, through
/// allowed devices, to a device without outputs (when no device lists an output twice
/// and no walk from `v` is longer than `bound`).
pub proof fn paths_count_leaf_walks(g: Graph, d: Seq<bool>, f: Seq<bool>, all: bool, v: int, bound: nat)
    requires
        g.wf(),
        g.n() <= usize::MAX,
        simple_outputs(g),
        0 <= v < g.n(),
        bounded(g, d, f, all, v, bound),
    ensures
        leaf_walks(g, d, f, all, v).finite(),
        paths(g, d, f, all, v, bound) == leaf_walks(g, d, f, all, v).len(),
{
    lemma_paths_walks(g, d, f, all, v, bound);
}

} // verus!
