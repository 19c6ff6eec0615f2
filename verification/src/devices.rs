//! Devices and their outputs: a directed graph of named devices, kept as an arena of
//! nodes that refer to each other by index. Counts the paths from a device to the
//! devices without outputs, and the paths that pass both `dac` and `fft`.
use vstd::prelude::*;
use crate::text::{ascii_words, chars_of, split_ascii_words, trim, trim_chars};

verus! {

/// A device: its name, a value it carries, and the devices it feeds and is fed by.
pub struct Node {
    pub name: Vec<char>,
    pub value: String,
    pub children: Vec<usize>,
    pub parents: Vec<usize>,
}

impl Node {
    /// A device with no links yet.
    pub fn new(name: &[char], value: String) -> (r: Node)
        ensures
            r.name@ == name@,
            r.value == value,
            r.children@.len() == 0,
            r.parents@.len() == 0,
    {
        Node { name: vstd::slice::slice_to_vec(name), value, children: Vec::new(), parents: Vec::new() }
    }
}

/// The devices; a node refers to another by its index.
pub struct Graph {
    pub nodes: Vec<Node>,
}

impl Graph {
    pub open spec fn n(self) -> int {
        self.nodes@.len() as int
    }

    pub open spec fn kids(self, u: int) -> Seq<usize> {
        self.nodes@[u].children@
    }

    pub open spec fn pars(self, u: int) -> Seq<usize> {
        self.nodes@[u].parents@
    }

    /// Every reference is to a node of the graph.
    pub open spec fn wf(self) -> bool {
        &&& forall|u: int, k: int|
            0 <= u < self.n() && 0 <= k < self.kids(u).len() ==> #[trigger] self.kids(u)[k] < self.n()
        &&& forall|u: int, k: int|
            0 <= u < self.n() && 0 <= k < self.pars(u).len() ==> #[trigger] self.pars(u)[k] < self.n()
    }

    /// Links `parent` to `child` both ways.
    pub fn add_child(&mut self, parent: usize, child: usize)
        requires
            parent < old(self).n(),
            child < old(self).n(),
        ensures
            final(self).n() == old(self).n(),
            forall|u: int| 0 <= u < old(self).n() ==> #[trigger] final(self).nodes@[u].name == old(self).nodes@[u].name,
            forall|u: int| 0 <= u < old(self).n() ==> #[trigger] final(self).nodes@[u].value == old(self).nodes@[u].value,
            final(self).kids(parent as int) == old(self).kids(parent as int).push(child),
            final(self).pars(child as int) == old(self).pars(child as int).push(parent),
            forall|u: int| 0 <= u < old(self).n() && u != parent ==> #[trigger] final(self).kids(u) == old(self).kids(u),
            forall|u: int| 0 <= u < old(self).n() && u != child ==> #[trigger] final(self).pars(u) == old(self).pars(u),
    {
        self.nodes[parent].children.push(child);
        self.nodes[child].parents.push(parent);
    }

    /// An edge from `u` to `w`: to an output when `fwd`, else to an input.
    pub open spec fn edge(self, fwd: bool, u: int, w: int) -> bool {
        &&& 0 <= w < self.n()
        &&& if fwd {
            self.kids(u).contains(w as usize)
        } else {
            self.pars(u).contains(w as usize)
        }
    }

    /// `p` follows edges of the graph.
    pub open spec fn is_path(self, fwd: bool, p: Seq<int>) -> bool {
        &&& p.len() >= 1
        &&& forall|i: int| 0 <= i < p.len() ==> 0 <= #[trigger] p[i] < self.n()
        &&& forall|i: int| 0 <= i < p.len() - 1 ==> self.edge(fwd, #[trigger] p[i], p[i + 1])
    }

    /// `u` can be reached from `v` through nodes none of which is marked in `m`.
    pub open spec fn reach(self, fwd: bool, m: Seq<bool>, v: int, u: int) -> bool {
        exists|p: Seq<int>|
            #![trigger self.is_path(fwd, p), p.last()]
            self.is_path(fwd, p) && p[0] == v && p.last() == u && forall|i: int|
                0 <= i < p.len() ==> !m[#[trigger] p[i]]
    }

    /// The marks after marking from `v`: those of `m`, and every node reachable from `v`
    /// through unmarked nodes.
    pub open spec fn closure(self, fwd: bool, m: Seq<bool>, v: int) -> Seq<bool> {
        Seq::new(m.len(), |u: int| m[u] || self.reach(fwd, m, v, u))
    }
}

pub open spec fn count_unmarked(m: Seq<bool>) -> nat
    decreases m.len(),
{
    if m.len() == 0 {
        0
    } else {
        count_unmarked(m.drop_last()) + if m.last() {
            0nat
        } else {
            1nat
        }
    }
}

proof fn lemma_count_unmarked(a: Seq<bool>, b: Seq<bool>, v: int)
    requires
        a.len() == b.len(),
        forall|u: int| 0 <= u < a.len() ==> a[u] ==> #[trigger] b[u],
        0 <= v < a.len(),
        !a[v],
        b[v],
    ensures
        count_unmarked(b) < count_unmarked(a),
    decreases a.len(),
{
    lemma_count_unmarked_le(a.drop_last(), b.drop_last());
    if v < a.len() - 1 {
        lemma_count_unmarked(a.drop_last(), b.drop_last(), v);
    }
}

proof fn lemma_count_unmarked_le(a: Seq<bool>, b: Seq<bool>)
    requires
        a.len() == b.len(),
        forall|u: int| 0 <= u < a.len() ==> a[u] ==> #[trigger] b[u],
    ensures
        count_unmarked(b) <= count_unmarked(a),
    decreases a.len(),
{
    if a.len() > 0 {
        lemma_count_unmarked_le(a.drop_last(), b.drop_last());
    }
}

/// What marking from `v` leaves behind, stated node by node.
pub open spec fn marked_from(g: Graph, fwd: bool, m0: Seq<bool>, v: int, m1: Seq<bool>) -> bool {
    &&& m1.len() == m0.len()
    &&& forall|u: int| 0 <= u < m0.len() ==> m0[u] ==> #[trigger] m1[u]
    &&& m1[v]
    &&& m0[v] ==> m1 == m0
    &&& forall|u: int, w: int|
        0 <= u < m0.len() && m1[u] && !m0[u] && #[trigger] g.edge(fwd, u, w) ==> m1[w]
    &&& forall|u: int| 0 <= u < m0.len() && #[trigger] m1[u] && !m0[u] ==> g.reach(fwd, m0, v, u)
}

proof fn lemma_marked_closure(g: Graph, fwd: bool, m0: Seq<bool>, v: int, m1: Seq<bool>)
    requires
        0 <= v < m0.len(),
        m0.len() == g.n(),
        marked_from(g, fwd, m0, v, m1),
    ensures
        m1 == g.closure(fwd, m0, v),
{
    let c = g.closure(fwd, m0, v);
    assert forall|u: int| 0 <= u < m0.len() implies m1[u] == c[u] by {
        if g.reach(fwd, m0, v, u) {
            let p = choose|p: Seq<int>|
                #![trigger g.is_path(fwd, p), p.last()]
                g.is_path(fwd, p) && p[0] == v && p.last() == u && forall|i: int|
                    0 <= i < p.len() ==> !m0[#[trigger] p[i]];
            assert forall|k: int| 0 <= k < p.len() implies m1[#[trigger] p[k]] by {
                lemma_path_marked(g, fwd, m0, v, m1, p, k);
            }
            assert(m1[p[p.len() - 1]]);
        }
    }
    assert(m1 =~= c);
}

proof fn lemma_path_marked(g: Graph, fwd: bool, m0: Seq<bool>, v: int, m1: Seq<bool>, p: Seq<int>, k: int)
    requires
        m0.len() == g.n(),
        marked_from(g, fwd, m0, v, m1),
        g.is_path(fwd, p),
        p[0] == v,
        forall|i: int| 0 <= i < p.len() ==> !m0[#[trigger] p[i]],
        0 <= k < p.len(),
    ensures
        m1[p[k]],
    decreases k,
{
    if k > 0 {
        lemma_path_marked(g, fwd, m0, v, m1, p, k - 1);
        assert(g.edge(fwd, p[k - 1], p[k]));
        assert(!m0[p[k - 1]]);
        assert(0 <= p[k - 1] < m0.len());
    }
}

proof fn lemma_reach_prepend(g: Graph, fwd: bool, m: Seq<bool>, v: int, c: int, u: int, mb: Seq<bool>)
    requires
        0 <= v < g.n(),
        m.len() == g.n(),
        !m[v],
        g.edge(fwd, v, c),
        mb.len() == m.len(),
        forall|x: int| 0 <= x < m.len() ==> m[x] ==> #[trigger] mb[x],
        g.reach(fwd, mb, c, u),
    ensures
        g.reach(fwd, m, v, u),
{
    let p = choose|p: Seq<int>|
        #![trigger g.is_path(fwd, p), p.last()]
        g.is_path(fwd, p) && p[0] == c && p.last() == u && forall|i: int| 0 <= i < p.len() ==> !mb[#[trigger] p[i]];
    let q = seq![v] + p;
    assert(q[0] == v);
    assert(q.last() == u);
    assert forall|i: int| 0 <= i < q.len() implies 0 <= #[trigger] q[i] < g.n() by {
        if i > 0 {
            assert(q[i] == p[i - 1]);
        }
    }
    assert forall|i: int| 0 <= i < q.len() - 1 implies g.edge(fwd, #[trigger] q[i], q[i + 1]) by {
        if i > 0 {
            assert(q[i] == p[i - 1]);
            assert(q[i + 1] == p[i]);
        }
    }
    assert forall|i: int| 0 <= i < q.len() implies !m[#[trigger] q[i]] by {
        if i > 0 {
            assert(q[i] == p[i - 1]);
            assert(!mb[p[i - 1]]);
            assert(0 <= p[i - 1] < g.n());
        }
    }
    assert(g.is_path(fwd, q));
}

/// Marks every node reachable from `v` through unmarked nodes, depth first; a node
/// already marked stops the walk.
fn mark_from(g: &Graph, fwd: bool, v: usize, mark: &mut Vec<bool>)
    requires
        g.wf(),
        v < g.n(),
        old(mark)@.len() == g.n(),
    ensures
        marked_from(*g, fwd, old(mark)@, v as int, final(mark)@),
    decreases count_unmarked(old(mark)@),
{
    if mark[v] {
        return;
    }
    let ghost m0 = mark@;
    assert(m0 == old(mark)@);
    mark.set(v, true);
    proof {
        let q = seq![v as int];
        assert(g.is_path(fwd, q));
        assert(q.last() == v as int);
        assert(forall|i: int| 0 <= i < q.len() ==> !m0[#[trigger] q[i]]);
        assert(g.reach(fwd, m0, v as int, v as int));
    }
    let ghost nexts = if fwd {
        g.kids(v as int)
    } else {
        g.pars(v as int)
    };
    let len = if fwd {
        g.nodes[v].children.len()
    } else {
        g.nodes[v].parents.len()
    };
    let mut i: usize = 0;
    while i < len
        invariant
            g.wf(),
            v < g.n(),
            m0.len() == g.n(),
            m0 == old(mark)@,
            !m0[v as int],
            i <= len,
            len == nexts.len(),
            nexts == (if fwd {
                g.kids(v as int)
            } else {
                g.pars(v as int)
            }),
            mark@.len() == m0.len(),
            forall|u: int| 0 <= u < m0.len() ==> m0[u] ==> #[trigger] mark@[u],
            mark@[v as int],
            forall|j: int| 0 <= j < i ==> mark@[#[trigger] nexts[j] as int],
            forall|u: int, w: int|
                0 <= u < m0.len() && mark@[u] && !m0[u] && u != v && #[trigger] g.edge(fwd, u, w) ==> mark@[w],
            forall|u: int| 0 <= u < m0.len() && #[trigger] mark@[u] && !m0[u] ==> g.reach(fwd, m0, v as int, u),
        decreases len - i,
    {
        let c = if fwd {
            g.nodes[v].children[i]
        } else {
            g.nodes[v].parents[i]
        };
        assert(c == nexts[i as int]);
        assert(c < g.n());
        let ghost mb = mark@;
        proof {
            lemma_count_unmarked(m0, mb, v as int);
        }
        mark_from(g, fwd, c, mark);
        proof {
            let m1 = mark@;
            assert(g.edge(fwd, v as int, c as int)) by {
                assert(nexts[i as int] == c);
            }
            assert forall|u: int| 0 <= u < m0.len() && #[trigger] m1[u] && !m0[u] implies g.reach(
                fwd,
                m0,
                v as int,
                u,
            ) by {
                if !mb[u] {
                    lemma_reach_prepend(*g, fwd, m0, v as int, c as int, u, mb);
                }
            }
            assert forall|u: int, w: int|
                0 <= u < m0.len() && m1[u] && !m0[u] && u != v && #[trigger] g.edge(fwd, u, w) implies m1[w] by {
                if mb[u] {
                    assert(mb[w]);
                }
            }
            assert forall|j: int| 0 <= j < i + 1 implies m1[#[trigger] nexts[j] as int] by {
                if j < i {
                    assert(mb[nexts[j] as int]);
                    assert(0 <= nexts[j] < g.n());
                }
            }
        }
        i += 1;
    }
    proof {
        let m1 = mark@;
        assert forall|u: int, w: int|
            0 <= u < m0.len() && m1[u] && !m0[u] && #[trigger] g.edge(fwd, u, w) implies m1[w] by {
            if u == v {
                if fwd {
                    assert(nexts == g.kids(v as int));
                } else {
                    assert(nexts == g.pars(v as int));
                }
                assert(nexts.contains(w as usize));
                let j = choose|j: int| 0 <= j < nexts.len() && nexts[j] == w as usize;
                assert(0 <= j < i);
                assert(m1[nexts[j] as int]);
                assert(0 <= w < g.n());
                assert(g.n() == g.nodes.len());
                assert(w <= usize::MAX);
                assert((w as usize) as int == w);
                assert(nexts[j] as int == w);
            } else {
                assert(m1[w]);
            }
        }
    }
}

/// Marks the devices reachable from `start` along outputs.
pub fn mark_forward(g: &Graph, start: usize, mark: &mut Vec<bool>)
    requires
        g.wf(),
        start < g.n(),
        old(mark)@.len() == g.n(),
    ensures
        final(mark)@ == g.closure(true, old(mark)@, start as int),
{
    mark_from(g, true, start, mark);
    proof {
        lemma_marked_closure(*g, true, old(mark)@, start as int, mark@);
    }
}

/// Marks the devices that reach `start` along outputs (walking inputs backwards).
pub fn mark_backward(g: &Graph, start: usize, mark: &mut Vec<bool>)
    requires
        g.wf(),
        start < g.n(),
        old(mark)@.len() == g.n(),
    ensures
        final(mark)@ == g.closure(false, old(mark)@, start as int),
{
    mark_from(g, false, start, mark);
    proof {
        lemma_marked_closure(*g, false, old(mark)@, start as int, mark@);
    }
}

/// The devices related to `d`: everything after it, then everything before it
/// (the backward walk starts with `d` itself unmarked).
pub open spec fn related(g: Graph, d: int) -> Seq<bool> {
    let empty = Seq::new(g.n() as nat, |u: int| false);
    let fwd = g.closure(true, empty, d);
    g.closure(false, fwd.update(d, false), d)
}

fn related_set(g: &Graph, d: usize) -> (r: Vec<bool>)
    requires
        g.wf(),
        d < g.n(),
    ensures
        r@ == related(*g, d as int),
{
    let mut m: Vec<bool> = Vec::new();
    let mut k: usize = 0;
    while k < g.nodes.len()
        invariant
            k <= g.nodes.len(),
            m@ == Seq::new(k as nat, |u: int| false),
        decreases g.nodes.len() - k,
    {
        m.push(false);
        k += 1;
        assert(m@ =~= Seq::new(k as nat, |u: int| false));
    }
    mark_forward(g, d, &mut m);
    m.set(d, false);
    mark_backward(g, d, &mut m);
    m
}

/// The devices related to `dac` and those related to `fft`.
pub fn compute_is_sets(g: &Graph, dac: usize, fft: usize) -> (r: (Vec<bool>, Vec<bool>))
    requires
        g.wf(),
        dac < g.n(),
        fft < g.n(),
    ensures
        r.0@ == related(*g, dac as int),
        r.1@ == related(*g, fft as int),
{
    let is_dac = related_set(g, dac);
    let is_fft = related_set(g, fft);
    (is_dac, is_fft)
}

/// Whether a walk may enter `c`: always when `all`, else only when both `d` and `f`
/// mark it.
pub open spec fn ok_child(d: Seq<bool>, f: Seq<bool>, all: bool, c: int) -> bool {
    all || (d[c] && f[c])
}

/// The paths from `v` that follow outputs into allowed devices and end at a device
/// without outputs, counting at most `fuel` devices per path.
pub open spec fn paths(g: Graph, d: Seq<bool>, f: Seq<bool>, all: bool, v: int, fuel: nat) -> int
    decreases fuel, 0int, 0int,
{
    if fuel == 0 {
        0
    } else if g.kids(v).len() == 0 {
        1
    } else {
        kids_sum(g, d, f, all, v, g.kids(v).len() as int, (fuel - 1) as nat)
    }
}

/// The paths through the first `j` outputs of `v`.
pub open spec fn kids_sum(g: Graph, d: Seq<bool>, f: Seq<bool>, all: bool, v: int, j: int, fuel: nat) -> int
    decreases fuel, 1int, j,
{
    if j <= 0 {
        0
    } else {
        kids_sum(g, d, f, all, v, j - 1, fuel) + if ok_child(d, f, all, g.kids(v)[j - 1] as int) {
            paths(g, d, f, all, g.kids(v)[j - 1] as int, fuel)
        } else {
            0
        }
    }
}

/// `p` follows outputs, each step into an allowed device.
pub open spec fn walk(g: Graph, d: Seq<bool>, f: Seq<bool>, all: bool, p: Seq<int>) -> bool {
    &&& p.len() >= 1
    &&& 0 <= p[0] < g.n()
    &&& forall|i: int|
        1 <= i < p.len() ==> g.kids(p[i - 1]).contains(#[trigger] p[i] as usize) && 0 <= p[i] < g.n()
            && ok_child(d, f, all, p[i])
}

/// No walk from `v` has more than `bound` devices (so none comes back to a device).
pub open spec fn bounded(g: Graph, d: Seq<bool>, f: Seq<bool>, all: bool, v: int, bound: nat) -> bool {
    forall|p: Seq<int>| #[trigger] walk(g, d, f, all, p) && p[0] == v ==> p.len() <= bound
}

pub(crate) proof fn lemma_bounded_child(g: Graph, d: Seq<bool>, f: Seq<bool>, all: bool, v: int, c: int, bound: nat)
    requires
        g.wf(),
        0 <= v < g.n(),
        bounded(g, d, f, all, v, bound),
        g.kids(v).contains(c as usize),
        0 <= c < g.n(),
        ok_child(d, f, all, c),
    ensures
        bound >= 2,
        bounded(g, d, f, all, c, (bound - 1) as nat),
{
    let w = seq![v, c];
    assert(walk(g, d, f, all, w)) by {
        assert(w[1] == c);
    }
    assert forall|p: Seq<int>| #[trigger] walk(g, d, f, all, p) && p[0] == c implies p.len() <= bound - 1 by {
        let q = seq![v] + p;
        assert forall|i: int| 1 <= i < q.len() implies g.kids(q[i - 1]).contains(#[trigger] q[i] as usize)
            && 0 <= q[i] < g.n() && ok_child(d, f, all, q[i]) by {
            assert(q[i] == p[i - 1]);
            if i > 1 {
                assert(q[i - 1] == p[i - 2]);
                assert(g.kids(p[(i - 1) - 1]).contains(p[i - 1] as usize));
            }
        }
        assert(walk(g, d, f, all, q));
    }
}

proof fn lemma_paths_nonneg(g: Graph, d: Seq<bool>, f: Seq<bool>, all: bool, v: int, fuel: nat)
    ensures
        paths(g, d, f, all, v, fuel) >= 0,
    decreases fuel, 0int, 0int,
{
    if fuel > 0 && g.kids(v).len() > 0 {
        lemma_kids_sum_nonneg(g, d, f, all, v, g.kids(v).len() as int, (fuel - 1) as nat);
    }
}

proof fn lemma_kids_sum_nonneg(g: Graph, d: Seq<bool>, f: Seq<bool>, all: bool, v: int, j: int, fuel: nat)
    ensures
        kids_sum(g, d, f, all, v, j, fuel) >= 0,
    decreases fuel, 1int, j,
{
    if j > 0 {
        lemma_kids_sum_nonneg(g, d, f, all, v, j - 1, fuel);
        lemma_paths_nonneg(g, d, f, all, g.kids(v)[j - 1] as int, fuel);
    }
}

/// With every walk from `v` of at most `bound` devices, more fuel changes nothing.
proof fn lemma_paths_fuel(g: Graph, d: Seq<bool>, f: Seq<bool>, all: bool, v: int, bound: nat, fuel: nat)
    requires
        g.wf(),
        0 <= v < g.n(),
        bounded(g, d, f, all, v, bound),
        fuel >= bound,
    ensures
        paths(g, d, f, all, v, fuel) == paths(g, d, f, all, v, bound),
    decreases bound,
{
    let w = seq![v];
    assert(walk(g, d, f, all, w));
    if g.kids(v).len() > 0 {
        lemma_kids_fuel(g, d, f, all, v, bound, fuel, g.kids(v).len() as int);
    }
}

proof fn lemma_kids_fuel(g: Graph, d: Seq<bool>, f: Seq<bool>, all: bool, v: int, bound: nat, fuel: nat, j: int)
    requires
        g.wf(),
        0 <= v < g.n(),
        bounded(g, d, f, all, v, bound),
        bound >= 1,
        fuel >= bound,
        j <= g.kids(v).len(),
    ensures
        kids_sum(g, d, f, all, v, j, (fuel - 1) as nat) == kids_sum(g, d, f, all, v, j, (bound - 1) as nat),
    decreases bound, j,
{
    if j > 0 {
        lemma_kids_fuel(g, d, f, all, v, bound, fuel, j - 1);
        let c = g.kids(v)[j - 1] as int;
        if ok_child(d, f, all, c) {
            assert(g.kids(v).contains(c as usize));
            assert(0 <= c < g.n());
            lemma_bounded_child(g, d, f, all, v, c, bound);
            lemma_paths_fuel(g, d, f, all, c, (bound - 1) as nat, (fuel - 1) as nat);
        }
    }
}

fn count_leaf_paths(g: &Graph, v: usize, Ghost(bound): Ghost<nat>) -> (r: i64)
    requires
        g.wf(),
        v < g.n(),
        bounded(*g, Seq::empty(), Seq::empty(), true, v as int, bound),
        paths(*g, Seq::empty(), Seq::empty(), true, v as int, bound) <= i64::MAX,
    ensures
        r == paths(*g, Seq::empty(), Seq::empty(), true, v as int, bound),
    decreases bound,
{
    let ghost e = Seq::<bool>::empty();
    proof {
        let w = seq![v as int];
        assert(walk(*g, e, e, true, w));
    }
    let n = g.nodes[v].children.len();
    if n == 0 {
        return 1;
    }
    let mut result: i64 = 0;
    let mut j: usize = 0;
    proof {
        lemma_kids_sum_nonneg(*g, e, e, true, v as int, n as int, (bound - 1) as nat);
    }
    while j < n
        invariant
            g.wf(),
            v < g.n(),
            bound >= 1,
            n == g.kids(v as int).len(),
            j <= n,
            e == Seq::<bool>::empty(),
            bounded(*g, e, e, true, v as int, bound),
            paths(*g, e, e, true, v as int, bound) <= i64::MAX,
            paths(*g, e, e, true, v as int, bound) == kids_sum(*g, e, e, true, v as int, n as int, (bound - 1) as nat),
            result == kids_sum(*g, e, e, true, v as int, j as int, (bound - 1) as nat),
        decreases n - j,
    {
        let c = g.nodes[v].children[j];
        assert(c == g.kids(v as int)[j as int]);
        assert(c < g.n());
        assert(g.kids(v as int).contains(c));
        proof {
            lemma_bounded_child(*g, e, e, true, v as int, c as int, bound);
            lemma_kids_sum_nonneg(*g, e, e, true, v as int, j as int, (bound - 1) as nat);
            lemma_kids_sum_prefix(*g, e, e, true, v as int, j + 1, n as int, (bound - 1) as nat);
            assert(kids_sum(*g, e, e, true, v as int, j + 1, (bound - 1) as nat) == kids_sum(
                *g,
                e,
                e,
                true,
                v as int,
                j as int,
                (bound - 1) as nat,
            ) + paths(*g, e, e, true, c as int, (bound - 1) as nat));
        }
        let k = count_leaf_paths(g, c, Ghost((bound - 1) as nat));
        result = result + k;
        j += 1;
    }
    result
}

proof fn lemma_kids_sum_prefix(g: Graph, d: Seq<bool>, f: Seq<bool>, all: bool, v: int, j: int, k: int, fuel: nat)
    requires
        j <= k,
    ensures
        kids_sum(g, d, f, all, v, j, fuel) <= kids_sum(g, d, f, all, v, k, fuel),
    decreases k - j,
{
    if j < k {
        lemma_kids_sum_prefix(g, d, f, all, v, j, k - 1, fuel);
        lemma_paths_nonneg(g, d, f, all, g.kids(v)[k - 1] as int, fuel);
    }
}

/// Counts the paths from `root` to the devices without outputs.
pub fn one(g: &Graph, root: usize) -> (r: i64)
    requires
        g.wf(),
        root < g.n(),
        bounded(*g, Seq::empty(), Seq::empty(), true, root as int, g.n() as nat),
        paths(*g, Seq::empty(), Seq::empty(), true, root as int, g.n() as nat) <= i64::MAX,
    ensures
        r == paths(*g, Seq::empty(), Seq::empty(), true, root as int, g.n() as nat),
{
    count_leaf_paths(g, root, Ghost(g.n() as nat))
}

/// Each count in the cache is the count of paths from that device.
pub open spec fn cache_ok(g: Graph, d: Seq<bool>, f: Seq<bool>, cache: Seq<Option<i64>>) -> bool {
    &&& cache.len() == g.n()
    &&& forall|u: int|
        0 <= u < g.n() ==> ((#[trigger] cache[u]) is Some ==> cache[u]->0 == paths(g, d, f, false, u, g.n() as nat))
}

/// Counts the paths from `v` through devices marked in both sets, remembering the
/// count of every device with outputs.
fn helper_two(
    g: &Graph,
    v: usize,
    is_dac: &Vec<bool>,
    is_fft: &Vec<bool>,
    cache: &mut Vec<Option<i64>>,
    Ghost(bound): Ghost<nat>,
) -> (r: i64)
    requires
        g.wf(),
        v < g.n(),
        is_dac@.len() == g.n(),
        is_fft@.len() == g.n(),
        cache_ok(*g, is_dac@, is_fft@, old(cache)@),
        bounded(*g, is_dac@, is_fft@, false, v as int, bound),
        bound <= g.n(),
        paths(*g, is_dac@, is_fft@, false, v as int, bound) <= i64::MAX,
    ensures
        r == paths(*g, is_dac@, is_fft@, false, v as int, bound),
        cache_ok(*g, is_dac@, is_fft@, final(cache)@),
    decreases bound,
{
    let ghost d = is_dac@;
    let ghost f = is_fft@;
    proof {
        let w = seq![v as int];
        assert(walk(*g, d, f, false, w));
        lemma_paths_fuel(*g, d, f, false, v as int, bound, g.n() as nat);
    }
    match cache[v] {
        Some(x) => {
            return x;
        },
        None => {},
    }
    let n = g.nodes[v].children.len();
    if n == 0 {
        return 1;
    }
    let mut result: i64 = 0;
    let mut j: usize = 0;
    while j < n
        invariant
            g.wf(),
            v < g.n(),
            bound >= 1,
            bound <= g.n(),
            n == g.kids(v as int).len(),
            j <= n,
            d == is_dac@,
            f == is_fft@,
            d.len() == g.n(),
            f.len() == g.n(),
            cache_ok(*g, d, f, cache@),
            bounded(*g, d, f, false, v as int, bound),
            paths(*g, d, f, false, v as int, bound) <= i64::MAX,
            paths(*g, d, f, false, v as int, bound) == kids_sum(*g, d, f, false, v as int, n as int, (bound - 1) as nat),
            paths(*g, d, f, false, v as int, bound) == paths(*g, d, f, false, v as int, g.n() as nat),
            result == kids_sum(*g, d, f, false, v as int, j as int, (bound - 1) as nat),
        decreases n - j,
    {
        let c = g.nodes[v].children[j];
        assert(c == g.kids(v as int)[j as int]);
        assert(c < g.n());
        if is_dac[c] && is_fft[c] {
            proof {
                assert(g.kids(v as int).contains(c));
                lemma_bounded_child(*g, d, f, false, v as int, c as int, bound);
                lemma_kids_sum_nonneg(*g, d, f, false, v as int, j as int, (bound - 1) as nat);
                lemma_kids_sum_prefix(*g, d, f, false, v as int, j + 1, n as int, (bound - 1) as nat);
            }
            let k = helper_two(g, c, is_dac, is_fft, cache, Ghost((bound - 1) as nat));
            result = result + k;
        }
        j += 1;
    }
    cache.set(v, Some(result));
    result
}

/// Counts the paths from `svr` to the devices without outputs that go only through
/// devices related to both `dac` and `fft`.
pub fn two(g: &Graph, svr: usize, fft: usize, dac: usize) -> (r: i64)
    requires
        g.wf(),
        svr < g.n(),
        fft < g.n(),
        dac < g.n(),
        bounded(*g, related(*g, dac as int), related(*g, fft as int), false, svr as int, g.n() as nat),
        paths(*g, related(*g, dac as int), related(*g, fft as int), false, svr as int, g.n() as nat)
            <= i64::MAX,
    ensures
        r == paths(*g, related(*g, dac as int), related(*g, fft as int), false, svr as int, g.n() as nat),
{
    let (is_dac, is_fft) = compute_is_sets(g, dac, fft);
    let mut cache: Vec<Option<i64>> = Vec::new();
    let mut k: usize = 0;
    while k < g.nodes.len()
        invariant
            k <= g.nodes.len(),
            cache@ == Seq::new(k as nat, |u: int| None::<i64>),
        decreases g.nodes.len() - k,
    {
        cache.push(None);
        k += 1;
        assert(cache@ =~= Seq::new(k as nat, |u: int| None::<i64>));
    }
    helper_two(g, svr, &is_dac, &is_fft, &mut cache, Ghost(g.n() as nat))
}

/// `s` without the `:` characters at its end (`str::trim_end_matches(':')`).
pub open spec fn strip_colons(s: Seq<char>) -> Seq<char>
    decreases s.len(),
{
    if s.len() > 0 && s.last() == ':' {
        strip_colons(s.drop_last())
    } else {
        s
    }
}

/// A line `name: out1 out2 ...`: the name, and the names of its outputs. `None` for
/// a blank line.
pub open spec fn device_line(line: Seq<char>) -> Option<(Seq<char>, Seq<Seq<char>>)> {
    let t = trim(line);
    let parts = ascii_words(t);
    if t.len() == 0 || parts.len() == 0 {
        None
    } else {
        Some((strip_colons(parts[0]), parts.drop_first()))
    }
}

pub open spec fn entry_view(e: (Vec<char>, Vec<Vec<char>>)) -> (Seq<char>, Seq<Seq<char>>) {
    (e.0@, Seq::new(e.1@.len(), |k: int| e.1@[k]@))
}

/// Reads one line of the device list.
pub fn parse_device_line(line: &str) -> (r: Option<(Vec<char>, Vec<Vec<char>>)>)
    ensures
        r is None <==> device_line(line@) is None,
        r is Some ==> entry_view(r->0) == device_line(line@)->0,
{
    let cs = chars_of(line);
    let t = trim_chars(cs.as_slice());
    if t.len() == 0 {
        return None;
    }
    let parts = split_ascii_words(t.as_slice());
    if parts.len() == 0 {
        return None;
    }
    let mut name: Vec<char> = vstd::slice::slice_to_vec(parts[0].as_slice());
    while name.len() > 0 && name[name.len() - 1] == ':'
        invariant
            strip_colons(name@) == strip_colons(parts@[0]@),
        decreases name.len(),
    {
        assert(name@.drop_last() =~= name@.subrange(0, name.len() - 1));
        name.pop();
    }
    let mut children: Vec<Vec<char>> = Vec::new();
    let mut k: usize = 1;
    while k < parts.len()
        invariant
            1 <= k <= parts.len(),
            children@.len() == k - 1,
            forall|i: int| 0 <= i < k - 1 ==> #[trigger] children@[i]@ == parts@[i + 1]@,
        decreases parts.len() - k,
    {
        children.push(vstd::slice::slice_to_vec(parts[k].as_slice()));
        k += 1;
    }
    proof {
        let e = device_line(line@)->0;
        assert(e.1 =~= Seq::new(children@.len(), |i: int| children@[i]@)) by {
            assert forall|i: int| 0 <= i < children@.len() implies #[trigger] e.1[i] == children@[i]@ by {
                assert(e.1[i] == ascii_words(t@)[i + 1]);
                assert(parts@[i + 1]@ == ascii_words(t@)[i + 1]);
            }
        }
    }
    Some((name, children))
}

pub type Entries = Seq<(Seq<char>, Seq<Seq<char>>)>;

pub open spec fn entries_view(v: Seq<(Vec<char>, Vec<Vec<char>>)>) -> Entries {
    Seq::new(v.len(), |i: int| entry_view(v[i]))
}

/// The distinct names of the first `k` lines, in order of first appearance.
pub open spec fn names_upto(e: Entries, k: int) -> Seq<Seq<char>>
    decreases k,
{
    if k <= 0 {
        Seq::empty()
    } else {
        let ns = names_upto(e, k - 1);
        if ns.contains(e[k - 1].0) {
            ns
        } else {
            ns.push(e[k - 1].0)
        }
    }
}

pub open spec fn names_of(e: Entries) -> Seq<Seq<char>> {
    names_upto(e, e.len() as int)
}

/// The outputs on the last of the first `k` lines that names `name`.
pub open spec fn last_outputs(e: Entries, name: Seq<char>, k: int) -> Seq<Seq<char>>
    decreases k,
{
    if k <= 0 {
        Seq::empty()
    } else if e[k - 1].0 == name {
        e[k - 1].1
    } else {
        last_outputs(e, name, k - 1)
    }
}

pub open spec fn out_word() -> Seq<char> {
    seq!['o', 'u', 't']
}

/// The outputs that are devices (every name but `out`).
pub open spec fn linked(outs: Seq<Seq<char>>) -> Seq<Seq<char>>
    decreases outs.len(),
{
    if outs.len() == 0 {
        Seq::empty()
    } else if outs.last() == out_word() {
        linked(outs.drop_last())
    } else {
        linked(outs.drop_last()).push(outs.last())
    }
}

/// The devices that device `u` feeds, by name.
pub open spec fn outputs_of(e: Entries, u: int) -> Seq<Seq<char>> {
    linked(last_outputs(e, names_of(e)[u], e.len() as int))
}

/// Every output named is a device of the list.
pub open spec fn all_known(e: Entries) -> bool {
    forall|u: int, k: int|
        0 <= u < names_of(e).len() && 0 <= k < outputs_of(e, u).len() ==> names_of(e).contains(
            #[trigger] outputs_of(e, u)[k],
        )
}

/// The graph matches the list: one node per distinct name, in order of first
/// appearance, each linked to the devices on the last line that names it.
pub open spec fn graph_matches(g: Graph, e: Entries) -> bool {
    let ns = names_of(e);
    &&& g.wf()
    &&& g.n() == ns.len()
    &&& forall|u: int| 0 <= u < g.n() ==> (#[trigger] g.nodes@[u]).name@ == ns[u]
    &&& forall|u: int| 0 <= u < g.n() ==> (#[trigger] g.nodes@[u]).value@ == Seq::<char>::empty()
    &&& forall|u: int|
        0 <= u < g.n() ==> (#[trigger] g.kids(u)).len() == outputs_of(e, u).len() && forall|k: int|
            0 <= k < g.kids(u).len() ==> ns[#[trigger] g.kids(u)[k] as int] == outputs_of(e, u)[k]
    &&& forall|u: int, p: int|
        0 <= u < g.n() && 0 <= p < g.n() ==> (#[trigger] g.pars(u).contains(p as usize) <==> #[trigger] g.kids(p).contains(u as usize))
}

fn same_chars(a: &[char], b: &[char]) -> (r: bool)
    ensures
        r == (a@ == b@),
{
    if a.len() != b.len() {
        return false;
    }
    let mut i: usize = 0;
    while i < a.len()
        invariant
            i <= a.len(),
            a.len() == b.len(),
            forall|k: int| 0 <= k < i ==> a@[k] == b@[k],
        decreases a.len() - i,
    {
        if a[i] != b[i] {
            return false;
        }
        i += 1;
    }
    assert(a@ =~= b@);
    true
}

fn find_name(names: &Vec<Vec<char>>, x: &[char]) -> (r: Option<usize>)
    ensures
        match r {
            Some(i) => i < names@.len() && names@[i as int]@ == x@ && forall|k: int| 0 <= k < i ==> names@[k]@ != x@,
            None => forall|k: int| 0 <= k < names@.len() ==> names@[k]@ != x@,
        },
{
    let mut i: usize = 0;
    while i < names.len()
        invariant
            i <= names.len(),
            forall|k: int| 0 <= k < i ==> names@[k]@ != x@,
        decreases names.len() - i,
    {
        if same_chars(names[i].as_slice(), x) {
            return Some(i);
        }
        i += 1;
    }
    None
}

pub open spec fn names_view(v: Seq<Vec<char>>) -> Seq<Seq<char>> {
    Seq::new(v.len(), |k: int| v[k]@)
}

proof fn lemma_names_upto(e: Entries, k: int)
    requires
        0 <= k <= e.len(),
    ensures
        forall|x: Seq<char>| #[trigger] names_upto(e, k).contains(x) ==> exists|i: int| 0 <= i < k && e[i].0 == x,
        forall|i: int| 0 <= i < k ==> names_upto(e, k).contains(#[trigger] e[i].0),
    decreases k,
{
    if k > 0 {
        lemma_names_upto(e, k - 1);
        let ns = names_upto(e, k - 1);
        assert forall|x: Seq<char>| #[trigger] names_upto(e, k).contains(x) implies exists|i: int|
            0 <= i < k && e[i].0 == x by {
            if !ns.contains(x) {
                assert(x == e[k - 1].0) by {
                    let j = choose|j: int| 0 <= j < names_upto(e, k).len() && names_upto(e, k)[j] == x;
                    if j < ns.len() {
                        assert(ns[j] == x);
                    }
                }
            }
        }
        assert forall|i: int| 0 <= i < k implies names_upto(e, k).contains(#[trigger] e[i].0) by {
            if i < k - 1 {
                assert(ns.contains(e[i].0));
                if !ns.contains(e[k - 1].0) {
                    let j = choose|j: int| 0 <= j < ns.len() && ns[j] == e[i].0;
                    assert(names_upto(e, k)[j] == e[i].0);
                }
            } else if !ns.contains(e[k - 1].0) {
                assert(names_upto(e, k)[ns.len() as int] == e[k - 1].0);
            }
        }
    }
}

proof fn lemma_last_outputs(e: Entries, name: Seq<char>, idx: int, k: int)
    requires
        1 <= idx <= k <= e.len(),
        e[idx - 1].0 == name,
        forall|j: int| idx <= j < k ==> e[j].0 != name,
    ensures
        last_outputs(e, name, k) == e[idx - 1].1,
    decreases k,
{
    if k > idx {
        lemma_last_outputs(e, name, idx, k - 1);
    }
}

proof fn lemma_linked_prefix(outs: Seq<Seq<char>>, j: int)
    requires
        0 <= j <= outs.len(),
    ensures
        linked(outs.take(j)).len() <= linked(outs).len(),
        forall|i: int| 0 <= i < linked(outs.take(j)).len() ==> #[trigger] linked(outs.take(j))[i] == linked(outs)[i],
    decreases outs.len() - j,
{
    if j < outs.len() {
        lemma_linked_prefix(outs, j + 1);
        let t = outs.take(j + 1);
        assert(t.drop_last() =~= outs.take(j));
        let a = linked(outs.take(j));
        let b = linked(t);
        assert(b == (if t.last() == out_word() {
            a
        } else {
            a.push(t.last())
        }));
        assert forall|i: int| 0 <= i < a.len() implies #[trigger] a[i] == linked(outs)[i] by {
            assert(a[i] == b[i]);
        }
    } else {
        assert(outs.take(j) =~= outs);
    }
}

/// Builds the device graph from the lines of the list. `Err` names an output that no
/// line defines.
pub fn build_graph(entries: &Vec<(Vec<char>, Vec<Vec<char>>)>) -> (r: Result<Graph, Vec<char>>)
    ensures
        r is Ok <==> all_known(entries_view(entries@)),
        r is Ok ==> graph_matches(r->Ok_0, entries_view(entries@)),
        r is Err ==> exists|u: int, k: int|
            0 <= u < names_of(entries_view(entries@)).len() && 0 <= k < outputs_of(entries_view(entries@), u).len()
                && #[trigger] outputs_of(entries_view(entries@), u)[k] == r->Err_0@
                && !names_of(entries_view(entries@)).contains(r->Err_0@),
{
    let ghost e = entries_view(entries@);
    let mut names: Vec<Vec<char>> = Vec::new();
    let mut i: usize = 0;
    while i < entries.len()
        invariant
            i <= entries.len(),
            e == entries_view(entries@),
            names_view(names@) == names_upto(e, i as int),
        decreases entries.len() - i,
    {
        assert(e[i as int].0 == entries@[i as int].0@);
        match find_name(&names, entries[i].0.as_slice()) {
            Some(_) => {
                assert(names_view(names@).contains(e[i as int].0)) by {
                    let j = choose|j: int| 0 <= j < names@.len() && names@[j]@ == e[i as int].0;
                    assert(names_view(names@)[j] == e[i as int].0);
                }
            },
            None => {
                assert(!names_view(names@).contains(e[i as int].0));
                names.push(vstd::slice::slice_to_vec(entries[i].0.as_slice()));
                assert(names_view(names@) =~= names_upto(e, i as int).push(e[i as int].0));
            },
        }
        i += 1;
    }
    let ghost ns = names_of(e);
    proof {
        lemma_names_upto(e, e.len() as int);
    }
    let n = names.len();
    let mut g = Graph { nodes: Vec::new() };
    let mut u: usize = 0;
    while u < n
        invariant
            u <= n,
            n == names@.len(),
            names_view(names@) == ns,
            g.n() == u,
            forall|w: int| 0 <= w < u ==> (#[trigger] g.nodes@[w]).name@ == ns[w],
            forall|w: int| 0 <= w < u ==> (#[trigger] g.nodes@[w]).value@ == Seq::<char>::empty(),
            forall|w: int| 0 <= w < u ==> (#[trigger] g.kids(w)).len() == 0,
            forall|w: int| 0 <= w < u ==> (#[trigger] g.pars(w)).len() == 0,
        decreases n - u,
    {
        let ghost g0 = g;
        g.nodes.push(Node::new(names[u].as_slice(), String::new()));
        assert(g.kids(u as int).len() == 0 && g.pars(u as int).len() == 0);
        assert forall|w: int| 0 <= w < u + 1 implies (#[trigger] g.kids(w)).len() == 0 by {
            if w < u {
                assert(g.nodes@[w] == g0.nodes@[w]);
                assert(g0.kids(w).len() == 0);
            }
        }
        assert forall|w: int| 0 <= w < u + 1 implies (#[trigger] g.pars(w)).len() == 0 by {
            if w < u {
                assert(g.nodes@[w] == g0.nodes@[w]);
                assert(g0.pars(w).len() == 0);
            }
        }
        assert forall|w: int| 0 <= w < u + 1 implies (#[trigger] g.nodes@[w]).name@ == ns[w] by {
            if w < u {
                assert(g.nodes@[w] == g0.nodes@[w]);
            }
        }
        assert forall|w: int| 0 <= w < u + 1 implies (#[trigger] g.nodes@[w]).value@ == Seq::<char>::empty() by {
            if w < u {
                assert(g.nodes@[w] == g0.nodes@[w]);
            }
        }
        u += 1;
    }
    proof {
        assert forall|w: int, p: int|
            0 <= w < n && 0 <= p < n implies (#[trigger] g.pars(w).contains(p as usize) <==> #[trigger] g.kids(p).contains(w as usize)) by {
            assert(g.kids(p).len() == 0);
            assert(g.pars(w).len() == 0);
        }
        assert(g.wf()) by {
            assert forall|w: int, t: int| 0 <= w < g.n() && 0 <= t < g.kids(w).len() implies #[trigger] g.kids(w)[t] < g.n() by {
                assert(g.kids(w).len() == 0);
            }
            assert forall|w: int, t: int| 0 <= w < g.n() && 0 <= t < g.pars(w).len() implies #[trigger] g.pars(w)[t] < g.n() by {
                assert(g.pars(w).len() == 0);
            }
        }
    }
    let out: Vec<char> = vec!['o', 'u', 't'];
    assert(out@ =~= out_word());
    let mut u: usize = 0;
    while u < n
        invariant
            u <= n,
            n == names@.len(),
            e == entries_view(entries@),
            ns == names_of(e),
            names_view(names@) == ns,
            out@ == out_word(),
            forall|x: Seq<char>| #[trigger] ns.contains(x) ==> exists|i: int| 0 <= i < e.len() && e[i].0 == x,
            g.n() == n,
            g.wf(),
            forall|w: int| 0 <= w < n ==> (#[trigger] g.nodes@[w]).name@ == ns[w],
            forall|w: int| 0 <= w < n ==> (#[trigger] g.nodes@[w]).value@ == Seq::<char>::empty(),
            forall|w: int|
                0 <= w < u ==> (#[trigger] g.kids(w)).len() == outputs_of(e, w).len() && forall|k: int|
                    0 <= k < g.kids(w).len() ==> ns[#[trigger] g.kids(w)[k] as int] == outputs_of(e, w)[k],
            forall|w: int| u <= w < n ==> (#[trigger] g.kids(w)).len() == 0,
            forall|w: int, p: int|
                0 <= w < n && 0 <= p < n ==> (#[trigger] g.pars(w).contains(p as usize) <==> #[trigger] g.kids(p).contains(w as usize)),
            forall|w: int, k: int| 0 <= w < u && 0 <= k < outputs_of(e, w).len() ==> ns.contains(#[trigger] outputs_of(e, w)[k]),
        decreases n - u,
    {
        let ghost name = ns[u as int];
        assert(names@[u as int]@ == name);
        assert(ns.contains(name));
        let mut idx: usize = entries.len();
        while idx > 0 && !same_chars(entries[idx - 1].0.as_slice(), names[u].as_slice())
            invariant
                idx <= entries.len(),
                e == entries_view(entries@),
                names@[u as int]@ == name,
                u < names@.len(),
                forall|j: int| idx <= j < entries.len() ==> e[j].0 != name,
            decreases idx,
        {
            idx -= 1;
        }
        assert(idx > 0) by {
            let i0 = choose|i: int| 0 <= i < e.len() && e[i].0 == name;
        }
        proof {
            assert(e[idx - 1].0 == name);
            lemma_last_outputs(e, name, idx as int, e.len() as int);
        }
        let outs = &entries[idx - 1].1;
        let ghost os = e[idx - 1].1;
        assert(outs@.len() == os.len());
        let mut k: usize = 0;
        while k < outs.len()
            invariant
                k <= outs.len(),
                u < n,
                n == names@.len(),
                e == entries_view(entries@),
                ns == names_of(e),
                names_view(names@) == ns,
                out@ == out_word(),
                os == e[idx - 1].1,
                outs@.len() == os.len(),
                forall|t: int| 0 <= t < outs@.len() ==> #[trigger] outs@[t]@ == os[t],
                outputs_of(e, u as int) == linked(os),
                g.n() == n,
                g.wf(),
                forall|w: int| 0 <= w < n ==> (#[trigger] g.nodes@[w]).name@ == ns[w],
                forall|w: int| 0 <= w < n ==> (#[trigger] g.nodes@[w]).value@ == Seq::<char>::empty(),
            forall|w: int| 0 <= w < n ==> (#[trigger] g.nodes@[w]).value@ == Seq::<char>::empty(),
                forall|w: int|
                    0 <= w < u ==> (#[trigger] g.kids(w)).len() == outputs_of(e, w).len() && forall|t: int|
                        0 <= t < g.kids(w).len() ==> ns[#[trigger] g.kids(w)[t] as int] == outputs_of(e, w)[t],
                g.kids(u as int).len() == linked(os.take(k as int)).len(),
                forall|t: int| 0 <= t < g.kids(u as int).len() ==> ns[#[trigger] g.kids(u as int)[t] as int] == linked(os.take(k as int))[t],
                forall|w: int| u < w < n ==> (#[trigger] g.kids(w)).len() == 0,
                forall|w: int, p: int|
                    0 <= w < n && 0 <= p < n ==> (#[trigger] g.pars(w).contains(p as usize) <==> #[trigger] g.kids(p).contains(w as usize)),
                forall|t: int| 0 <= t < linked(os.take(k as int)).len() ==> ns.contains(#[trigger] linked(os.take(k as int))[t]),
            decreases outs.len() - k,
        {
            assert(os.take(k + 1).drop_last() =~= os.take(k as int));
            assert(outs@[k as int]@ == os[k as int]);
            if same_chars(outs[k].as_slice(), out.as_slice()) {
            } else {
                match find_name(&names, outs[k].as_slice()) {
                    None => {
                        proof {
                            lemma_linked_prefix(os, k + 1);
                            let kk = linked(os.take(k as int)).len() as int;
                            assert(linked(os.take(k + 1))[kk] == os[k as int]);
                            assert(outputs_of(e, u as int)[kk] == os[k as int]);
                            assert(!ns.contains(os[k as int])) by {
                                if ns.contains(os[k as int]) {
                                    let j = choose|j: int| 0 <= j < ns.len() && ns[j] == os[k as int];
                                    assert(names@[j]@ == os[k as int]);
                                }
                            }
                        }
                        return Err(vstd::slice::slice_to_vec(outs[k].as_slice()));
                    },
                    Some(id) => {
                        let ghost g0 = g;
                        g.add_child(u, id);
                        proof {
                            assert forall|w: int, p: int|
                                0 <= w < n && 0 <= p < n implies (#[trigger] g.pars(w).contains(p as usize) <==> #[trigger] g.kids(p).contains(w as usize)) by {
                                if w == id && p == u {
                                    assert(g.pars(w).last() == u);
                                    assert(g.kids(p).last() == id);
                                } else if w == id {
                                    assert(g.pars(w) == g0.pars(w).push(u));
                                    if g.pars(w).contains(p as usize) {
                                        let j = choose|j: int| 0 <= j < g.pars(w).len() && g.pars(w)[j] == p as usize;
                                        assert(g0.pars(w)[j] == p as usize);
                                        assert(g0.pars(w).contains(p as usize));
                                    }
                                    if g0.pars(w).contains(p as usize) {
                                        let j = choose|j: int| 0 <= j < g0.pars(w).len() && g0.pars(w)[j] == p as usize;
                                        assert(g.pars(w)[j] == p as usize);
                                    }
                                } else if p == u {
                                    assert(g.kids(p) == g0.kids(p).push(id));
                                    if g.kids(p).contains(w as usize) {
                                        let j = choose|j: int| 0 <= j < g.kids(p).len() && g.kids(p)[j] == w as usize;
                                        assert(g0.kids(p)[j] == w as usize);
                                        assert(g0.kids(p).contains(w as usize));
                                    }
                                    if g0.kids(p).contains(w as usize) {
                                        let j = choose|j: int| 0 <= j < g0.kids(p).len() && g0.kids(p)[j] == w as usize;
                                        assert(g.kids(p)[j] == w as usize);
                                    }
                                } else {
                                    assert(g.pars(w) == g0.pars(w));
                                    assert(g.kids(p) == g0.kids(p));
                                }
                            }
                            assert(g.wf()) by {
                                assert forall|w: int, t: int| 0 <= w < g.n() && 0 <= t < g.kids(w).len() implies #[trigger] g.kids(w)[t] < g.n() by {
                                    if w != u || t < g0.kids(w).len() {
                                        assert(g.kids(w)[t] == g0.kids(w)[t]);
                                    }
                                }
                                assert forall|w: int, t: int| 0 <= w < g.n() && 0 <= t < g.pars(w).len() implies #[trigger] g.pars(w)[t] < g.n() by {
                                    if w != id || t < g0.pars(w).len() {
                                        assert(g.pars(w)[t] == g0.pars(w)[t]);
                                    }
                                }
                            }
                            assert(names@[id as int]@ == os[k as int]);
                            assert(ns.contains(os[k as int])) by {
                                assert(ns[id as int] == os[k as int]);
                            }
                        }
                    },
                }
            }
            k += 1;
        }
        assert(os.take(outs.len() as int) =~= os);
        u += 1;
    }
    proof {
        assert forall|w: int, t: int|
            0 <= w < ns.len() && 0 <= t < outputs_of(e, w).len() implies ns.contains(#[trigger] outputs_of(e, w)[t]) by {}
    }
    Ok(g)
}

/// The device with the given name.
pub fn find_node(g: &Graph, name: &[char]) -> (r: Option<usize>)
    ensures
        match r {
            Some(u) => u < g.n() && g.nodes@[u as int].name@ == name@,
            None => forall|u: int| 0 <= u < g.n() ==> (#[trigger] g.nodes@[u]).name@ != name@,
        },
{
    let mut u: usize = 0;
    while u < g.nodes.len()
        invariant
            u <= g.nodes.len(),
            forall|w: int| 0 <= w < u ==> (#[trigger] g.nodes@[w]).name@ != name@,
        decreases g.nodes.len() - u,
    {
        if same_chars(g.nodes[u].name.as_slice(), name) {
            return Some(u);
        }
        u += 1;
    }
    None
}

} // verus!
