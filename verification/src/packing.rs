//! Laying presents out in a region: a model of placements (each present turned or
//! mirrored and shifted onto the grid, no two sharing a cell), and what the two quick
//! tests of a region mean for it.
use vstd::prelude::*;
use vstd::relations::injective_on;
use crate::presents::{count_sum, ones, region_class, rows_ones, tight_sum, Shape};

verus! {

/// The presents of a region as shape numbers: `counts[i]` times shape `i`, for the
/// first `k` shapes.
pub open spec fn present_list(counts: Seq<usize>, k: int) -> Seq<usize>
    decreases k,
{
    if k <= 0 {
        Seq::empty()
    } else {
        present_list(counts, k - 1) + Seq::new(counts[k - 1] as nat, |j: int| (k - 1) as usize)
    }
}

/// The eight ways to lay a shape's 3x3 box down: four quarter turns, each also mirrored.
pub open spec fn orient(o: int, x: int, y: int) -> (int, int) {
    if o == 0 {
        (x, y)
    } else if o == 1 {
        (2 - y, x)
    } else if o == 2 {
        (2 - x, 2 - y)
    } else if o == 3 {
        (y, 2 - x)
    } else if o == 4 {
        (2 - x, y)
    } else if o == 5 {
        (y, x)
    } else if o == 6 {
        (x, 2 - y)
    } else {
        (2 - y, 2 - x)
    }
}

/// The cells a shape covers, as (column, row).
pub open spec fn cells(s: Shape) -> Set<(int, int)> {
    Set::new(|c: (int, int)| 0 <= c.1 < s.height && 0 <= c.0 < 64 && s.covers(c.0, c.1))
}

/// The cells of the grid a shape covers when laid down as `p`: way `p.0`, shifted by
/// `p.1` columns and `p.2` rows.
pub open spec fn placed(s: Shape, p: (int, int, int)) -> Set<(int, int)> {
    Set::new(
        |c: (int, int)|
            exists|a: (int, int)|
                #[trigger] cells(s).contains(a) && c == (orient(p.0, a.0, a.1).0 + p.1, orient(p.0, a.0, a.1).1 + p.2),
    )
}

/// `pl` lays every present of region `g` down inside the region, no two on one cell.
pub open spec fn placement_ok(shapes: Map<usize, Shape>, g: ((usize, usize), Seq<usize>), pl: Seq<(int, int, int)>) -> bool {
    let ps = present_list(g.1, g.1.len() as int);
    &&& pl.len() == ps.len()
    &&& forall|p: int| 0 <= p < pl.len() ==> 0 <= (#[trigger] pl[p]).0 < 8 && shapes.contains_key(ps[p])
    &&& forall|p: int, c: (int, int)|
        0 <= p < pl.len() && #[trigger] placed(shapes[ps[p]], pl[p]).contains(c) ==> 0 <= c.0 < g.0.0 && 0 <= c.1
            < g.0.1
    &&& forall|p: int, q: int, c: (int, int)|
        0 <= p < q < pl.len() && #[trigger] placed(shapes[ps[p]], pl[p]).contains(c) ==> !#[trigger] placed(
            shapes[ps[q]],
            pl[q],
        ).contains(c)
}

/// The presents of region `g` can all be laid down in it.
pub open spec fn fits(shapes: Map<usize, Shape>, g: ((usize, usize), Seq<usize>)) -> bool {
    exists|pl: Seq<(int, int, int)>| #[trigger] placement_ok(shapes, g, pl)
}

/// The shape covers nothing beyond its first three columns and has at most three rows.
pub open spec fn in_box(s: Shape) -> bool {
    &&& s.height <= 3
    &&& forall|x: int, y: int| 3 <= x < 64 && 0 <= y < s.height ==> !#[trigger] s.covers(x, y)
}

proof fn lemma_present_list(counts: Seq<usize>, k: int)
    requires
        0 <= k <= counts.len(),
        counts.len() <= usize::MAX,
    ensures
        present_list(counts, k).len() == count_sum(counts, k),
        forall|p: int|
            0 <= p < present_list(counts, k).len() ==> (#[trigger] present_list(counts, k)[p]) < k && counts[
                present_list(counts, k)[p] as int] > 0,
    decreases k,
{
    if k > 0 {
        lemma_present_list(counts, k - 1);
        let a = present_list(counts, k - 1);
        let b = Seq::new(counts[k - 1] as nat, |j: int| (k - 1) as usize);
        assert forall|p: int| 0 <= p < (a + b).len() implies (#[trigger] (a + b)[p]) < k && counts[(a
            + b)[p] as int] > 0 by {
            if p < a.len() {
                assert((a + b)[p] == a[p]);
            } else {
                assert((a + b)[p] == b[p - a.len()]);
                assert(b[p - a.len()] == (k - 1) as usize);
                assert(((k - 1) as usize) as int == k - 1);
            }
        }
    }
}

/// Present `p` of `m` boxes per row goes to box column `p % m`, box row `p / m`.
pub open spec fn box_layout(n: nat, m: int) -> Seq<(int, int, int)> {
    Seq::new(n, |p: int| (0, 3 * (p % m), 3 * (p / m)))
}

proof fn lemma_same_third(a: int, b: int, u: int, v: int)
    requires
        0 <= a < 3,
        0 <= b < 3,
        a + 3 * u == b + 3 * v,
    ensures
        u == v,
{
}

proof fn lemma_same_box(p: int, q: int, m: int)
    requires
        m >= 1,
        0 <= p,
        0 <= q,
        p % m == q % m,
        p / m == q / m,
    ensures
        p == q,
{
    assert(p == m * (p / m) + p % m) by (nonlinear_arith)
        requires
            m >= 1,
    ;
    assert(q == m * (q / m) + q % m) by (nonlinear_arith)
        requires
            m >= 1,
    ;
}

proof fn lemma_box_bounds(p: int, m: int, rows: int, total: int, w: int, h: int)
    requires
        m >= 1,
        m == w / 3,
        rows == h / 3,
        w >= 0,
        h >= 0,
        0 <= p < total,
        total <= m * rows,
    ensures
        3 * (p % m) + 3 <= w,
        3 * (p / m) + 3 <= h,
        0 <= p % m,
        0 <= p / m,
{
    assert(0 <= p % m < m && 0 <= p / m) by (nonlinear_arith)
        requires
            m >= 1,
            0 <= p,
    ;
    assert(p / m < rows) by (nonlinear_arith)
        requires
            m >= 1,
            0 <= p < total,
            total <= m * rows,
    ;
}

/// A region that the loose test accepts (its presents number at most its whole 3x3
/// boxes) does hold its presents: each goes, unturned, into a box of its own. This
/// holds for shapes within a 3x3 box.
pub proof fn loose_regions_fit(shapes: Map<usize, Shape>, g: ((usize, usize), Seq<usize>))
    requires
        g.1.len() <= usize::MAX,
        region_class(shapes, g) == 0,
        forall|i: int| 0 <= i < g.1.len() && g.1[i] > 0 ==> #[trigger] shapes.contains_key(i as usize) && in_box(
            shapes[i as usize],
        ),
    ensures
        fits(shapes, g),
{
    let w = g.0.0 as int;
    let h = g.0.1 as int;
    let counts = g.1;
    let ps = present_list(counts, counts.len() as int);
    lemma_present_list(counts, counts.len() as int);
    let total = ps.len() as int;
    let m = w / 3;
    let rows = h / 3;
    assert(total <= m * rows);
    if m == 0 {
        assert(m * rows == 0);
    }
    let mm = if m == 0 {
        1
    } else {
        m
    };
    let pl = box_layout(ps.len(), mm);
    assert forall|p: int| 0 <= p < pl.len() implies 0 <= (#[trigger] pl[p]).0 < 8 && shapes.contains_key(ps[p]) by {
        assert(counts[ps[p] as int] > 0);
        assert(shapes.contains_key(ps[p] as int as usize));
    }
    assert forall|p: int, c: (int, int)|
        0 <= p < pl.len() && #[trigger] placed(shapes[ps[p]], pl[p]).contains(c) implies 0 <= c.0 < w && 0 <= c.1 < h by {
        let s = shapes[ps[p]];
        let a = choose|a: (int, int)| #[trigger] cells(s).contains(a) && c == (orient(pl[p].0, a.0, a.1).0 + pl[p].1, orient(pl[p].0, a.0, a.1).1 + pl[p].2);
        assert(counts[ps[p] as int] > 0);
        assert(shapes.contains_key(ps[p] as int as usize));
        assert(in_box(s));
        assert(a.0 < 3) by {
            if a.0 >= 3 {
                assert(!s.covers(a.0, a.1));
            }
        }
        lemma_box_bounds(p, mm, rows, total, w, h);
    }
    assert forall|p: int, q: int, c: (int, int)|
        0 <= p < q < pl.len() && #[trigger] placed(shapes[ps[p]], pl[p]).contains(c) implies !#[trigger] placed(
            shapes[ps[q]],
            pl[q],
        ).contains(c) by {
        let s = shapes[ps[p]];
        let t = shapes[ps[q]];
        let a = choose|a: (int, int)| #[trigger] cells(s).contains(a) && c == (orient(pl[p].0, a.0, a.1).0 + pl[p].1, orient(pl[p].0, a.0, a.1).1 + pl[p].2);
        assert(counts[ps[p] as int] > 0 && counts[ps[q] as int] > 0);
        assert(shapes.contains_key(ps[p] as int as usize) && shapes.contains_key(ps[q] as int as usize));
        assert(a.0 < 3) by {
            if a.0 >= 3 {
                assert(!s.covers(a.0, a.1));
            }
        }
        if placed(t, pl[q]).contains(c) {
            let b = choose|b: (int, int)| #[trigger] cells(t).contains(b) && c == (orient(pl[q].0, b.0, b.1).0 + pl[q].1, orient(pl[q].0, b.0, b.1).1 + pl[q].2);
            assert(b.0 < 3) by {
                if b.0 >= 3 {
                    assert(!t.covers(b.0, b.1));
                }
            }
            lemma_same_third(a.0, b.0, p % mm, q % mm);
            lemma_same_third(a.1, b.1, p / mm, q / mm);
            lemma_same_box(p, q, mm);
        }
    }
    assert(placement_ok(shapes, g, pl));
}

/// The columns `0..64` whose bit is set in `v`.
pub open spec fn bits(v: u64) -> Set<int> {
    Set::new(|x: int| 0 <= x < 64 && (v >> (x as u64)) & 1 == 1)
}

proof fn lemma_bits(v: u64)
    ensures
        bits(v).finite(),
        bits(v).len() == ones(v),
    decreases v,
{
    if v == 0 {
        assert(bits(v) =~= Set::<int>::empty()) by {
            assert forall|x: int| !bits(v).contains(x) by {
                if 0 <= x < 64 {
                    let xx = x as u64;
                    assert((0u64 >> xx) & 1 == 0) by (bit_vector);
                }
            }
        }
    } else {
        let h = v / 2;
        lemma_bits(h);
        let s = bits(h);
        let f = |x: int| x + 1;
        let t = s.map(f);
        assert(injective_on(f, s));
        vstd::set_lib::lemma_map_size(s, t, f);
        let low: Set<int> = if v % 2 == 1 {
            set![0int]
        } else {
            Set::empty()
        };
        assert(bits(v) =~= low + t) by {
            assert forall|x: int| bits(v).contains(x) <==> (low + t).contains(x) by {
                if 1 <= x < 64 {
                    let xx = x as u64;
                    let x1 = (x - 1) as u64;
                    assert((v >> xx) & 1 == ((v / 2) >> x1) & 1) by (bit_vector)
                        requires
                            1 <= xx < 64,
                            xx == x1 + 1,
                    ;
                    if bits(v).contains(x) {
                        assert(s.contains(x - 1));
                        assert(f(x - 1) == x);
                    }
                    if t.contains(x) {
                        let y = choose|y: int| s.contains(y) && f(y) == x;
                        assert(y == x - 1);
                    }
                } else if x == 0 {
                    assert((v >> 0u64) & 1 == v % 2) by (bit_vector);
                    if t.contains(x) {
                        let y = choose|y: int| s.contains(y) && f(y) == x;
                    }
                } else if t.contains(x) {
                    let y = choose|y: int| s.contains(y) && f(y) == x;
                    if y == 63 {
                        assert(((v / 2) >> 63u64) & 1 == 0) by (bit_vector);
                    }
                }
            }
        }
        assert(low.disjoint(t)) by {
            assert forall|x: int| low.contains(x) implies !t.contains(x) by {
                if t.contains(x) {
                    let y = choose|y: int| s.contains(y) && f(y) == x;
                }
            }
        }
        vstd::set_lib::lemma_set_disjoint_lens(low, t);
    }
}

/// The cells of the first `h` rows of a shape.
pub open spec fn cells_upto(s: Shape, h: int) -> Set<(int, int)> {
    Set::new(|c: (int, int)| 0 <= c.1 < h && c.1 < s.height && 0 <= c.0 < 64 && s.covers(c.0, c.1))
}

proof fn lemma_cells_upto(s: Shape, h: int)
    requires
        0 <= h <= s.height,
    ensures
        cells_upto(s, h).finite(),
        cells_upto(s, h).len() == rows_ones(s.rows@, h),
    decreases h,
{
    if h == 0 {
        assert(cells_upto(s, h) =~= Set::<(int, int)>::empty());
    } else {
        lemma_cells_upto(s, h - 1);
        let y = h - 1;
        let row = s.rows@[y];
        lemma_bits(row);
        let f = |x: int| (x, y);
        let r = bits(row).map(f);
        assert(injective_on(f, bits(row)));
        vstd::set_lib::lemma_map_size(bits(row), r, f);
        assert(cells_upto(s, h) =~= cells_upto(s, h - 1) + r) by {
            assert forall|c: (int, int)| cells_upto(s, h).contains(c) <==> (cells_upto(s, h - 1) + r).contains(c) by {
                if cells_upto(s, h).contains(c) && c.1 == y {
                    assert(bits(row).contains(c.0));
                    assert(f(c.0) == c);
                }
                if r.contains(c) {
                    let x = choose|x: int| bits(row).contains(x) && f(x) == c;
                }
            }
        }
        assert(cells_upto(s, h - 1).disjoint(r)) by {
            assert forall|c: (int, int)| cells_upto(s, h - 1).contains(c) implies !r.contains(c) by {
                if r.contains(c) {
                    let x = choose|x: int| bits(row).contains(x) && f(x) == c;
                }
            }
        }
        vstd::set_lib::lemma_set_disjoint_lens(cells_upto(s, h - 1), r);
    }
}

/// A shape laid down anywhere, in any of the eight ways, covers as many cells as the
/// shape has.
proof fn lemma_placed_len(s: Shape, p: (int, int, int))
    requires
        0 <= p.0 < 8,
    ensures
        placed(s, p).finite(),
        placed(s, p).len() == s.size_spec(),
{
    let f = |a: (int, int)| (orient(p.0, a.0, a.1).0 + p.1, orient(p.0, a.0, a.1).1 + p.2);
    let c = cells(s);
    assert(c =~= cells_upto(s, s.height as int));
    lemma_cells_upto(s, s.height as int);
    assert(injective_on(f, c));
    assert(c.map(f) =~= placed(s, p)) by {
        assert forall|q: (int, int)| c.map(f).contains(q) <==> placed(s, p).contains(q) by {
            if c.map(f).contains(q) {
                let a = choose|a: (int, int)| c.contains(a) && f(a) == q;
                assert(cells(s).contains(a));
            }
            if placed(s, p).contains(q) {
                let a = choose|a: (int, int)| #[trigger] cells(s).contains(a) && q == (orient(p.0, a.0, a.1).0 + p.1, orient(p.0, a.0, a.1).1 + p.2);
                assert(f(a) == q);
            }
        }
    }
    vstd::set_lib::lemma_map_size(c, placed(s, p), f);
}

/// The cells of the sizes of the shapes numbered in `ids`.
pub open spec fn ids_size(shapes: Map<usize, Shape>, ids: Seq<usize>) -> int
    decreases ids.len(),
{
    if ids.len() == 0 {
        0
    } else {
        ids_size(shapes, ids.drop_last()) + shapes[ids.last()].size_spec()
    }
}

proof fn lemma_ids_size_concat(shapes: Map<usize, Shape>, a: Seq<usize>, b: Seq<usize>)
    ensures
        ids_size(shapes, a + b) == ids_size(shapes, a) + ids_size(shapes, b),
    decreases b.len(),
{
    if b.len() == 0 {
        assert(a + b =~= a);
    } else {
        lemma_ids_size_concat(shapes, a, b.drop_last());
        assert((a + b).drop_last() =~= a + b.drop_last());
    }
}

proof fn lemma_ids_size_copies(shapes: Map<usize, Shape>, i: usize, n: nat)
    ensures
        ids_size(shapes, Seq::new(n, |j: int| i)) == n * shapes[i].size_spec(),
    decreases n,
{
    let q = Seq::new(n, |j: int| i);
    let z = shapes[i].size_spec();
    if n > 0 {
        lemma_ids_size_copies(shapes, i, (n - 1) as nat);
        assert(q.drop_last() =~= Seq::new((n - 1) as nat, |j: int| i));
        assert(q.last() == i);
        assert(ids_size(shapes, q) == ids_size(shapes, q.drop_last()) + z);
        assert(n * z == (n - 1) * z + z) by (nonlinear_arith);
    } else {
        assert(n * z == 0) by (nonlinear_arith)
            requires
                n == 0,
        ;
    }
}

proof fn lemma_tight_ids(shapes: Map<usize, Shape>, counts: Seq<usize>, k: int)
    requires
        0 <= k <= counts.len(),
        counts.len() <= usize::MAX,
    ensures
        ids_size(shapes, present_list(counts, k)) == tight_sum(shapes, counts, k),
    decreases k,
{
    if k > 0 {
        lemma_tight_ids(shapes, counts, k - 1);
        let i = (k - 1) as usize;
        assert(Seq::new(counts[k - 1] as nat, |j: int| (k - 1) as usize) =~= Seq::new(counts[k - 1] as nat, |j: int| i));
        lemma_ids_size_concat(shapes, present_list(counts, k - 1), Seq::new(counts[k - 1] as nat, |j: int| i));
        lemma_ids_size_copies(shapes, i, counts[k - 1] as nat);
        assert(i as int == k - 1);
    }
}

/// The cells covered by the first `k` presents of a layout.
pub open spec fn covered(shapes: Map<usize, Shape>, ps: Seq<usize>, pl: Seq<(int, int, int)>, k: int) -> Set<(int, int)>
    decreases k,
{
    if k <= 0 {
        Set::empty()
    } else {
        covered(shapes, ps, pl, k - 1) + placed(shapes[ps[k - 1]], pl[k - 1])
    }
}

proof fn lemma_covered(shapes: Map<usize, Shape>, g: ((usize, usize), Seq<usize>), pl: Seq<(int, int, int)>, k: int)
    requires
        placement_ok(shapes, g, pl),
        0 <= k <= pl.len(),
    ensures
        covered(shapes, present_list(g.1, g.1.len() as int), pl, k).finite(),
        covered(shapes, present_list(g.1, g.1.len() as int), pl, k).len() == ids_size(
            shapes,
            present_list(g.1, g.1.len() as int).take(k),
        ),
        forall|c: (int, int)|
            #[trigger] covered(shapes, present_list(g.1, g.1.len() as int), pl, k).contains(c) ==> 0 <= c.0 < g.0.0
                && 0 <= c.1 < g.0.1,
    decreases k,
{
    let ps = present_list(g.1, g.1.len() as int);
    if k == 0 {
        assert(ps.take(0) =~= Seq::<usize>::empty());
    } else {
        lemma_covered(shapes, g, pl, k - 1);
        let prev = covered(shapes, ps, pl, k - 1);
        let here = placed(shapes[ps[k - 1]], pl[k - 1]);
        assert(0 <= pl[k - 1].0 < 8);
        lemma_placed_len(shapes[ps[k - 1]], pl[k - 1]);
        assert(prev.disjoint(here)) by {
            assert forall|c: (int, int)| prev.contains(c) implies !here.contains(c) by {
                lemma_covered_from(shapes, ps, pl, k - 1, c);
                let p = choose|p: int| 0 <= p < k - 1 && #[trigger] placed(shapes[ps[p]], pl[p]).contains(c);
            }
        }
        vstd::set_lib::lemma_set_disjoint_lens(prev, here);
        assert(ps.take(k).drop_last() =~= ps.take(k - 1));
        assert forall|c: (int, int)| #[trigger] covered(shapes, ps, pl, k).contains(c) implies 0 <= c.0 < g.0.0 && 0 <= c.1
            < g.0.1 by {
            if here.contains(c) {
                assert(placed(shapes[ps[k - 1]], pl[k - 1]).contains(c));
            } else {
                assert(prev.contains(c));
            }
        }
    }
}

proof fn lemma_covered_from(shapes: Map<usize, Shape>, ps: Seq<usize>, pl: Seq<(int, int, int)>, k: int, c: (int, int))
    requires
        covered(shapes, ps, pl, k).contains(c),
    ensures
        exists|p: int| 0 <= p < k && #[trigger] placed(shapes[ps[p]], pl[p]).contains(c),
    decreases k,
{
    if k > 0 {
        if !placed(shapes[ps[k - 1]], pl[k - 1]).contains(c) {
            lemma_covered_from(shapes, ps, pl, k - 1, c);
        }
    }
}

/// The cells of a region `w` wide, its first `h` rows.
pub open spec fn region_cells(w: int, h: int) -> Set<(int, int)> {
    Set::new(|c: (int, int)| 0 <= c.0 < w && 0 <= c.1 < h)
}

proof fn lemma_region_cells(w: int, h: int)
    requires
        w >= 0,
        h >= 0,
    ensures
        region_cells(w, h).finite(),
        region_cells(w, h).len() == w * h,
    decreases h,
{
    if h == 0 {
        assert(region_cells(w, h) =~= Set::<(int, int)>::empty());
    } else {
        lemma_region_cells(w, h - 1);
        let y = h - 1;
        let xs = vstd::set_lib::set_int_range(0, w);
        vstd::set_lib::lemma_int_range(0, w);
        let f = |x: int| (x, y);
        let r = xs.map(f);
        assert(injective_on(f, xs));
        vstd::set_lib::lemma_map_size(xs, r, f);
        assert(region_cells(w, h) =~= region_cells(w, h - 1) + r) by {
            assert forall|c: (int, int)| region_cells(w, h).contains(c) <==> (region_cells(w, h - 1) + r).contains(c) by {
                if region_cells(w, h).contains(c) && c.1 == y {
                    assert(xs.contains(c.0));
                    assert(f(c.0) == c);
                }
                if r.contains(c) {
                    let x = choose|x: int| xs.contains(x) && f(x) == c;
                }
            }
        }
        assert(region_cells(w, h - 1).disjoint(r)) by {
            assert forall|c: (int, int)| region_cells(w, h - 1).contains(c) implies !r.contains(c) by {
                if r.contains(c) {
                    let x = choose|x: int| xs.contains(x) && f(x) == c;
                }
            }
        }
        vstd::set_lib::lemma_set_disjoint_lens(region_cells(w, h - 1), r);
        assert(w * h == w * (h - 1) + w) by (nonlinear_arith);
    }
}

/// A region that the tight test rejects (its presents cover more cells than it has)
/// cannot hold them, however they are turned, mirrored and shifted.
pub proof fn tight_regions_do_not_fit(shapes: Map<usize, Shape>, g: ((usize, usize), Seq<usize>))
    requires
        g.1.len() <= usize::MAX,
        region_class(shapes, g) == 1,
    ensures
        !fits(shapes, g),
{
    if fits(shapes, g) {
        let pl = choose|pl: Seq<(int, int, int)>| #[trigger] placement_ok(shapes, g, pl);
        let ps = present_list(g.1, g.1.len() as int);
        let w = g.0.0 as int;
        let h = g.0.1 as int;
        lemma_covered(shapes, g, pl, pl.len() as int);
        assert(ps.take(pl.len() as int) =~= ps);
        lemma_tight_ids(shapes, g.1, g.1.len() as int);
        lemma_region_cells(w, h);
        let u = covered(shapes, ps, pl, pl.len() as int);
        assert(u.subset_of(region_cells(w, h)));
        vstd::set_lib::lemma_len_subset(u, region_cells(w, h));
    }
}

} // verus!
