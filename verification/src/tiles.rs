//! Red tiles on a grid: rectangles spanned by two red tiles, the loop of axis-parallel
//! segments through all red tiles in order, and whether a rectangle stays inside it.
use vstd::prelude::*;
use crate::decimal::{dec_str, int_to_chars};
use crate::text::{chars_of, push_chars, split_char, split_on, trim, trim_chars};
use crate::decimal::{parse_in, parse_i64};

verus! {

/// A tile position.
#[derive(Debug, Clone, Copy, PartialEq, Eq, Structural)]
pub struct Point {
    pub x: i64,
    pub y: i64,
}

/// The rectangle with opposite corners `p1` and `p2` (corners included); with equal
/// `x` or equal `y` it is a segment of the loop.
#[derive(Debug, Clone, Copy, PartialEq, Eq, Structural)]
pub struct Rect {
    pub p1: Point,
    pub p2: Point,
}

pub open spec fn absd(d: int) -> int {
    if d < 0 {
        -d
    } else {
        d
    }
}

/// The number of tiles from `a` to `b`, both included.
pub open spec fn span(a: i64, b: i64) -> int {
    absd(a - b) + 1
}

/// `(a - b).abs() + 1` runs without an overflow.
pub open spec fn span_ok(a: i64, b: i64) -> bool {
    &&& i64::MIN < a - b <= i64::MAX
    &&& absd(a - b) + 1 <= i64::MAX
}

pub open spec fn min_i64(a: i64, b: i64) -> i64 {
    if a <= b {
        a
    } else {
        b
    }
}

pub open spec fn max_i64(a: i64, b: i64) -> i64 {
    if a >= b {
        a
    } else {
        b
    }
}

fn span_of(a: i64, b: i64) -> (r: i64)
    requires
        span_ok(a, b),
    ensures
        r == span(a, b),
{
    let d = a - b;
    let m = if d < 0 {
        -d
    } else {
        d
    };
    m + 1
}

impl Point {
    /// The tile at column `x`, row `y`.
    pub fn new(x: i64, y: i64) -> (r: Self)
        ensures
            r.x == x,
            r.y == y,
    {
        Self { x, y }
    }

    /// The tiles of the rectangle with corners `self` and `p2`.
    pub open spec fn area_spec(self, p2: Point) -> int {
        span(self.x, p2.x) * span(self.y, p2.y)
    }

    pub open spec fn area_ok(self, p2: Point) -> bool {
        &&& span_ok(self.x, p2.x)
        &&& span_ok(self.y, p2.y)
        &&& self.area_spec(p2) <= i64::MAX
    }

    /// The number of tiles of the rectangle with corners `self` and `p2`.
    pub fn area(&self, p2: &Point) -> (r: i64)
        requires
            self.area_ok(*p2),
        ensures
            r == self.area_spec(*p2),
    {
        let width = span_of(self.x, p2.x);
        let height = span_of(self.y, p2.y);
        width * height
    }

    pub open spec fn text(self) -> Seq<char> {
        seq!['['] + dec_str(self.x as int) + seq![',', ' '] + dec_str(self.y as int) + seq![']']
    }

    /// The point as `[x, y]`.
    pub fn display_string(&self) -> (r: String)
        ensures
            r@ == self.text(),
    {
        let mut s = String::new();
        push_chars(&mut s, &['[']);
        push_chars(&mut s, int_to_chars(self.x as i128).as_slice());
        push_chars(&mut s, &[',', ' ']);
        push_chars(&mut s, int_to_chars(self.y as i128).as_slice());
        push_chars(&mut s, &[']']);
        assert(s@ =~= self.text());
        s
    }
}

impl Rect {
    pub open spec fn x_lo(self) -> i64 {
        min_i64(self.p1.x, self.p2.x)
    }

    pub open spec fn x_hi(self) -> i64 {
        max_i64(self.p1.x, self.p2.x)
    }

    pub open spec fn y_lo(self) -> i64 {
        min_i64(self.p1.y, self.p2.y)
    }

    pub open spec fn y_hi(self) -> i64 {
        max_i64(self.p1.y, self.p2.y)
    }

    /// The number of tiles of the rectangle.
    pub fn area(&self) -> (r: i64)
        requires
            self.p1.area_ok(self.p2),
        ensures
            r == self.p1.area_spec(self.p2),
    {
        self.p1.area(&self.p2)
    }

    /// The number of columns of the rectangle.
    pub fn width(&self) -> (r: i64)
        requires
            span_ok(self.p1.x, self.p2.x),
        ensures
            r == span(self.p1.x, self.p2.x),
    {
        span_of(self.p1.x, self.p2.x)
    }

    /// The number of rows of the rectangle.
    pub fn height(&self) -> (r: i64)
        requires
            span_ok(self.p1.y, self.p2.y),
        ensures
            r == span(self.p1.y, self.p2.y),
    {
        span_of(self.p1.y, self.p2.y)
    }

    /// The leftmost column.
    pub fn x_min(&self) -> (r: i64)
        ensures
            r == self.x_lo(),
    {
        if self.p1.x <= self.p2.x {
            self.p1.x
        } else {
            self.p2.x
        }
    }

    /// The rightmost column.
    pub fn x_max(&self) -> (r: i64)
        ensures
            r == self.x_hi(),
    {
        if self.p1.x >= self.p2.x {
            self.p1.x
        } else {
            self.p2.x
        }
    }

    /// The top row.
    pub fn y_min(&self) -> (r: i64)
        ensures
            r == self.y_lo(),
    {
        if self.p1.y <= self.p2.y {
            self.p1.y
        } else {
            self.p2.y
        }
    }

    /// The bottom row.
    pub fn y_max(&self) -> (r: i64)
        ensures
            r == self.y_hi(),
    {
        if self.p1.y >= self.p2.y {
            self.p1.y
        } else {
            self.p2.y
        }
    }

    pub open spec fn inside_spec(self, rect: Rect) -> bool {
        &&& self.x_lo() >= rect.x_lo()
        &&& self.x_hi() <= rect.x_hi()
        &&& self.y_lo() >= rect.y_lo()
        &&& self.y_hi() <= rect.y_hi()
    }

    /// Whether `self` lies within `rect`.
    pub fn inside(&self, rect: &Rect) -> (r: bool)
        ensures
            r == self.inside_spec(*rect),
    {
        self.x_min() >= rect.x_min() && self.x_max() <= rect.x_max() && self.y_min() >= rect.y_min()
            && self.y_max() <= rect.y_max()
    }

    /// `contains` runs without an overflow for `p`.
    pub open spec fn contains_ok(self, p: Point) -> bool {
        (p.x >= self.x_lo() && p.y >= self.y_lo()) ==> {
            &&& span_ok(self.p1.x, self.p2.x)
            &&& self.x_lo() + span(self.p1.x, self.p2.x) <= i64::MAX
            &&& p.x < self.x_lo() + span(self.p1.x, self.p2.x) ==> {
                &&& span_ok(self.p1.y, self.p2.y)
                &&& self.y_lo() + span(self.p1.y, self.p2.y) <= i64::MAX
            }
        }
    }

    /// Whether the tile `p` belongs to the rectangle.
    pub open spec fn contains_spec(self, p: Point) -> bool {
        self.x_lo() <= p.x <= self.x_hi() && self.y_lo() <= p.y <= self.y_hi()
    }

    /// Whether the tile lies in the rectangle.
    pub fn contains(&self, point: &Point) -> (r: bool)
        requires
            self.contains_ok(*point),
        ensures
            r == self.contains_spec(*point),
    {
        let x0 = self.x_min();
        let y0 = self.y_min();
        point.x >= x0 && point.y >= y0 && point.x < x0 + self.width() && point.y < y0
            + self.height()
    }
}

/// The tiles of columns `x0 .. x0 + i`, `h` tiles down from `y0` each, column after column.
pub open spec fn columns_from(x0: int, y0: int, i: int, h: int) -> Seq<Point>
    decreases i,
{
    if i <= 0 {
        Seq::empty()
    } else {
        columns_from(x0, y0, i - 1, h) + Seq::new(
            h as nat,
            |j: int| Point { x: (x0 + i - 1) as i64, y: (y0 + j) as i64 },
        )
    }
}

/// How many samples an edge of length `w` gets.
pub open spec fn samples(w: int, sampling: int) -> int {
    let m = if w <= sampling {
        w
    } else {
        sampling
    };
    if m >= 1 {
        m
    } else {
        1
    }
}

/// The distance between samples.
pub open spec fn sample_step(w: int, sw: int) -> int {
    if sw > 1 {
        w / (sw - 1)
    } else {
        0
    }
}

impl Rect {
    /// Every tile of the rectangle, column after column.
    pub open spec fn points_spec(self) -> Seq<Point> {
        columns_from(
            self.x_lo() as int,
            self.y_lo() as int,
            span(self.p1.x, self.p2.x),
            span(self.p1.y, self.p2.y),
        )
    }

    /// Every tile of the rectangle, column by column.
    pub fn points(&self) -> (r: Vec<Point>)
        requires
            span_ok(self.p1.x, self.p2.x),
            span_ok(self.p1.y, self.p2.y),
        ensures
            r@ == self.points_spec(),
    {
        let mut ret: Vec<Point> = Vec::new();
        let x = self.x_min();
        let y = self.y_min();
        let w = self.width();
        let h = self.height();
        let mut i: i64 = 0;
        while i < w
            invariant
                0 <= i <= w,
                w == span(self.p1.x, self.p2.x),
                h == span(self.p1.y, self.p2.y),
                x == self.x_lo(),
                y == self.y_lo(),
                x + w - 1 == self.x_hi(),
                y + h - 1 == self.y_hi(),
                ret@ == columns_from(x as int, y as int, i as int, h as int),
            decreases w - i,
        {
            let ghost before = ret@;
            let mut j: i64 = 0;
            while j < h
                invariant
                    0 <= j <= h,
                    0 <= i < w,
                    x + w - 1 == self.x_hi(),
                    y + h - 1 == self.y_hi(),
                    ret@ == before + Seq::new(
                        j as nat,
                        |t: int| Point { x: (x + i) as i64, y: (y + t) as i64 },
                    ),
                decreases h - j,
            {
                ret.push(Point { x: x + i, y: y + j });
                j += 1;
                assert(ret@ =~= before + Seq::new(
                    j as nat,
                    |t: int| Point { x: (x + i) as i64, y: (y + t) as i64 },
                ));
            }
            i += 1;
        }
        ret
    }

    /// The sampled tiles of the edges: pairs on the top and bottom edges, then pairs on
    /// the left and right edges.
    pub open spec fn edges_spec(self, sampling: int) -> Seq<Point> {
        let x0 = self.x_lo() as int;
        let y0 = self.y_lo() as int;
        let w = span(self.p1.x, self.p2.x);
        let h = span(self.p1.y, self.p2.y);
        let sw = samples(w, sampling);
        let sh = samples(h, sampling);
        let stx = sample_step(w, sw);
        let sty = sample_step(h, sh);
        Seq::new(
            (2 * sw) as nat,
            |t: int|
                Point {
                    x: (x0 + (t / 2) * stx) as i64,
                    y: if t % 2 == 0 {
                        y0 as i64
                    } else {
                        (y0 + h - 1) as i64
                    },
                },
        ) + Seq::new(
            (2 * sh) as nat,
            |t: int|
                Point {
                    x: if t % 2 == 0 {
                        x0 as i64
                    } else {
                        (x0 + w - 1) as i64
                    },
                    y: (y0 + (t / 2) * sty) as i64,
                },
        )
    }

    /// `points_edges` runs without an overflow.
    pub open spec fn edges_ok(self, sampling: int) -> bool {
        let w = span(self.p1.x, self.p2.x);
        let h = span(self.p1.y, self.p2.y);
        let sw = samples(w, sampling);
        let sh = samples(h, sampling);
        &&& span_ok(self.p1.x, self.p2.x)
        &&& span_ok(self.p1.y, self.p2.y)
        &&& self.x_lo() + (sw - 1) * sample_step(w, sw) <= i64::MAX
        &&& self.y_lo() + (sh - 1) * sample_step(h, sh) <= i64::MAX
        &&& self.x_lo() + w <= i64::MAX
        &&& self.y_lo() + h <= i64::MAX
    }

    /// Tiles sampled along the edges: up to `sampling` evenly spaced per edge, top and
    /// bottom first, then left and right.
    pub fn points_edges(&self, sampling: i64) -> (r: Vec<Point>)
        requires
            self.edges_ok(sampling as int),
        ensures
            r@ == self.edges_spec(sampling as int),
    {
        let mut edges: Vec<Point> = Vec::new();
        let x0 = self.x_min();
        let y0 = self.y_min();
        let w = self.width();
        let h = self.height();
        let mw = if w <= sampling {
            w
        } else {
            sampling
        };
        let sw = if mw >= 1 {
            mw
        } else {
            1
        };
        let mh = if h <= sampling {
            h
        } else {
            sampling
        };
        let sh = if mh >= 1 {
            mh
        } else {
            1
        };
        let step_x = if sw > 1 {
            w / (sw - 1)
        } else {
            0
        };
        let step_y = if sh > 1 {
            h / (sh - 1)
        } else {
            0
        };
        proof {
            if sw > 1 {
                assert(0 <= (sw - 1) * step_x <= w) by (nonlinear_arith)
                    requires
                        sw > 1,
                        w >= 1,
                        step_x == w as int / (sw - 1) as int,
                ;
            }
            if sh > 1 {
                assert(0 <= (sh - 1) * step_y <= h) by (nonlinear_arith)
                    requires
                        sh > 1,
                        h >= 1,
                        step_y == h as int / (sh - 1) as int,
                ;
            }
        }
        let ghost top = Seq::new(
            (2 * sw) as nat,
            |t: int|
                Point {
                    x: (x0 + (t / 2) * step_x) as i64,
                    y: if t % 2 == 0 {
                        y0
                    } else {
                        (y0 + h - 1) as i64
                    },
                },
        );
        let mut k: i64 = 0;
        while k < sw
            invariant
                0 <= k <= sw,
                sw >= 1,
                step_x >= 0,
                0 <= (sw - 1) * step_x <= w,
                x0 + (sw - 1) * step_x <= i64::MAX,
                y0 + h - 1 == self.y_hi(),
                y0 + h <= i64::MAX,
                top == Seq::new(
                    (2 * sw) as nat,
                    |t: int|
                        Point {
                            x: (x0 + (t / 2) * step_x) as i64,
                            y: if t % 2 == 0 {
                                y0
                            } else {
                                (y0 + h - 1) as i64
                            },
                        },
                ),
                edges@ == top.take(2 * k),
            decreases sw - k,
        {
            assert(0 <= k * step_x <= (sw - 1) * step_x) by (nonlinear_arith)
                requires
                    0 <= k < sw,
                    step_x >= 0,
            ;
            let x = x0 + k * step_x;
            edges.push(Point { x, y: y0 });
            edges.push(Point { x, y: y0 + h - 1 });
            k += 1;
            assert(edges@ =~= top.take(2 * k)) by {
                assert(top[2 * k - 2] == Point { x, y: y0 });
                assert(top[2 * k - 1] == Point { x, y: (y0 + h - 1) as i64 });
            }
        }
        assert(top.take(2 * sw) =~= top);
        let ghost side = Seq::new(
            (2 * sh) as nat,
            |t: int|
                Point {
                    x: if t % 2 == 0 {
                        x0
                    } else {
                        (x0 + w - 1) as i64
                    },
                    y: (y0 + (t / 2) * step_y) as i64,
                },
        );
        let mut k: i64 = 0;
        while k < sh
            invariant
                0 <= k <= sh,
                sh >= 1,
                step_y >= 0,
                0 <= (sh - 1) * step_y <= h,
                y0 + (sh - 1) * step_y <= i64::MAX,
                x0 + w - 1 == self.x_hi(),
                x0 + w <= i64::MAX,
                side == Seq::new(
                    (2 * sh) as nat,
                    |t: int|
                        Point {
                            x: if t % 2 == 0 {
                                x0
                            } else {
                                (x0 + w - 1) as i64
                            },
                            y: (y0 + (t / 2) * step_y) as i64,
                        },
                ),
                edges@ == top + side.take(2 * k),
            decreases sh - k,
        {
            assert(0 <= k * step_y <= (sh - 1) * step_y) by (nonlinear_arith)
                requires
                    0 <= k < sh,
                    step_y >= 0,
            ;
            let y = y0 + k * step_y;
            edges.push(Point { x: x0, y });
            edges.push(Point { x: x0 + w - 1, y });
            k += 1;
            assert(edges@ =~= top + side.take(2 * k)) by {
                assert(side[2 * k - 2] == Point { x: x0, y });
                assert(side[2 * k - 1] == Point { x: (x0 + w - 1) as i64, y });
            }
        }
        assert(side.take(2 * sh) =~= side);
        assert(edges@ =~= self.edges_spec(sampling as int));
        edges
    }
}

/// Whether some segment of the loop holds `p`.
pub open spec fn on_loop(poly: Seq<Rect>, p: Point) -> bool {
    exists|i: int| 0 <= i < poly.len() && #[trigger] poly[i].contains_spec(p)
}

/// Testing the segments one by one for `p`, up to the first that holds it, does not overflow.
pub open spec fn scan_ok(poly: Seq<Rect>, p: Point) -> bool {
    forall|i: int|
        0 <= i < poly.len() && (forall|j: int| 0 <= j < i ==> !#[trigger] poly[j].contains_spec(p))
            ==> #[trigger] poly[i].contains_ok(p)
}

/// The vertical segment `v` meets the ray from `p` to the right (its lower end counts,
/// its upper end does not).
pub open spec fn crosses(v: Rect, p: Point) -> bool {
    p.x <= v.p1.x && v.y_lo() <= p.y && p.y < v.y_hi()
}

/// Of the first `k` segments of `vs`, how many meet the ray from `p`.
pub open spec fn crossings(vs: Seq<Rect>, p: Point, k: int) -> nat
    decreases k,
{
    if k <= 0 {
        0
    } else {
        crossings(vs, p, k - 1) + if crosses(vs[k - 1], p) {
            1nat
        } else {
            0nat
        }
    }
}

/// The vertical segments of the loop, in order.
pub open spec fn verticals_of(poly: Seq<Rect>) -> Seq<Rect>
    decreases poly.len(),
{
    if poly.len() == 0 {
        Seq::empty()
    } else {
        let v = verticals_of(poly.drop_last());
        if poly.last().p1.x == poly.last().p2.x {
            v.push(poly.last())
        } else {
            v
        }
    }
}

/// A tile is inside when it lies on the loop or the ray to its right meets an odd
/// number of vertical segments.
pub open spec fn inside_point_spec(poly: Seq<Rect>, vs: Seq<Rect>, p: Point) -> bool {
    on_loop(poly, p) || crossings(vs, p, vs.len() as int) % 2 == 1
}

pub open spec fn inside_point_ok(poly: Seq<Rect>, vs: Seq<Rect>, p: Point) -> bool {
    &&& scan_ok(poly, p)
    &&& !on_loop(poly, p) ==> crossings(vs, p, vs.len() as int) <= i32::MAX
}

/// Whether some segment of `poly` holds `point`, testing them in order.
fn any_contains(poly: &Vec<Rect>, point: &Point) -> (r: bool)
    requires
        scan_ok(poly@, *point),
    ensures
        r == on_loop(poly@, *point),
{
    let mut i: usize = 0;
    while i < poly.len()
        invariant
            i <= poly.len(),
            scan_ok(poly@, *point),
            forall|j: int| 0 <= j < i ==> !#[trigger] poly@[j].contains_spec(*point),
        decreases poly.len() - i,
    {
        assert(poly@[i as int].contains_ok(*point));
        if poly[i].contains(point) {
            return true;
        }
        i += 1;
    }
    false
}

/// Whether `point` is on the loop or inside it.
pub fn inside_poly_point(poly: &Vec<Rect>, vertical_lines: &Vec<Rect>, point: Point) -> (r: bool)
    requires
        inside_point_ok(poly@, vertical_lines@, point),
    ensures
        r == inside_point_spec(poly@, vertical_lines@, point),
{
    if any_contains(poly, &point) {
        return true;
    }
    let mut count: i32 = 0;
    let mut i: usize = 0;
    while i < vertical_lines.len()
        invariant
            i <= vertical_lines.len(),
            count == crossings(vertical_lines@, point, i as int),
            crossings(vertical_lines@, point, vertical_lines@.len() as int) <= i32::MAX,
        decreases vertical_lines.len() - i,
    {
        proof {
            lemma_crossings_mono(vertical_lines@, point, i + 1, vertical_lines@.len() as int);
        }
        let line = vertical_lines[i];
        if point.x <= line.p1.x && point.y >= line.y_min() && point.y < line.y_max() {
            count += 1;
        }
        i += 1;
    }
    count % 2 == 1
}

proof fn lemma_crossings_mono(vs: Seq<Rect>, p: Point, a: int, b: int)
    requires
        0 <= a <= b,
    ensures
        crossings(vs, p, a) <= crossings(vs, p, b),
    decreases b - a,
{
    if a < b {
        lemma_crossings_mono(vs, p, a, b - 1);
    }
}

fn vertical_segments(poly: &Vec<Rect>) -> (r: Vec<Rect>)
    ensures
        r@ == verticals_of(poly@),
{
    let mut out: Vec<Rect> = Vec::new();
    let mut i: usize = 0;
    while i < poly.len()
        invariant
            i <= poly.len(),
            out@ == verticals_of(poly@.take(i as int)),
        decreases poly.len() - i,
    {
        assert(poly@.take(i + 1).drop_last() =~= poly@.take(i as int));
        if poly[i].p1.x == poly[i].p2.x {
            out.push(poly[i]);
        }
        i += 1;
    }
    assert(poly@.take(poly.len() as int) =~= poly@);
    out
}

/// The segment `r` reaches into the bounding box of `rect`.
pub open spec fn overlaps(r: Rect, rect: Rect) -> bool {
    !(r.x_lo() > rect.x_hi() || r.x_hi() < rect.x_lo() || r.y_lo() > rect.y_hi() || r.y_hi()
        < rect.y_lo())
}

pub open spec fn overlaps_any(poly: Seq<Rect>, rect: Rect) -> bool {
    exists|i: int| 0 <= i < poly.len() && #[trigger] overlaps(poly[i], rect)
}

/// Whether the rectangle counts as inside the loop: no segment reaches its box, or each
/// sampled tile of its edges is inside.
pub open spec fn inside_poly_spec(poly: Seq<Rect>, rect: Rect, sampling: int) -> bool {
    !overlaps_any(poly, rect) || forall|k: int|
        0 <= k < rect.edges_spec(sampling).len() ==> #[trigger] inside_point_spec(
            poly,
            verticals_of(poly),
            rect.edges_spec(sampling)[k],
        )
}

/// `inside_poly` runs without an overflow: the sampled tiles are tested in order, up
/// to the first one outside.
pub open spec fn inside_poly_ok(poly: Seq<Rect>, rect: Rect, sampling: int) -> bool {
    overlaps_any(poly, rect) ==> {
        &&& rect.edges_ok(sampling)
        &&& forall|k: int|
            0 <= k < rect.edges_spec(sampling).len() && (forall|k2: int|
                0 <= k2 < k ==> #[trigger] inside_point_spec(
                    poly,
                    verticals_of(poly),
                    rect.edges_spec(sampling)[k2],
                )) ==> #[trigger] inside_point_ok(
                poly,
                verticals_of(poly),
                rect.edges_spec(sampling)[k],
            )
    }
}

/// Whether the rectangle lies inside the loop, judged by tiles sampled on its edges
/// (when some segment of the loop comes near it).
pub fn inside_poly(poly: &Vec<Rect>, rect: Rect, sampling: i64) -> (r: bool)
    requires
        inside_poly_ok(poly@, rect, sampling as int),
    ensures
        r == inside_poly_spec(poly@, rect, sampling as int),
{
    let mut cont = false;
    let mut i: usize = 0;
    while i < poly.len()
        invariant
            i <= poly.len(),
            cont <==> exists|j: int| 0 <= j < i && #[trigger] overlaps(poly@[j], rect),
        decreases poly.len() - i,
    {
        let r = poly[i];
        let a = r.x_min() > rect.x_max();
        let b = r.x_max() < rect.x_min();
        let c = r.y_min() > rect.y_max();
        let d = r.y_max() < rect.y_min();
        if !(a || b || c || d) {
            assert(overlaps(poly@[i as int], rect));
            cont = true;
        }
        i += 1;
    }
    let vertical_lines = vertical_segments(poly);
    if cont {
        let points = rect.points_edges(sampling);
        let mut k: usize = 0;
        while k < points.len()
            invariant
                k <= points.len(),
                points@ == rect.edges_spec(sampling as int),
                vertical_lines@ == verticals_of(poly@),
                overlaps_any(poly@, rect),
                inside_poly_ok(poly@, rect, sampling as int),
                forall|k2: int| 0 <= k2 < k ==> #[trigger] inside_point_spec(
                    poly@,
                    verticals_of(poly@),
                    rect.edges_spec(sampling as int)[k2],
                ),
            decreases points.len() - k,
        {
            assert(inside_point_ok(poly@, verticals_of(poly@), rect.edges_spec(sampling as int)[k as int]));
            if !inside_poly_point(poly, &vertical_lines, points[k]) {
                return false;
            }
            k += 1;
        }
    }
    true
}

/// The largest rectangle spanned by two of the tiles (`0` when there are fewer than two).
pub fn one(points: Vec<Point>) -> (r: i64)
    requires
        forall|i: int, j: int|
            0 <= i < j < points.len() ==> (#[trigger] points@[i]).area_ok(#[trigger] points@[j]),
    ensures
        r >= 0,
        forall|i: int, j: int|
            0 <= i < j < points.len() ==> (#[trigger] points@[i]).area_spec(#[trigger] points@[j]) <= r,
        r == 0 || exists|i: int, j: int|
            0 <= i < j < points.len() && (#[trigger] points@[i]).area_spec(#[trigger] points@[j]) == r,
{
    let mut area: i64 = 0;
    let n = points.len();
    let mut i: usize = 0;
    while i < n
        invariant
            i <= n,
            n == points.len(),
            forall|a: int, b: int|
                0 <= a < b < points.len() ==> (#[trigger] points@[a]).area_ok(#[trigger] points@[b]),
            area >= 0,
            forall|a: int, b: int|
                0 <= a < i && a < b < n ==> (#[trigger] points@[a]).area_spec(#[trigger] points@[b])
                    <= area,
            area == 0 || exists|a: int, b: int|
                0 <= a < b < n && (#[trigger] points@[a]).area_spec(#[trigger] points@[b]) == area,
        decreases n - i,
    {
        let mut j: usize = i + 1;
        while j < n
            invariant
                i < n,
                i + 1 <= j <= n,
                n == points.len(),
                forall|a: int, b: int|
                    0 <= a < b < points.len() ==> (#[trigger] points@[a]).area_ok(#[trigger] points@[b]),
                area >= 0,
                forall|a: int, b: int|
                    0 <= a < i && a < b < n ==> (#[trigger] points@[a]).area_spec(#[trigger] points@[b])
                        <= area,
                forall|b: int| i < b < j ==> (#[trigger] points@[i as int]).area_spec(points@[b]) <= area,
                area == 0 || exists|a: int, b: int|
                    0 <= a < b < n && (#[trigger] points@[a]).area_spec(#[trigger] points@[b]) == area,
            decreases n - j,
        {
            assert(points@[i as int].area_ok(points@[j as int]));
            let tmp = points[i].area(&points[j]);
            if tmp > area {
                area = tmp;
            }
            j += 1;
        }
        i += 1;
    }
    area
}

/// The loop through the tiles in order, closing back to the first.
pub open spec fn loop_of(points: Seq<Point>) -> Seq<Rect> {
    Seq::new(points.len(), |i: int| Rect { p1: points[i], p2: points[(i + 1) % (points.len() as int)] })
}

/// Every segment of the loop is horizontal or vertical.
pub open spec fn axis_parallel(poly: Seq<Rect>) -> bool {
    forall|i: int| 0 <= i < poly.len() ==> (#[trigger] poly[i]).p1.x == poly[i].p2.x || poly[i].p1.y == poly[i].p2.y
}

/// The rectangles of tile `i` with each later tile, in order.
pub open spec fn pair_row(points: Seq<Point>, i: int) -> Seq<Rect> {
    Seq::new((points.len() - i - 1) as nat, |t: int| Rect { p1: points[i], p2: points[i + 1 + t] })
}

pub open spec fn pairs_upto(points: Seq<Point>, i: int) -> Seq<Rect>
    decreases i,
{
    if i <= 0 {
        Seq::empty()
    } else {
        pairs_upto(points, i - 1) + pair_row(points, i - 1)
    }
}

/// The rectangles of every two tiles, `i` before `j`, in the order of the double loop.
pub open spec fn all_pairs(points: Seq<Point>) -> Seq<Rect> {
    pairs_upto(points, points.len() as int)
}

pub open spec fn rect_area(r: Rect) -> int {
    r.p1.area_spec(r.p2)
}

/// Inserts `x` after every rectangle whose area is at most its own.
pub open spec fn insert_by_area(sorted: Seq<Rect>, x: Rect) -> Seq<Rect>
    decreases sorted.len(),
{
    if sorted.len() == 0 {
        seq![x]
    } else if rect_area(sorted.last()) <= rect_area(x) {
        sorted.push(x)
    } else {
        insert_by_area(sorted.drop_last(), x).push(sorted.last())
    }
}

/// The rectangles ordered by area, equal areas keeping their order.
pub open spec fn sort_by_area(s: Seq<Rect>) -> Seq<Rect>
    decreases s.len(),
{
    if s.len() == 0 {
        s
    } else {
        insert_by_area(sort_by_area(s.drop_last()), s.last())
    }
}

proof fn lemma_insert_at(s: Seq<Rect>, x: Rect, j: int)
    requires
        0 <= j <= s.len(),
        j > 0 ==> rect_area(s[j - 1]) <= rect_area(x),
        forall|k: int| j <= k < s.len() ==> rect_area(#[trigger] s[k]) > rect_area(x),
    ensures
        insert_by_area(s, x) == s.insert(j, x),
    decreases s.len(),
{
    if s.len() == 0 {
        assert(s.insert(j, x) =~= seq![x]);
    } else if j == s.len() {
        assert(s.insert(j, x) =~= s.push(x));
    } else {
        let d = s.drop_last();
        assert(rect_area(s[s.len() - 1]) > rect_area(x));
        lemma_insert_at(d, x, j);
        assert(d.insert(j, x).push(s.last()) =~= s.insert(j, x));
    }
}

/// Every rectangle's area can be computed.
pub open spec fn areas_ok(s: Seq<Rect>) -> bool {
    forall|k: int| 0 <= k < s.len() ==> (#[trigger] s[k]).p1.area_ok(s[k].p2)
}

fn sort_rects_by_area(v: &Vec<Rect>) -> (r: Vec<Rect>)
    requires
        areas_ok(v@),
    ensures
        r@ == sort_by_area(v@),
        areas_ok(r@),
{
    let mut out: Vec<Rect> = Vec::new();
    let mut i: usize = 0;
    while i < v.len()
        invariant
            i <= v.len(),
            areas_ok(v@),
            out@ == sort_by_area(v@.take(i as int)),
            areas_ok(out@),
        decreases v.len() - i,
    {
        let x = v[i];
        let key = x.area();
        let mut j: usize = out.len();
        while j > 0 && out[j - 1].area() > key
            invariant
                j <= out.len(),
                areas_ok(out@),
                key == rect_area(x),
                forall|k: int| j <= k < out.len() ==> rect_area(#[trigger] out@[k]) > rect_area(x),
            decreases j,
        {
            j -= 1;
        }
        proof {
            lemma_insert_at(out@, x, j as int);
            assert(v@.take(i + 1).drop_last() =~= v@.take(i as int));
            assert(v@.take(i + 1).last() == x);
        }
        out.insert(j, x);
        proof {
            assert forall|k: int| 0 <= k < out@.len() implies (#[trigger] out@[k]).p1.area_ok(out@[k].p2) by {
                if k < j {
                    assert(out@[k] == sort_by_area(v@.take(i as int))[k]);
                } else if k > j {
                    assert(out@[k] == sort_by_area(v@.take(i as int))[k - 1]);
                }
            }
        }
        i += 1;
    }
    assert(v@.take(v.len() as int) =~= v@);
    out
}

/// Some rectangle already found to leave the loop lies within `rect`.
pub open spec fn covers_wrong(wrong: Seq<Rect>, rect: Rect) -> bool {
    exists|i: int| 0 <= i < wrong.len() && #[trigger] wrong[i].inside_spec(rect)
}

/// The search state: the largest area found inside, and the rectangles found to leave
/// the loop.
pub type SearchState = (int, Seq<Rect>);

/// One rectangle of the search, in increasing order of area: skipped when it holds a
/// rectangle known to leave the loop or is smaller than the best so far; else tested.
pub open spec fn search_step(poly: Seq<Rect>, st: SearchState, rect: Rect) -> SearchState {
    if covers_wrong(st.1, rect) {
        st
    } else if rect_area(rect) < st.0 {
        st
    } else if inside_poly_spec(poly, rect, 50) {
        (if rect_area(rect) >= st.0 {
            rect_area(rect)
        } else {
            st.0
        }, st.1)
    } else {
        (st.0, st.1.push(rect))
    }
}

pub open spec fn search(poly: Seq<Rect>, rs: Seq<Rect>, k: int) -> SearchState
    decreases k,
{
    if k <= 0 {
        (0, Seq::empty())
    } else {
        search_step(poly, search(poly, rs, k - 1), rs[k - 1])
    }
}

/// What `two` returns.
pub open spec fn two_spec(points: Seq<Point>) -> int {
    let rs = sort_by_area(all_pairs(points));
    search(loop_of(points), rs, rs.len() as int).0
}

/// `two` runs without a panic or an overflow.
pub open spec fn two_ok(points: Seq<Point>) -> bool {
    let poly = loop_of(points);
    let rs = sort_by_area(all_pairs(points));
    &&& axis_parallel(poly)
    &&& forall|i: int, j: int|
        0 <= i < j < points.len() ==> (#[trigger] points[i]).area_ok(#[trigger] points[j])
    &&& forall|k: int|
        0 <= k < rs.len() ==> {
            let st = #[trigger] search(poly, rs, k);
            (!covers_wrong(st.1, rs[k]) && rect_area(rs[k]) >= st.0) ==> inside_poly_ok(poly, rs[k], 50)
        }
}

proof fn lemma_pairs_areas(points: Seq<Point>, i: int)
    requires
        0 <= i <= points.len(),
        forall|a: int, b: int|
            0 <= a < b < points.len() ==> (#[trigger] points[a]).area_ok(#[trigger] points[b]),
    ensures
        areas_ok(pairs_upto(points, i)),
    decreases i,
{
    if i > 0 {
        lemma_pairs_areas(points, i - 1);
        let a = pairs_upto(points, i - 1);
        let b = pair_row(points, i - 1);
        assert forall|k: int| 0 <= k < (a + b).len() implies (#[trigger] (a + b)[k]).p1.area_ok(
            (a + b)[k].p2,
        ) by {
            if k < a.len() {
                assert((a + b)[k] == a[k]);
            } else {
                assert((a + b)[k] == b[k - a.len()]);
                assert(points[i - 1].area_ok(points[i + (k - a.len())]));
            }
        }
    }
}

/// The largest rectangle spanned by two tiles that stays inside the loop through all the
/// tiles, searched in increasing order of area with sampled edge tests.
pub fn two(points: Vec<Point>) -> (r: i64)
    requires
        two_ok(points@),
    ensures
        r == two_spec(points@),
{
    let ghost poly = loop_of(points@);
    let n = points.len();
    let mut rects: Vec<Rect> = Vec::new();
    let mut i: usize = 0;
    while i < n
        invariant
            i <= n,
            n == points.len(),
            poly == loop_of(points@),
            rects@ == poly.take(i as int),
        decreases n - i,
    {
        let next = (i + 1) % n;
        rects.push(Rect { p1: points[i], p2: points[next] });
        i += 1;
        assert(rects@ =~= poly.take(i as int));
    }
    assert(poly.take(n as int) =~= poly);
    let mut all_rects: Vec<Rect> = Vec::new();
    let mut i: usize = 0;
    while i < n
        invariant
            i <= n,
            n == points.len(),
            all_rects@ == pairs_upto(points@, i as int),
        decreases n - i,
    {
        let mut j: usize = i + 1;
        let ghost before = all_rects@;
        while j < n
            invariant
                i < n,
                i + 1 <= j <= n,
                n == points.len(),
                before == pairs_upto(points@, i as int),
                all_rects@ == before + pair_row(points@, i as int).take(j - i - 1),
            decreases n - j,
        {
            all_rects.push(Rect { p1: points[i], p2: points[j] });
            j += 1;
            assert(all_rects@ =~= before + pair_row(points@, i as int).take(j - i - 1));
        }
        assert(pair_row(points@, i as int).take(j - i - 1) =~= pair_row(points@, i as int));
        i += 1;
    }
    proof {
        lemma_pairs_areas(points@, n as int);
    }
    let sorted = sort_rects_by_area(&all_rects);
    let ghost rs = sorted@;
    let mut area: i64 = 0;
    let mut wrong_rects: Vec<Rect> = Vec::new();
    let mut k: usize = 0;
    while k < sorted.len()
        invariant
            k <= sorted.len(),
            rs == sorted@,
            rs == sort_by_area(all_pairs(points@)),
            areas_ok(rs),
            rects@ == poly,
            poly == loop_of(points@),
            two_ok(points@),
            (area as int, wrong_rects@) == search(poly, rs, k as int),
        decreases sorted.len() - k,
    {
        let rect = sorted[k];
        let mut covered = false;
        let mut w: usize = 0;
        while w < wrong_rects.len() && !covered
            invariant
                w <= wrong_rects.len(),
                covered ==> covers_wrong(wrong_rects@, rect),
                !covered ==> forall|t: int| 0 <= t < w ==> !(#[trigger] wrong_rects@[t]).inside_spec(rect),
            decreases wrong_rects.len() - w,
        {
            if wrong_rects[w].inside(&rect) {
                covered = true;
            }
            w += 1;
        }
        if !covered {
            let a = rect.area();
            if a >= area {
                assert(search(poly, rs, k as int) == search(poly, rs, k as int));
                if inside_poly(&rects, rect, 50) {
                    area = if a >= area {
                        a
                    } else {
                        area
                    };
                } else {
                    wrong_rects.push(rect);
                }
            }
        }
        k += 1;
    }
    area
}

/// The `k`-th tile to the right of `p` (counting from `0`).
pub open spec fn ray_point(p: Point, k: int) -> Point {
    Point { x: (p.x + 1 + k) as i64, y: p.y }
}

/// Walking `k` tiles to the right of `p`: the times the walk steps onto the loop, the
/// tiles on the loop, and whether the last tile was on it.
pub open spec fn ray_scan(poly: Seq<Rect>, p: Point, k: int) -> (int, int, bool)
    decreases k,
{
    if k <= 0 {
        (0, 0, false)
    } else {
        let st = ray_scan(poly, p, k - 1);
        let a = on_loop(poly, ray_point(p, k - 1));
        (st.0 + (if !st.2 && a {
            1int
        } else {
            0
        }), st.1 + (if a {
            1int
        } else {
            0
        }), a)
    }
}

/// The tiles from right of `p` up to `max_x + 1`.
pub open spec fn ray_len(p: Point, max_x: i64) -> int {
    if max_x + 2 - (p.x + 1) > 0 {
        max_x + 2 - (p.x + 1)
    } else {
        0
    }
}

/// A tile is inside when it is on the loop, or the walk to the right steps onto the
/// loop an odd number of times, each time onto a single tile.
pub open spec fn inside_point2_spec(poly: Seq<Rect>, p: Point, max_x: i64) -> bool {
    let st = ray_scan(poly, p, ray_len(p, max_x));
    on_loop(poly, p) || (st.0 % 2 == 1 && st.0 > 0 && st.0 == st.1)
}

pub open spec fn inside_point2_ok(poly: Seq<Rect>, p: Point, max_x: i64) -> bool {
    &&& scan_ok(poly, p)
    &&& !on_loop(poly, p) ==> {
        &&& p.x + 1 <= i64::MAX
        &&& max_x + 2 <= i64::MAX
        &&& forall|k: int| 0 <= k < ray_len(p, max_x) ==> #[trigger] scan_ok(poly, ray_point(p, k))
        &&& ray_scan(poly, p, ray_len(p, max_x)).1 <= i32::MAX
    }
}

proof fn lemma_ray_scan_mono(poly: Seq<Rect>, p: Point, a: int, b: int)
    requires
        0 <= a <= b,
    ensures
        0 <= ray_scan(poly, p, a).0 <= ray_scan(poly, p, a).1 <= ray_scan(poly, p, b).1,
    decreases b - a, a,
{
    if a < b {
        lemma_ray_scan_mono(poly, p, a, b - 1);
    } else if a > 0 {
        lemma_ray_scan_mono(poly, p, a - 1, a - 1);
    }
}

/// An earlier inside test: walks tile by tile to the right of `point`.
pub fn inside_poly_point2(poly: &Vec<Rect>, point: Point, max_x: i64) -> (r: bool)
    requires
        inside_point2_ok(poly@, point, max_x),
    ensures
        r == inside_point2_spec(poly@, point, max_x),
{
    let mut interections: i32 = 0;
    let mut counter: i32 = 0;
    let on_edge = any_contains(poly, &point);
    let mut prev = on_edge;
    if !prev {
        let end = max_x + 2;
        let mut ray = point.x + 1;
        let ghost total = ray_len(point, max_x);
        while ray < end
            invariant
                point.x + 1 <= ray,
                ray <= end || ray == point.x + 1,
                end == max_x + 2,
                !on_loop(poly@, point),
                inside_point2_ok(poly@, point, max_x),
                total == ray_len(point, max_x),
                (interections as int, counter as int, prev) == ray_scan(poly@, point, ray - (point.x + 1)),
            decreases end - ray,
        {
            let ghost k = ray - (point.x + 1);
            let p = Point { x: ray, y: point.y };
            assert(p == ray_point(point, k));
            assert(scan_ok(poly@, ray_point(point, k)));
            let a = any_contains(poly, &p);
            proof {
                lemma_ray_scan_mono(poly@, point, k + 1, total);
            }
            if !prev {
                if a {
                    interections += 1;
                }
            }
            if a {
                counter += 1;
            }
            prev = a;
            ray += 1;
        }
        proof {
            if end > point.x + 1 {
                assert(ray - (point.x + 1) == total);
            } else {
                assert(total == 0);
            }
        }
    }
    (interections % 2 == 1 && interections > 0 && interections == counter) || on_edge
}

/// The numbers of a line: the pieces between commas that read as `i64` once trimmed.
pub open spec fn line_numbers(pieces: Seq<Seq<char>>) -> Seq<i64>
    decreases pieces.len(),
{
    if pieces.len() == 0 {
        Seq::empty()
    } else {
        let rest = line_numbers(pieces.drop_last());
        match parse_in(trim(pieces.last()), i64::MIN as int, i64::MAX as int) {
            Some(v) => rest.push(v as i64),
            None => rest,
        }
    }
}

/// A tile from a line `x,y`: the first two numbers of the line, `None` when it has
/// fewer than two.
pub open spec fn point_of(line: Seq<char>) -> Option<Point> {
    let nums = line_numbers(split_on(line, ','));
    if nums.len() >= 2 {
        Some(Point { x: nums[0], y: nums[1] })
    } else {
        None
    }
}

/// Reads a tile from a line `x,y`.
pub fn parse_point(line: &str) -> (r: Option<Point>)
    ensures
        r == point_of(line@),
{
    let cs = chars_of(line);
    let pieces = split_char(cs.as_slice(), ',');
    let ghost ps = split_on(line@, ',');
    let mut nums: Vec<i64> = Vec::new();
    let mut i: usize = 0;
    while i < pieces.len()
        invariant
            i <= pieces.len(),
            ps == split_on(line@, ','),
            pieces@.len() == ps.len(),
            forall|k: int| 0 <= k < pieces@.len() ==> #[trigger] pieces@[k]@ == ps[k],
            nums@ == line_numbers(ps.take(i as int)),
        decreases pieces.len() - i,
    {
        assert(ps.take(i + 1).drop_last() =~= ps.take(i as int));
        assert(pieces@[i as int]@ == ps[i as int]);
        let t = trim_chars(pieces[i].as_slice());
        match parse_i64(t.as_slice()) {
            Some(v) => {
                nums.push(v);
            },
            None => {},
        }
        i += 1;
    }
    assert(ps.take(pieces.len() as int) =~= ps);
    if nums.len() >= 2 {
        Some(Point { x: nums[0], y: nums[1] })
    } else {
        None
    }
}

/// `m` is at least `0` and at least the area of every rectangle spanned by two tiles.
pub open spec fn bounds_pair_areas(points: Seq<Point>, m: int) -> bool {
    &&& m >= 0
    &&& forall|i: int, j: int| 0 <= i < j < points.len() ==> (#[trigger] points[i]).area_spec(#[trigger] points[j]) <= m
}

/// `r` is the rectangle of two tiles, the first before the second.
pub open spec fn is_tile_pair(points: Seq<Point>, r: Rect) -> bool {
    exists|i: int, j: int| 0 <= i < j < points.len() && r == (Rect { p1: points[i], p2: points[j] })
}

proof fn lemma_pairs_are_tile_pairs(points: Seq<Point>, i: int)
    requires
        0 <= i <= points.len(),
    ensures
        forall|k: int| 0 <= k < pairs_upto(points, i).len() ==> is_tile_pair(points, #[trigger] pairs_upto(points, i)[k]),
    decreases i,
{
    if i > 0 {
        lemma_pairs_are_tile_pairs(points, i - 1);
        let a = pairs_upto(points, i - 1);
        let b = pair_row(points, i - 1);
        assert forall|k: int| 0 <= k < (a + b).len() implies is_tile_pair(points, #[trigger] (a + b)[k]) by {
            if k < a.len() {
                assert((a + b)[k] == a[k]);
            } else {
                let t = k - a.len();
                assert((a + b)[k] == b[t]);
                assert(b[t] == (Rect { p1: points[i - 1], p2: points[i + t] }));
            }
        }
    }
}

proof fn lemma_insert_from(s: Seq<Rect>, x: Rect)
    ensures
        forall|k: int| 0 <= k < insert_by_area(s, x).len() ==> #[trigger] insert_by_area(s, x)[k] == x
            || s.contains(insert_by_area(s, x)[k]),
        insert_by_area(s, x).len() == s.len() + 1,
    decreases s.len(),
{
    if s.len() > 0 && rect_area(s.last()) > rect_area(x) {
        let d = s.drop_last();
        lemma_insert_from(d, x);
        let r = insert_by_area(s, x);
        assert forall|k: int| 0 <= k < r.len() implies #[trigger] r[k] == x || s.contains(r[k]) by {
            if k < r.len() - 1 {
                assert(r[k] == insert_by_area(d, x)[k]);
                if insert_by_area(d, x)[k] != x {
                    let q = choose|q: int| 0 <= q < d.len() && d[q] == insert_by_area(d, x)[k];
                    assert(s[q] == d[q]);
                }
            } else {
                assert(r[k] == s[s.len() - 1]);
            }
        }
    } else if s.len() > 0 {
        let r = insert_by_area(s, x);
        assert forall|k: int| 0 <= k < r.len() implies #[trigger] r[k] == x || s.contains(r[k]) by {
            if k < s.len() {
                assert(r[k] == s[k]);
            }
        }
    }
}

proof fn lemma_sorted_from(s: Seq<Rect>)
    ensures
        forall|k: int| 0 <= k < sort_by_area(s).len() ==> s.contains(#[trigger] sort_by_area(s)[k]),
        sort_by_area(s).len() == s.len(),
    decreases s.len(),
{
    if s.len() > 0 {
        let d = s.drop_last();
        lemma_sorted_from(d);
        lemma_insert_from(sort_by_area(d), s.last());
        let r = sort_by_area(s);
        assert forall|k: int| 0 <= k < r.len() implies s.contains(#[trigger] r[k]) by {
            if r[k] != s.last() {
                assert(sort_by_area(d).contains(r[k]));
                let q = choose|q: int| 0 <= q < sort_by_area(d).len() && sort_by_area(d)[q] == r[k];
                assert(d.contains(sort_by_area(d)[q]));
                let q2 = choose|q2: int| 0 <= q2 < d.len() && d[q2] == sort_by_area(d)[q];
                assert(s[q2] == d[q2]);
            } else {
                assert(s[s.len() - 1] == s.last());
            }
        }
    }
}

proof fn lemma_search_found(poly: Seq<Rect>, rs: Seq<Rect>, k: int)
    requires
        0 <= k <= rs.len(),
    ensures
        search(poly, rs, k).0 >= 0,
        search(poly, rs, k).0 == 0 || exists|j: int| 0 <= j < k && search(poly, rs, k).0 == rect_area(#[trigger] rs[j]),
    decreases k,
{
    if k > 0 {
        lemma_search_found(poly, rs, k - 1);
        let st = search(poly, rs, k - 1);
        if search(poly, rs, k).0 != st.0 {
            assert(search(poly, rs, k).0 == rect_area(rs[k - 1]));
        }
    }
}

/// `two` answers `0` or the area of a rectangle spanned by two of the tiles, and so
/// never more than the largest such area, which `one` answers.
pub proof fn two_is_a_pair_area(points: Seq<Point>)
    ensures
        two_spec(points) >= 0,
        two_spec(points) == 0 || exists|i: int, j: int| 0 <= i < j < points.len()
            && two_spec(points) == (#[trigger] points[i]).area_spec(#[trigger] points[j]),
        forall|m: int| #[trigger] bounds_pair_areas(points, m) ==> two_spec(points) <= m,
{
    let rs = sort_by_area(all_pairs(points));
    lemma_search_found(loop_of(points), rs, rs.len() as int);
    lemma_sorted_from(all_pairs(points));
    lemma_pairs_are_tile_pairs(points, points.len() as int);
    if two_spec(points) != 0 {
        let j = choose|j: int| 0 <= j < rs.len() && two_spec(points) == rect_area(#[trigger] rs[j]);
        assert(all_pairs(points).contains(rs[j]));
        let q = choose|q: int| 0 <= q < all_pairs(points).len() && all_pairs(points)[q] == rs[j];
        assert(is_tile_pair(points, all_pairs(points)[q]));
        let (a, b) = choose|a: int, b: int| 0 <= a < b < points.len() && rs[j] == (Rect { p1: points[a], p2: points[b] });
        assert(two_spec(points) == points[a].area_spec(points[b]));
    }
}

} // verus!
