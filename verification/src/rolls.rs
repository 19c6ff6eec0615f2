//! Paper rolls on a grid (`1` a roll, `0` empty): a roll is reachable when its 3x3
//! window holds fewer than five rolls, itself included; reachable rolls are removed
//! together, round after round.
use vstd::prelude::*;
use crate::text::{chars_of, trim, trim_chars};

verus! {

/// The rows of a grid, as sequences.
pub open spec fn grid_of(v: Seq<Vec<i32>>) -> Seq<Seq<i32>> {
    Seq::new(v.len(), |i: int| v[i]@)
}

/// The number of rows (the grid's `width` in the walk).
pub open spec fn width_of(g: Seq<Seq<i32>>) -> int {
    g.len() as int
}

/// The length of the first row (the grid's `height` in the walk).
pub open spec fn height_of(g: Seq<Seq<i32>>) -> int {
    g[0].len() as int
}

pub open spec fn lo(i: int) -> int {
    if i >= 1 {
        i - 1
    } else {
        0
    }
}

pub open spec fn hi(i: int, n: int) -> int {
    if i + 2 <= n {
        i + 2
    } else {
        n
    }
}

/// Rows `r0..r1`, columns `c0..c1`, row after row.
pub open spec fn block(g: Seq<Seq<i32>>, r0: int, r1: int, c0: int, c1: int) -> Seq<i32>
    decreases r1 - r0,
{
    if r1 <= r0 {
        Seq::empty()
    } else {
        block(g, r0, r1 - 1, c0, c1) + g[r1 - 1].subrange(c0, c1)
    }
}

/// The cells around row `y`, column `x` (itself included), row after row.
pub open spec fn window(g: Seq<Seq<i32>>, y: int, x: int) -> Seq<i32> {
    block(g, lo(y), hi(y, height_of(g)), lo(x), hi(x, width_of(g)))
}

pub open spec fn seq_sum(s: Seq<i32>) -> int
    decreases s.len(),
{
    if s.len() == 0 {
        0
    } else {
        seq_sum(s.drop_last()) + s.last()
    }
}

/// Adding up `s` in order stays within `i32`.
pub open spec fn sums_fit(s: Seq<i32>) -> bool {
    forall|k: int| 0 <= k <= s.len() ==> i32::MIN <= #[trigger] seq_sum(s.take(k)) <= i32::MAX
}

/// The walk reads only cells that exist.
pub open spec fn shape_ok(g: Seq<Seq<i32>>) -> bool {
    &&& g.len() >= 1
    &&& height_of(g) == 0 || (height_of(g) <= width_of(g) && forall|r: int|
        0 <= r < height_of(g) ==> (#[trigger] g[r]).len() >= width_of(g))
}

/// The roll at row `y`, column `x` can be reached.
pub open spec fn removable(g: Seq<Seq<i32>>, y: int, x: int) -> bool {
    g[y][x] == 1 && seq_sum(window(g, y, x)) < 5
}

/// How many cells `(y, x)` with `y < ys`, `x < xs` satisfy `f`; and, in row `ys`,
/// the cells before column `xc`.
pub open spec fn count_cols(f: spec_fn(int, int) -> bool, y: int, xc: int) -> nat
    decreases xc,
{
    if xc <= 0 {
        0
    } else {
        count_cols(f, y, xc - 1) + if f(y, xc - 1) {
            1nat
        } else {
            0nat
        }
    }
}

pub open spec fn count_rows(f: spec_fn(int, int) -> bool, ys: int, xs: int) -> nat
    decreases ys,
{
    if ys <= 0 {
        0
    } else {
        count_rows(f, ys - 1, xs) + count_cols(f, ys - 1, xs)
    }
}

pub open spec fn removable_at(g: Seq<Seq<i32>>) -> spec_fn(int, int) -> bool {
    |y: int, x: int| removable(g, y, x)
}

/// The number of rolls one round removes.
pub open spec fn removed_count(g: Seq<Seq<i32>>) -> nat {
    count_rows(removable_at(g), height_of(g), width_of(g))
}

/// The grid after one round: every reachable roll taken away at once.
pub open spec fn after(g: Seq<Seq<i32>>) -> Seq<Seq<i32>> {
    Seq::new(
        g.len(),
        |r: int|
            Seq::new(
                g[r].len(),
                |c: int|
                    if r < height_of(g) && c < width_of(g) && removable(g, r, c) {
                        0
                    } else {
                        g[r][c]
                    },
            ),
    )
}

/// One round runs without a panic or an overflow.
pub open spec fn one_ok(g: Seq<Seq<i32>>) -> bool {
    &&& shape_ok(g)
    &&& forall|y: int, x: int|
        0 <= y < height_of(g) && 0 <= x < width_of(g) && g[y][x] == 1 ==> sums_fit(
            #[trigger] window(g, y, x),
        )
    &&& removed_count(g) <= i32::MAX
}

proof fn lemma_block_prefix(g: Seq<Seq<i32>>, r0: int, r: int, r1: int, c0: int, c1: int)
    requires
        r0 <= r <= r1,
    ensures
        block(g, r0, r1, c0, c1).take(block(g, r0, r, c0, c1).len() as int) == block(g, r0, r, c0, c1),
        block(g, r0, r, c0, c1).len() <= block(g, r0, r1, c0, c1).len(),
    decreases r1 - r,
{
    if r < r1 {
        lemma_block_prefix(g, r0, r, r1 - 1, c0, c1);
        let a = block(g, r0, r, c0, c1);
        let b = block(g, r0, r1 - 1, c0, c1);
        assert(block(g, r0, r1, c0, c1) == b + g[r1 - 1].subrange(c0, c1));
        assert((b + g[r1 - 1].subrange(c0, c1)).take(a.len() as int) =~= b.take(a.len() as int));
    } else {
        assert(block(g, r0, r1, c0, c1).take(block(g, r0, r1, c0, c1).len() as int) =~= block(
            g,
            r0,
            r1,
            c0,
            c1,
        ));
    }
}

/// The sum of the window around row `y`, column `x`, added in the walk's order.
fn window_sum(input: &Vec<Vec<i32>>, y: usize, x: usize, width: usize, height: usize) -> (r: i32)
    requires
        width == width_of(grid_of(input@)),
        height == height_of(grid_of(input@)),
        shape_ok(grid_of(input@)),
        y < height,
        x < width,
        sums_fit(window(grid_of(input@), y as int, x as int)),
    ensures
        r == seq_sum(window(grid_of(input@), y as int, x as int)),
{
    let ghost g = grid_of(input@);
    let ys = if y >= 1 {
        y - 1
    } else {
        0
    };
    let ye = if height - y >= 2 {
        y + 2
    } else {
        height
    };
    let xs = if x >= 1 {
        x - 1
    } else {
        0
    };
    let xe = if width - x >= 2 {
        x + 2
    } else {
        width
    };
    let ghost w = window(g, y as int, x as int);
    assert(w == block(g, ys as int, ye as int, xs as int, xe as int));
    let mut sum: i32 = 0;
    let mut r = ys;
    while r < ye
        invariant
            ys <= r <= ye,
            ye <= height <= width == g.len(),
            xs <= xe <= width,
            g == grid_of(input@),
            shape_ok(g),
            height == height_of(g),
            width == width_of(g),
            w == block(g, ys as int, ye as int, xs as int, xe as int),
            sums_fit(w),
            sum == seq_sum(block(g, ys as int, r as int, xs as int, xe as int)),
        decreases ye - r,
    {
        assert(g[r as int] == input@[r as int]@);
        assert(g[r as int].len() >= width);
        let ghost before = block(g, ys as int, r as int, xs as int, xe as int);
        let mut c = xs;
        while c < xe
            invariant
                xs <= c <= xe,
                ys <= r < ye,
                ye <= height <= width == g.len(),
                xe <= width <= g[r as int].len(),
                g == grid_of(input@),
                w == block(g, ys as int, ye as int, xs as int, xe as int),
                sums_fit(w),
                before == block(g, ys as int, r as int, xs as int, xe as int),
                sum == seq_sum(before + g[r as int].subrange(xs as int, c as int)),
            decreases xe - c,
        {
            let ghost p = before + g[r as int].subrange(xs as int, c as int);
            let ghost p2 = before + g[r as int].subrange(xs as int, c + 1);
            proof {
                assert(p2.drop_last() =~= p);
                assert(p2.last() == g[r as int][c as int]);
                lemma_block_prefix(g, ys as int, r + 1, ye as int, xs as int, xe as int);
                let b1 = block(g, ys as int, r + 1, xs as int, xe as int);
                assert(b1 == before + g[r as int].subrange(xs as int, xe as int));
                assert(b1.take(p2.len() as int) =~= p2);
                assert(w.take(p2.len() as int) =~= p2);
                assert(i32::MIN <= seq_sum(w.take(p2.len() as int)) <= i32::MAX);
            }
            sum = sum + input[r][c];
            c += 1;
        }
        assert(g[r as int].subrange(xs as int, xe as int) =~= g[r as int].subrange(
            xs as int,
            c as int,
        ));
        r += 1;
    }
    sum
}

/// The grid partway through a round: the reachable rolls before row `y`, column `x`
/// (row after row) are gone.
pub open spec fn after_upto(g: Seq<Seq<i32>>, y: int, x: int) -> Seq<Seq<i32>> {
    Seq::new(
        g.len(),
        |r: int|
            Seq::new(
                g[r].len(),
                |c: int|
                    if r < height_of(g) && c < width_of(g) && (r < y || (r == y && c < x))
                        && removable(g, r, c) {
                        0
                    } else {
                        g[r][c]
                    },
            ),
    )
}

proof fn lemma_count_cols_mono(f: spec_fn(int, int) -> bool, y: int, x1: int, x2: int)
    requires
        0 <= x1 <= x2,
    ensures
        count_cols(f, y, x1) <= count_cols(f, y, x2),
    decreases x2 - x1,
{
    if x1 < x2 {
        lemma_count_cols_mono(f, y, x1, x2 - 1);
    }
}

proof fn lemma_count_rows_mono(f: spec_fn(int, int) -> bool, y1: int, y2: int, xs: int)
    requires
        0 <= y1 <= y2,
    ensures
        count_rows(f, y1, xs) <= count_rows(f, y2, xs),
    decreases y2 - y1,
{
    if y1 < y2 {
        lemma_count_rows_mono(f, y1, y2 - 1, xs);
    }
}

fn copy_grid(input: &Vec<Vec<i32>>) -> (r: Vec<Vec<i32>>)
    ensures
        grid_of(r@) == grid_of(input@),
{
    let mut out: Vec<Vec<i32>> = Vec::new();
    let mut i: usize = 0;
    while i < input.len()
        invariant
            i <= input.len(),
            out.len() == i,
            forall|k: int| 0 <= k < i ==> (#[trigger] out@[k])@ == input@[k]@,
        decreases input.len() - i,
    {
        out.push(vstd::slice::slice_to_vec(input[i].as_slice()));
        i += 1;
    }
    assert(grid_of(out@) =~= grid_of(input@));
    out
}

/// One round: counts the reachable rolls and returns the grid with all of them taken
/// away (the window sums are taken on the grid as it was before the round).
pub fn one(input: Vec<Vec<i32>>) -> (r: (i32, Vec<Vec<i32>>))
    requires
        one_ok(grid_of(input@)),
    ensures
        r.0 == removed_count(grid_of(input@)),
        grid_of(r.1@) == after(grid_of(input@)),
{
    let ghost g = grid_of(input@);
    let ghost f = removable_at(g);
    let mut result: i32 = 0;
    let width = input.len();
    assert(g[0] == input@[0]@);
    let height = input[0].len();
    let mut working = copy_grid(&input);
    assert(grid_of(working@) =~~= after_upto(g, 0, 0));
    let mut y: usize = 0;
    while y < height
        invariant
            y <= height,
            g == grid_of(input@),
            f == removable_at(g),
            one_ok(g),
            width == width_of(g),
            height == height_of(g),
            result == count_rows(f, y as int, width as int),
            grid_of(working@) == after_upto(g, y as int, 0),
        decreases height - y,
    {
        let mut x: usize = 0;
        while x < width
            invariant
                x <= width,
                y < height,
                g == grid_of(input@),
                f == removable_at(g),
                one_ok(g),
                width == width_of(g),
                height == height_of(g),
                result == count_rows(f, y as int, width as int) + count_cols(f, y as int, x as int),
                grid_of(working@) == after_upto(g, y as int, x as int),
            decreases width - x,
        {
            assert(g[y as int] == input@[y as int]@);
            assert(g[y as int].len() >= width);
            let ghost before = grid_of(working@);
            assert(shape_ok(g));
            assert(y < g.len());
            assert(before.len() == g.len());
            assert(working@.len() == before.len());
            assert(before[y as int] == working@[y as int]@);
            assert(before[y as int].len() == g[y as int].len());
            let ghost old_w = working@;
            if input[y][x] == 1 {
                let count = window_sum(&input, y, x, width, height);
                if count < 5 {
                    proof {
                        assert(f(y as int, x as int));
                        lemma_count_cols_mono(f, y as int, x + 1, width as int);
                        lemma_count_rows_mono(f, y + 1, height as int, width as int);
                    }
                    result += 1;
                    assert(working@[y as int]@ == before[y as int]);
                    working[y][x] = 0;
                } else {
                    assert(!f(y as int, x as int));
                }
            } else {
                assert(!f(y as int, x as int));
            }
            proof {
                let gw = grid_of(working@);
                let t = after_upto(g, y as int, x + 1);
                let t0 = after_upto(g, y as int, x as int);
                assert(gw.len() == t.len());
                assert forall|r: int| 0 <= r < gw.len() implies gw[r] =~= t[r] by {
                    assert(before[r] == t0[r]);
                    if r != y {
                        assert(working@[r] == old_w[r]);
                    }
                }
                assert(gw =~= t);
            }
            x += 1;
        }
        assert(after_upto(g, y as int, x as int) =~~= after_upto(g, y + 1, 0));
        y += 1;
    }
    assert(after_upto(g, y as int, 0) =~~= after(g));
    (result, working)
}

pub open spec fn roll_at(g: Seq<Seq<i32>>) -> spec_fn(int, int) -> bool {
    |y: int, x: int| g[y][x] == 1
}

/// The rolls in the part of the grid the walk looks at.
pub open spec fn rolls_count(g: Seq<Seq<i32>>) -> nat {
    count_rows(roll_at(g), height_of(g), width_of(g))
}

/// At `(y, x)`, `f3` holds exactly when one of `f1`, `f2` does, and never both.
pub open spec fn splits(
    f1: spec_fn(int, int) -> bool,
    f2: spec_fn(int, int) -> bool,
    f3: spec_fn(int, int) -> bool,
    y: int,
    x: int,
) -> bool {
    (f3(y, x) <==> (f1(y, x) || f2(y, x))) && !(f1(y, x) && f2(y, x))
}

proof fn lemma_count_cols_split(
    f1: spec_fn(int, int) -> bool,
    f2: spec_fn(int, int) -> bool,
    f3: spec_fn(int, int) -> bool,
    ys: int,
    xs: int,
    y: int,
    xc: int,
)
    requires
        forall|yy: int, x: int| 0 <= yy < ys && 0 <= x < xs ==> #[trigger] splits(f1, f2, f3, yy, x),
        0 <= y < ys,
        xc <= xs,
    ensures
        count_cols(f1, y, xc) + count_cols(f2, y, xc) == count_cols(f3, y, xc),
    decreases xc,
{
    if xc > 0 {
        lemma_count_cols_split(f1, f2, f3, ys, xs, y, xc - 1);
        assert(splits(f1, f2, f3, y, xc - 1));
    }
}

proof fn lemma_count_rows_split(
    f1: spec_fn(int, int) -> bool,
    f2: spec_fn(int, int) -> bool,
    f3: spec_fn(int, int) -> bool,
    ys: int,
    xs: int,
    yc: int,
)
    requires
        forall|y: int, x: int| 0 <= y < ys && 0 <= x < xs ==> #[trigger] splits(f1, f2, f3, y, x),
        yc <= ys,
    ensures
        count_rows(f1, yc, xs) + count_rows(f2, yc, xs) == count_rows(f3, yc, xs),
    decreases yc,
{
    if yc > 0 {
        lemma_count_rows_split(f1, f2, f3, ys, xs, yc - 1);
        lemma_count_cols_split(f1, f2, f3, ys, xs, yc - 1, xs);
    }
}

/// A round keeps the grid's shape and takes away exactly the rolls it counts.
pub proof fn lemma_after_rolls(g: Seq<Seq<i32>>)
    requires
        shape_ok(g),
    ensures
        shape_ok(after(g)),
        height_of(after(g)) == height_of(g),
        width_of(after(g)) == width_of(g),
        rolls_count(after(g)) + removed_count(g) == rolls_count(g),
{
    let a = after(g);
    assert(a[0].len() == g[0].len());
    assert forall|r: int| 0 <= r < height_of(a) implies (#[trigger] a[r]).len() >= width_of(a) by {
        assert(g[r].len() >= width_of(g));
    }
    let f1 = roll_at(a);
    let f2 = removable_at(g);
    let f3 = roll_at(g);
    assert forall|y: int, x: int|
        0 <= y < height_of(g) && 0 <= x < width_of(g) implies #[trigger] splits(f1, f2, f3, y, x) by {
        assert(g[y].len() >= width_of(g));
        assert(a[y][x] == (if removable(g, y, x) {
            0
        } else {
            g[y][x]
        }));
    }
    lemma_count_rows_split(f1, f2, f3, height_of(g), width_of(g), height_of(g));
}

/// The rolls removed over all rounds, until a round removes none.
pub open spec fn rounds(g: Seq<Seq<i32>>) -> int
    decreases rolls_count(g),
{
    if shape_ok(g) && removed_count(g) > 0 {
        proof {
            lemma_after_rolls(g);
        }
        removed_count(g) + rounds(after(g))
    } else {
        0
    }
}

/// Every round runs without a panic or an overflow.
pub open spec fn rounds_ok(g: Seq<Seq<i32>>) -> bool
    decreases rolls_count(g),
{
    &&& one_ok(g)
    &&& removed_count(g) > 0 ==> {
        proof {
            lemma_after_rolls(g);
        }
        rounds_ok(after(g))
    }
}

/// The grid once a round removes nothing more.
pub open spec fn final_grid(g: Seq<Seq<i32>>) -> Seq<Seq<i32>>
    decreases rolls_count(g),
{
    if shape_ok(g) && removed_count(g) > 0 {
        proof {
            lemma_after_rolls(g);
        }
        final_grid(after(g))
    } else {
        g
    }
}

proof fn lemma_rounds_nonneg(g: Seq<Seq<i32>>)
    ensures
        rounds(g) >= 0,
    decreases rolls_count(g),
{
    if shape_ok(g) && removed_count(g) > 0 {
        lemma_after_rolls(g);
        lemma_rounds_nonneg(after(g));
    }
}

/// Removes reachable rolls round after round until a round finds none, and counts them.
pub fn two(input: Vec<Vec<i32>>) -> (r: i32)
    requires
        rounds_ok(grid_of(input@)),
        rounds(grid_of(input@)) <= i32::MAX,
    ensures
        r == rounds(grid_of(input@)),
{
    let ghost g0 = grid_of(input@);
    let (mut num, mut tmp) = one(input);
    let mut result = num;
    proof {
        lemma_after_rolls(g0);
        if num > 0 {
            lemma_rounds_nonneg(grid_of(tmp@));
        }
    }
    while num > 0
        invariant
            num >= 0,
            result >= 0,
            num > 0 ==> rounds_ok(grid_of(tmp@)),
            num > 0 ==> shape_ok(grid_of(tmp@)),
            num > 0 ==> rounds(grid_of(tmp@)) >= 0,
            result + (if num > 0 {
                rounds(grid_of(tmp@))
            } else {
                0
            }) == rounds(g0),
            rounds(g0) <= i32::MAX,
        decreases (if num > 0 {
            rolls_count(grid_of(tmp@)) + 1
        } else {
            0
        }),
    {
        let ghost gt = grid_of(tmp@);
        proof {
            lemma_after_rolls(gt);
        }
        let (n2, t2) = one(tmp);
        proof {
            if n2 > 0 {
                lemma_rounds_nonneg(grid_of(t2@));
            }
        }
        num = n2;
        tmp = t2;
        result += num;
    }
    result
}

/// `two` removes rolls until no roll is reachable, and its count is exactly how many
/// rolls the grid lost.
pub proof fn two_counts_lost_rolls(g: Seq<Seq<i32>>)
    requires
        shape_ok(g),
    ensures
        shape_ok(final_grid(g)),
        removed_count(final_grid(g)) == 0,
        rounds(g) == rolls_count(g) - rolls_count(final_grid(g)),
    decreases rolls_count(g),
{
    if removed_count(g) > 0 {
        lemma_after_rolls(g);
        two_counts_lost_rolls(after(g));
    }
}

/// A grid row as a line shows it: `@` is a roll, anything else empty; white space at
/// the ends is dropped.
pub open spec fn row_of(line: Seq<char>) -> Seq<i32> {
    Seq::new(trim(line).len(), |i: int| if trim(line)[i] == '@' {
        1i32
    } else {
        0i32
    })
}

/// Reads one row of the grid.
pub fn grid_row(line: &str) -> (r: Vec<i32>)
    ensures
        r@ == row_of(line@),
{
    let cs = chars_of(line);
    let t = trim_chars(cs.as_slice());
    let mut out: Vec<i32> = Vec::new();
    let mut i: usize = 0;
    while i < t.len()
        invariant
            i <= t.len(),
            t@ == trim(line@),
            out@ == row_of(line@).take(i as int),
        decreases t.len() - i,
    {
        out.push(if t[i] == '@' {
            1
        } else {
            0
        });
        i += 1;
        assert(out@ =~= row_of(line@).take(i as int));
    }
    assert(row_of(line@).take(t.len() as int) =~= row_of(line@));
    out
}

} // verus!
