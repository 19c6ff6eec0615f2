//! Presents under a tree: present shapes of at most three rows kept as bit masks, the
//! regions under the trees with how many of each present they must hold, and a quick
//! sort of the regions into those that surely fit, those that surely do not, and the
//! rest.
use vstd::prelude::*;
use crate::decimal::{dec_str, int_to_chars};
use vstd::slice::slice_subrange;
use crate::text::{chars_of, push_chars, split_char, split_on, split_words, string_of, trim, trim_chars, words};
use crate::decimal::{parse_unsigned, parse_usize};
use std::collections::HashMap;

verus! {

broadcast use vstd::std_specs::hash::group_hash_axioms;

/// A present shape: row `y` has bit `x` set where the shape covers column `x`.
#[derive(Debug, Clone, Copy)]
pub struct Shape {
    pub id: usize,
    pub width: u8,
    pub height: u8,
    pub rows: [u64; 3],
}

/// The number of set bits of `v`.
pub open spec fn ones(v: u64) -> nat
    decreases v,
{
    if v == 0 {
        0
    } else {
        (v % 2) as nat + ones(v / 2)
    }
}

fn count_ones(v: u64) -> (r: u32)
    ensures
        r == ones(v),
        r <= 64,
{
    proof {
        lemma_ones_bound(v);
    }
    let mut x = v;
    let mut c: u32 = 0;
    while x > 0
        invariant
            c + ones(x) == ones(v),
            ones(v) <= 64,
        decreases x,
    {
        c = c + (x % 2) as u32;
        x = x / 2;
    }
    c
}

proof fn lemma_ones_bound(v: u64)
    ensures
        ones(v) <= 64,
{
    vstd::arithmetic::power2::lemma2_to64();
    lemma_ones_below(v, 64);
}

proof fn lemma_ones_below(v: u64, k: nat)
    requires
        v < vstd::arithmetic::power2::pow2(k),
    ensures
        ones(v) <= k,
    decreases k,
{
    if v > 0 {
        if k == 0 {
            vstd::arithmetic::power2::lemma2_to64();
        } else {
            vstd::arithmetic::power2::lemma_pow2_unfold(k);
            lemma_ones_below(v / 2, (k - 1) as nat);
        }
    }
}

/// The sum of the set bits of the first `h` rows.
pub open spec fn rows_ones(rows: Seq<u64>, h: int) -> int
    decreases h,
{
    if h <= 0 {
        0
    } else {
        rows_ones(rows, h - 1) + ones(rows[h - 1])
    }
}

/// A row of the picture: `#` where the shape covers the cell, `.` elsewhere.
pub open spec fn row_text(row: u64, w: int) -> Seq<char>
    decreases w,
{
    if w <= 0 {
        Seq::empty()
    } else {
        row_text(row, w - 1).push(if (row >> ((w - 1) as u64)) & 1 == 1 {
            '#'
        } else {
            '.'
        })
    }
}

pub open spec fn rows_text(rows: Seq<u64>, h: int, w: int) -> Seq<char>
    decreases h,
{
    if h <= 0 {
        Seq::empty()
    } else {
        rows_text(rows, h - 1, w) + row_text(rows[h - 1], w) + seq!['\n']
    }
}

impl Shape {
    /// Whether the shape covers column `x` of row `y`.
    pub open spec fn covers(self, x: int, y: int) -> bool {
        (self.rows@[y] >> (x as u64)) & 1 == 1
    }

    /// Whether the shape covers column `x` of row `y`.
    pub fn has(&self, x: u8, y: u8) -> (r: bool)
        requires
            y < 3,
            x < 64,
        ensures
            r == self.covers(x as int, y as int),
    {
        let row = self.rows[y as usize];
        (row >> x) & 1 == 1
    }

    /// The cells the shape covers.
    pub open spec fn size_spec(self) -> int {
        rows_ones(self.rows@, self.height as int)
    }

    /// The number of cells the shape covers.
    pub fn size(&self) -> (r: usize)
        requires
            self.height <= 3,
        ensures
            r == self.size_spec(),
    {
        let h = self.height as usize;
        let mut total: usize = 0;
        let mut y: usize = 0;
        while y < h
            invariant
                y <= h,
                h <= 3,
                h == self.height,
                total == rows_ones(self.rows@, y as int),
                total <= 64 * y,
            decreases h - y,
        {
            let c = count_ones(self.rows[y]);
            total = total + c as usize;
            y += 1;
        }
        total
    }

    /// The picture of the shape: a header line, then one line per row.
    pub open spec fn pretty_text(self) -> Seq<char> {
        seq!['i', 'd', ' '] + dec_str(self.id as int) + seq![' ', '('] + dec_str(self.width as int)
            + seq!['x'] + dec_str(self.height as int) + seq![',', ' ', 's', 'i', 'z', 'e', '=']
            + dec_str(self.size_spec()) + seq![')', ':', '\n'] + rows_text(
            self.rows@,
            self.height as int,
            self.width as int,
        )
    }

    /// The shape as text: a header line, then its rows drawn with `#` and `.`.
    pub fn pretty_string(&self) -> (r: String)
        requires
            self.height <= 3,
            self.width <= 64,
        ensures
            r@ == self.pretty_text(),
    {
        let mut out = String::new();
        push_chars(&mut out, &['i', 'd', ' ']);
        push_chars(&mut out, int_to_chars(self.id as i128).as_slice());
        push_chars(&mut out, &[' ', '(']);
        push_chars(&mut out, int_to_chars(self.width as i128).as_slice());
        push_chars(&mut out, &['x']);
        push_chars(&mut out, int_to_chars(self.height as i128).as_slice());
        push_chars(&mut out, &[',', ' ', 's', 'i', 'z', 'e', '=']);
        push_chars(&mut out, int_to_chars(self.size() as i128).as_slice());
        push_chars(&mut out, &[')', ':', '\n']);
        let ghost header = out@;
        let h = self.height as usize;
        let w = self.width as usize;
        let mut y: usize = 0;
        while y < h
            invariant
                y <= h,
                h == self.height,
                w == self.width,
                h <= 3,
                w <= 64,
                out@ == header + rows_text(self.rows@, y as int, w as int),
            decreases h - y,
        {
            let mut line: Vec<char> = Vec::new();
            let mut x: usize = 0;
            while x < w
                invariant
                    x <= w,
                    w <= 64,
                    y < h,
                    h <= 3,
                    line@ == row_text(self.rows@[y as int], x as int),
                decreases w - x,
            {
                if self.has(x as u8, y as u8) {
                    line.push('#');
                } else {
                    line.push('.');
                }
                x += 1;
            }
            push_chars(&mut out, line.as_slice());
            push_chars(&mut out, &['\n']);
            y += 1;
            assert(out@ =~= header + rows_text(self.rows@, y as int, w as int));
        }
        assert(out@ =~= self.pretty_text());
        out
    }
}

/// The bit mask of the first `k` characters of a row: bit `x` set for each `#`.
pub open spec fn mask_upto(l: Seq<char>, k: int) -> u64
    decreases k,
{
    if k <= 0 {
        0
    } else {
        mask_upto(l, k - 1) | (if l[k - 1] == '#' {
            1u64 << ((k - 1) as u64)
        } else {
            0u64
        })
    }
}

pub open spec fn row_mask(l: Seq<char>) -> u64 {
    mask_upto(l, l.len() as int)
}

/// Every `#` of the row is within the first 64 columns.
pub open spec fn row_fits(l: Seq<char>) -> bool {
    forall|x: int| 0 <= x < l.len() && l[x] == '#' ==> x < 64
}

/// The longest of the first `k` rows.
pub open spec fn max_len(ls: Seq<Seq<char>>, k: int) -> nat
    decreases k,
{
    if k <= 0 {
        0
    } else if ls[k - 1].len() > max_len(ls, k - 1) {
        ls[k - 1].len()
    } else {
        max_len(ls, k - 1)
    }
}

/// `s` is the shape `id` drawn by the rows `ls`.
pub open spec fn shape_ok(s: Shape, id: usize, ls: Seq<Seq<char>>) -> bool {
    &&& s.id == id
    &&& s.width == max_len(ls, ls.len() as int) as u8
    &&& s.height == ls.len() as u8
    &&& forall|y: int| 0 <= y < 3 ==> #[trigger] s.rows@[y] == if y < ls.len() {
        row_mask(ls[y])
    } else {
        0u64
    }
}

/// The number of `#` among the first `k` characters of a row.
pub open spec fn hashes_upto(l: Seq<char>, k: int) -> int
    decreases k,
{
    if k <= 0 {
        0
    } else {
        hashes_upto(l, k - 1) + if l[k - 1] == '#' {
            1int
        } else {
            0int
        }
    }
}

/// The number of `#` in the first `h` rows.
pub open spec fn hashes_in(ls: Seq<Seq<char>>, h: int) -> int
    decreases h,
{
    if h <= 0 {
        0
    } else {
        hashes_in(ls, h - 1) + hashes_upto(ls[h - 1], ls[h - 1].len() as int)
    }
}

proof fn lemma_ones_unfold(v: u64)
    ensures
        ones(v) == (v % 2) as nat + ones(v / 2),
{
    if v == 0 {
        assert(0u64 / 2 == 0);
    }
}

/// Setting a clear bit adds one set bit.
proof fn lemma_ones_set(m: u64, j: u64)
    requires
        j < 64,
        (m >> j) & 1 == 0,
    ensures
        ones(m | (1u64 << j)) == ones(m) + 1,
    decreases j,
{
    let t = m | (1u64 << j);
    lemma_ones_unfold(t);
    lemma_ones_unfold(m);
    if j == 0 {
        assert((m >> 0u64) & 1 == 0 ==> (m | (1u64 << 0u64)) % 2 == 1 && (m | (1u64 << 0u64)) / 2 == m / 2
            && m % 2 == 0) by (bit_vector);
    } else {
        assert(0 < j < 64 ==> (m | (1u64 << j)) % 2 == m % 2 && (m | (1u64 << j)) / 2 == (m / 2) | (1u64 << (
        (j - 1) as u64))) by (bit_vector);
        assert(0 < j < 64 && (m >> j) & 1 == 0 ==> ((m / 2) >> ((j - 1) as u64)) & 1 == 0) by (bit_vector);
        lemma_ones_set(m / 2, (j - 1) as u64);
    }
}

/// Bit `x` of `v` is set.
pub open spec fn bit_set(v: u64, x: int) -> bool {
    (v >> (x as u64)) & 1 == 1
}

/// The mask of the first `k` characters has bit `x` exactly for the `#` at `x`, and
/// as many set bits as `#`.
proof fn lemma_mask_upto(l: Seq<char>, k: int)
    requires
        0 <= k <= l.len(),
        row_fits(l),
    ensures
        forall|x: int| 0 <= x < 64 ==> #[trigger] bit_set(mask_upto(l, k), x) == (x < k && l[x] == '#'),
        ones(mask_upto(l, k)) == hashes_upto(l, k),
    decreases k,
{
    if k > 0 {
        lemma_mask_upto(l, k - 1);
        let m = mask_upto(l, k - 1);
        if l[k - 1] == '#' {
            let j = (k - 1) as u64;
            assert(j < 64);
            assert(mask_upto(l, k) == m | (1u64 << j));
            assert forall|x: int| 0 <= x < 64 implies #[trigger] bit_set(mask_upto(l, k), x) == (x < k && l[x]
                == '#') by {
                let xx = x as u64;
                assert(bit_set(m, x) == (x < k - 1 && l[x] == '#'));
                assert(j < 64 && xx < 64 ==> (((m | (1u64 << j)) >> xx) & 1 == 1) == (((m >> xx) & 1 == 1) || xx
                    == j)) by (bit_vector);
            }
            assert((m >> j) & 1 == 0) by {
                assert(!bit_set(m, k - 1));
                assert(forall|v: u64, jj: u64| (v >> jj) & 1 != 1 ==> (v >> jj) & 1 == 0) by (bit_vector);
            }
            lemma_ones_set(m, j);
        } else {
            assert(m | 0u64 == m) by (bit_vector);
            assert(mask_upto(l, k) == m);
            assert forall|x: int| 0 <= x < 64 implies #[trigger] bit_set(mask_upto(l, k), x) == (x < k && l[x]
                == '#') by {
                assert(bit_set(m, x) == (x < k - 1 && l[x] == '#'));
            }
        }
    } else {
        assert(forall|x: u64| (0u64 >> x) & 1 == 0) by (bit_vector);
        assert forall|x: int| 0 <= x < 64 implies #[trigger] bit_set(mask_upto(l, k), x) == (x < k && l[x] == '#') by {
            assert(((0u64 >> (x as u64)) & 1) == 0);
        }
    }
}

proof fn lemma_rows_ones(s: Shape, ls: Seq<Seq<char>>, h: int)
    requires
        0 <= h <= ls.len() <= 3,
        forall|y: int| 0 <= y < ls.len() ==> row_fits(#[trigger] ls[y]),
        forall|y: int| 0 <= y < 3 ==> #[trigger] s.rows@[y] == if y < ls.len() {
            row_mask(ls[y])
        } else {
            0u64
        },
    ensures
        rows_ones(s.rows@, h) == hashes_in(ls, h),
    decreases h,
{
    if h > 0 {
        lemma_rows_ones(s, ls, h - 1);
        assert(s.rows@[h - 1] == row_mask(ls[h - 1]));
        lemma_mask_upto(ls[h - 1], ls[h - 1].len() as int);
    }
}

/// The shape that `build_shape_from_lines` draws from its rows covers exactly the `#`
/// of each row, has as many cells as there are `#`, as many rows as lines, and the
/// width of the longest line.
pub proof fn shape_draws_its_rows(s: Shape, id: usize, ls: Seq<Seq<char>>)
    requires
        shape_ok(s, id, ls),
        rows_ok(ls),
    ensures
        forall|y: int, x: int| 0 <= y < ls.len() && 0 <= x < 64 ==> #[trigger] s.covers(x, y) == (x < ls[y].len()
            && ls[y][x] == '#'),
        s.size_spec() == hashes_in(ls, ls.len() as int),
        s.height == ls.len(),
        s.width == max_len(ls, ls.len() as int) as u8,
{
    assert forall|y: int, x: int| 0 <= y < ls.len() && 0 <= x < 64 implies #[trigger] s.covers(x, y) == (x
        < ls[y].len() && ls[y][x] == '#') by {
        assert(row_fits(ls[y]));
        lemma_mask_upto(ls[y], ls[y].len() as int);
        assert(s.rows@[y] == row_mask(ls[y]));
        assert(bit_set(mask_upto(ls[y], ls[y].len() as int), x) == (x < ls[y].len() && ls[y][x] == '#'));
    }
    assert forall|y: int| 0 <= y < ls.len() implies row_fits(#[trigger] ls[y]) by {}
    lemma_rows_ones(s, ls, ls.len() as int);
}

/// The rows can make a shape: at most three, each within 64 columns.
pub open spec fn rows_ok(ls: Seq<Seq<char>>) -> bool {
    ls.len() <= 3 && forall|y: int| 0 <= y < ls.len() ==> row_fits(#[trigger] ls[y])
}

pub open spec fn strings_view(v: Seq<String>) -> Seq<Seq<char>> {
    Seq::new(v.len(), |i: int| v[i]@)
}

fn row_bits(l: &[char]) -> (r: u64)
    requires
        row_fits(l@),
    ensures
        r == row_mask(l@),
{
    let mut mask: u64 = 0;
    let mut x: usize = 0;
    while x < l.len()
        invariant
            x <= l.len(),
            row_fits(l@),
            mask == mask_upto(l@, x as int),
        decreases l.len() - x,
    {
        if l[x] == '#' {
            mask = mask | (1u64 << (x as u64));
        } else {
            assert(mask | 0u64 == mask) by (bit_vector);
        }
        x += 1;
    }
    mask
}

/// The shape `id` drawn by the rows `lines` (`#` covered, anything else free).
pub fn build_shape_from_lines(id: usize, lines: &[String]) -> (r: Shape)
    requires
        rows_ok(strings_view(lines@)),
    ensures
        shape_ok(r, id, strings_view(lines@)),
{
    let ghost ls = strings_view(lines@);
    let height = lines.len();
    let mut width: usize = 0;
    let mut rows_arr: [u64; 3] = [0u64; 3];
    let mut y: usize = 0;
    while y < height
        invariant
            y <= height,
            height == lines@.len(),
            height <= 3,
            ls == strings_view(lines@),
            rows_ok(ls),
            width == max_len(ls, y as int),
            forall|t: int| 0 <= t < 3 ==> #[trigger] rows_arr@[t] == if t < y {
                row_mask(ls[t])
            } else {
                0u64
            },
        decreases height - y,
    {
        let cs = chars_of(lines[y].as_str());
        assert(cs@ == ls[y as int]);
        assert(row_fits(ls[y as int]));
        if cs.len() > width {
            width = cs.len();
        }
        let m = row_bits(cs.as_slice());
        rows_arr[y] = m;
        y += 1;
    }
    Shape { id, width: width as u8, height: height as u8, rows: rows_arr }
}

/// Why the puzzle input could not be read.
#[derive(PartialEq, Eq, Debug, Clone, Copy)]
pub enum ParseError {
    /// The width of a region is no `usize`.
    GridWidth,
    /// The height of a region is no `usize`.
    GridHeight,
    /// A present count of a region is no `usize`.
    GridShapeId,
    /// A shape number is no `usize`.
    ShapeId,
    /// A shape has more than three rows.
    TooManyRows,
    /// A shape covers a column beyond the 64th.
    RowTooWide,
}

/// The reading state: shapes read so far (by number, as rows), regions read so far,
/// the shape being read and its rows, and whether the shapes are still being read.
pub type ReadState = (Map<usize, Seq<Seq<char>>>, Seq<((usize, usize), Seq<usize>)>, Option<usize>, Seq<Seq<char>>, bool);

pub open spec fn rows_error(ls: Seq<Seq<char>>) -> Option<ParseError> {
    if ls.len() > 3 {
        Some(ParseError::TooManyRows)
    } else if !rows_ok(ls) {
        Some(ParseError::RowTooWide)
    } else {
        None
    }
}

/// Ends the shape being read, if any.
pub open spec fn finish(st: ReadState) -> Result<ReadState, ParseError> {
    match st.2 {
        Some(id) => match rows_error(st.3) {
            Some(e) => Err(e),
            None => Ok((st.0.insert(id, st.3), st.1, None, Seq::empty(), st.4)),
        },
        None => Ok(st),
    }
}

pub open spec fn parse_usize_spec(s: Seq<char>) -> Option<int> {
    parse_unsigned(s, usize::MAX as int)
}

/// The words read as `usize`s, or `None` when one is not.
pub open spec fn usizes(ws: Seq<Seq<char>>) -> Option<Seq<usize>>
    decreases ws.len(),
{
    if ws.len() == 0 {
        Some(Seq::empty())
    } else {
        match (usizes(ws.drop_last()), parse_usize_spec(ws.last())) {
            (Some(vs), Some(v)) => Some(vs.push(v as usize)),
            _ => None,
        }
    }
}

/// One trimmed line: `WxH: counts` is a region; in the shape part, `n:` starts shape
/// `n` and other lines are its rows; anything else after the shapes is ignored.
pub open spec fn line_step(st: ReadState, t: Seq<char>) -> Result<ReadState, ParseError> {
    let c = crate::ranges::first_of(t, ':', 0);
    let left = t.take(c);
    let xp = crate::ranges::first_of(left, 'x', 0);
    if t.len() == 0 {
        Ok(st)
    } else if c < t.len() && xp < left.len() {
        match finish(st) {
            Err(e) => Err(e),
            Ok(s1) => match parse_usize_spec(left.take(xp)) {
                None => Err(ParseError::GridWidth),
                Some(w) => match parse_usize_spec(left.skip(xp + 1)) {
                    None => Err(ParseError::GridHeight),
                    Some(h) => match usizes(words(trim(t.skip(c + 1)))) {
                        None => Err(ParseError::GridShapeId),
                        Some(ids) => Ok((s1.0, s1.1.push(((w as usize, h as usize), ids)), s1.2, s1.3, false)),
                    },
                },
            },
        }
    } else if st.4 {
        if c < t.len() {
            match finish(st) {
                Err(e) => Err(e),
                Ok(s1) => match parse_usize_spec(t.take(c)) {
                    None => Err(ParseError::ShapeId),
                    Some(id) => Ok((s1.0, s1.1, Some(id as usize), s1.3, s1.4)),
                },
            }
        } else {
            Ok((st.0, st.1, st.2, st.3.push(t), st.4))
        }
    } else {
        Ok(st)
    }
}

pub open spec fn read_fold(lines: Seq<Seq<char>>, k: int) -> Result<ReadState, ParseError>
    decreases k,
{
    if k <= 0 {
        Ok((Map::empty(), Seq::empty(), None, Seq::empty(), true))
    } else {
        match read_fold(lines, k - 1) {
            Err(e) => Err(e),
            Ok(st) => line_step(st, trim(lines[k - 1])),
        }
    }
}

/// What the input says: the shapes (as rows, by number) and the regions.
pub open spec fn parse_spec(input: Seq<char>) -> Result<(Map<usize, Seq<Seq<char>>>, Seq<((usize, usize), Seq<usize>)>), ParseError> {
    let lines = split_on(input, '\n');
    match read_fold(lines, lines.len() as int) {
        Err(e) => Err(e),
        Ok(st) => match finish(st) {
            Err(e) => Err(e),
            Ok(s) => Ok((s.0, s.1)),
        },
    }
}

/// The lines, trimmed, without those that are blank.
pub open spec fn nonblank_lines(ls: Seq<Seq<char>>) -> Seq<Seq<char>>
    decreases ls.len(),
{
    if ls.len() == 0 {
        Seq::empty()
    } else {
        let r = nonblank_lines(ls.drop_last());
        if trim(ls.last()).len() == 0 {
            r
        } else {
            r.push(trim(ls.last()))
        }
    }
}

/// The reading of already trimmed, non-blank lines, one after another.
pub open spec fn read_lines(ts: Seq<Seq<char>>) -> Result<ReadState, ParseError>
    decreases ts.len(),
{
    if ts.len() == 0 {
        Ok((Map::empty(), Seq::empty(), None, Seq::empty(), true))
    } else {
        match read_lines(ts.drop_last()) {
            Err(e) => Err(e),
            Ok(st) => line_step(st, ts.last()),
        }
    }
}

proof fn lemma_read_fold_nonblank(lines: Seq<Seq<char>>, k: int)
    requires
        0 <= k <= lines.len(),
    ensures
        read_fold(lines, k) == read_lines(nonblank_lines(lines.take(k))),
    decreases k,
{
    if k == 0 {
        assert(lines.take(0) =~= Seq::<Seq<char>>::empty());
    } else {
        lemma_read_fold_nonblank(lines, k - 1);
        assert(lines.take(k).drop_last() =~= lines.take(k - 1));
        assert(lines.take(k).last() == lines[k - 1]);
        let t = trim(lines[k - 1]);
        if t.len() > 0 {
            let r = nonblank_lines(lines.take(k - 1));
            assert(r.push(t).drop_last() =~= r);
        } else {
            assert(t =~= Seq::<char>::empty());
        }
    }
}

/// Two inputs whose lines agree once each line is trimmed and blank lines are dropped
/// (so blank lines, and blanks at either end of a line, change nothing) read the same.
pub proof fn parse_ignores_blank_lines_and_ends(a: Seq<char>, b: Seq<char>)
    requires
        nonblank_lines(split_on(a, '\n')) == nonblank_lines(split_on(b, '\n')),
    ensures
        parse_spec(a) == parse_spec(b),
{
    let la = split_on(a, '\n');
    let lb = split_on(b, '\n');
    lemma_read_fold_nonblank(la, la.len() as int);
    lemma_read_fold_nonblank(lb, lb.len() as int);
    assert(la.take(la.len() as int) =~= la);
    assert(lb.take(lb.len() as int) =~= lb);
}

/// The region a trimmed line describes, where it is a region line (`WxH: ids`, the
/// `x` before the `:`) whose three parts read as numbers.
pub open spec fn region_of(t: Seq<char>) -> Option<((usize, usize), Seq<usize>)> {
    let c = crate::ranges::first_of(t, ':', 0);
    let left = t.take(c);
    let xp = crate::ranges::first_of(left, 'x', 0);
    if t.len() > 0 && c < t.len() && xp < left.len() {
        match (parse_usize_spec(left.take(xp)), parse_usize_spec(left.skip(xp + 1)), usizes(words(trim(t.skip(c + 1))))) {
            (Some(w), Some(h), Some(ids)) => Some(((w as usize, h as usize), ids)),
            _ => None,
        }
    } else {
        None
    }
}

/// The regions the lines describe, in order.
pub open spec fn regions_of(ts: Seq<Seq<char>>) -> Seq<((usize, usize), Seq<usize>)>
    decreases ts.len(),
{
    if ts.len() == 0 {
        Seq::empty()
    } else {
        match region_of(ts.last()) {
            Some(g) => regions_of(ts.drop_last()).push(g),
            None => regions_of(ts.drop_last()),
        }
    }
}

proof fn lemma_read_lines_regions(ts: Seq<Seq<char>>)
    ensures
        read_lines(ts) matches Ok(st) ==> st.1 == regions_of(ts),
    decreases ts.len(),
{
    if ts.len() > 0 {
        lemma_read_lines_regions(ts.drop_last());
    }
}

/// Where the input reads, its regions are those of its region lines (`WxH: ids`),
/// trimmed, in order: every other line leaves the regions alone.
pub proof fn parse_regions_are_region_lines(input: Seq<char>)
    ensures
        parse_spec(input) matches Ok(res) ==> res.1 == regions_of(nonblank_lines(split_on(input, '\n'))),
{
    let ls = split_on(input, '\n');
    lemma_read_fold_nonblank(ls, ls.len() as int);
    assert(ls.take(ls.len() as int) =~= ls);
    lemma_read_lines_regions(nonblank_lines(ls));
}

pub open spec fn grids_view(g: Seq<((usize, usize), Vec<usize>)>) -> Seq<((usize, usize), Seq<usize>)> {
    Seq::new(g.len(), |i: int| (g[i].0, g[i].1@))
}

/// The shapes of `m` are those drawn by the rows of `sm`.
pub open spec fn shapes_match(m: Map<usize, Shape>, sm: Map<usize, Seq<Seq<char>>>) -> bool {
    &&& forall|k: usize| #[trigger] m.contains_key(k) <==> sm.contains_key(k)
    &&& forall|k: usize| #[trigger] m.contains_key(k) ==> shape_ok(m[k], k, sm[k])
}

fn rows_check(rows: &Vec<String>) -> (r: Option<ParseError>)
    ensures
        r == rows_error(strings_view(rows@)),
{
    let ghost ls = strings_view(rows@);
    if rows.len() > 3 {
        return Some(ParseError::TooManyRows);
    }
    let mut y: usize = 0;
    while y < rows.len()
        invariant
            y <= rows.len(),
            rows.len() <= 3,
            ls == strings_view(rows@),
            forall|t: int| 0 <= t < y ==> row_fits(#[trigger] ls[t]),
        decreases rows.len() - y,
    {
        let cs = chars_of(rows[y].as_str());
        assert(cs@ == ls[y as int]);
        let mut x: usize = 0;
        while x < cs.len()
            invariant
                x <= cs.len(),
                y < rows.len(),
                rows.len() <= 3,
                ls == strings_view(rows@),
                cs@ == ls[y as int],
                forall|t: int| 0 <= t < x && cs@[t] == '#' ==> t < 64,
            decreases cs.len() - x,
        {
            if cs[x] == '#' && x >= 64 {
                proof {
                    assert(!row_fits(ls[y as int]));
                }
                return Some(ParseError::RowTooWide);
            }
            x += 1;
        }
        y += 1;
    }
    None
}

fn first_index(s: &[char], c: char) -> (r: usize)
    ensures
        r == crate::ranges::first_of(s@, c, 0),
        r <= s@.len(),
{
    let mut k: usize = 0;
    while k < s.len() && s[k] != c
        invariant
            k <= s.len(),
            forall|i: int| 0 <= i < k ==> s@[i] != c,
        decreases s.len() - k,
    {
        k += 1;
    }
    proof {
        lemma_first_of_is(s@, c, k as int);
    }
    k
}

proof fn lemma_first_of_is(s: Seq<char>, c: char, k: int)
    requires
        0 <= k <= s.len(),
        forall|i: int| 0 <= i < k ==> s[i] != c,
        k < s.len() ==> s[k] == c,
    ensures
        crate::ranges::first_of(s, c, 0) == k,
{
    lemma_first_of_from(s, c, 0, k);
}

proof fn lemma_first_of_from(s: Seq<char>, c: char, from: int, k: int)
    requires
        0 <= from <= k <= s.len(),
        forall|i: int| from <= i < k ==> s[i] != c,
        k < s.len() ==> s[k] == c,
    ensures
        crate::ranges::first_of(s, c, from) == k,
    decreases k - from,
{
    if from < k {
        lemma_first_of_from(s, c, from + 1, k);
    }
}

fn parse_ids(ws: &Vec<Vec<char>>) -> (r: Option<Vec<usize>>)
    ensures
        match (r, usizes(Seq::new(ws@.len(), |i: int| ws@[i]@))) {
            (Some(v), Some(s)) => v@ == s,
            (None, None) => true,
            _ => false,
        },
{
    let ghost wv = Seq::new(ws@.len(), |i: int| ws@[i]@);
    let mut out: Vec<usize> = Vec::new();
    let mut i: usize = 0;
    while i < ws.len()
        invariant
            i <= ws.len(),
            wv == Seq::new(ws@.len(), |i: int| ws@[i]@),
            usizes(wv.take(i as int)) == Some(out@),
        decreases ws.len() - i,
    {
        assert(wv.take(i + 1).drop_last() =~= wv.take(i as int));
        assert(wv.take(i + 1).last() == ws@[i as int]@);
        match parse_usize(ws[i].as_slice()) {
            Some(v) => {
                out.push(v);
            },
            None => {
                proof {
                    lemma_usizes_none(wv, i as int + 1);
                }
                return None;
            },
        }
        i += 1;
    }
    assert(wv.take(ws.len() as int) =~= wv);
    Some(out)
}

proof fn lemma_usizes_none(ws: Seq<Seq<char>>, k: int)
    requires
        0 < k <= ws.len(),
        usizes(ws.take(k)) is None,
    ensures
        usizes(ws) is None,
    decreases ws.len() - k,
{
    if k < ws.len() {
        assert(ws.take(k + 1).drop_last() =~= ws.take(k));
        lemma_usizes_none(ws, k + 1);
    } else {
        assert(ws.take(k) =~= ws);
    }
}

/// Ends the shape being read: builds it from its rows and files it under its number.
fn finish_shape(
    shapes: &mut HashMap<usize, Shape>,
    current_id: Option<usize>,
    current_rows: &Vec<String>,
    Ghost(st): Ghost<ReadState>,
) -> (r: Option<ParseError>)
    requires
        shapes_match(old(shapes)@, st.0),
        st.2 == current_id,
        st.3 == strings_view(current_rows@),
    ensures
        match finish(st) {
            Err(e) => r == Some(e),
            Ok(s1) => r is None && shapes_match(final(shapes)@, s1.0),
        },
{
    match current_id {
        Some(id) => {
            match rows_check(current_rows) {
                Some(e) => Some(e),
                None => {
                    let sh = build_shape_from_lines(id, current_rows.as_slice());
                    shapes.insert(id, sh);
                    proof {
                        let m2 = st.0.insert(id, st.3);
                        assert forall|k: usize| #[trigger] shapes@.contains_key(k) <==> m2.contains_key(k) by {}
                        assert forall|k: usize| #[trigger] shapes@.contains_key(k) implies shape_ok(shapes@[k], k, m2[k]) by {
                            if k != id {
                                assert(old(shapes)@.contains_key(k));
                            }
                        }
                    }
                    None
                },
            }
        },
        None => None,
    }
}

proof fn lemma_fold_err(ls: Seq<Seq<char>>, k: int)
    requires
        0 <= k <= ls.len(),
        read_fold(ls, k) is Err,
    ensures
        read_fold(ls, ls.len() as int) == read_fold(ls, k),
    decreases ls.len() - k,
{
    if k < ls.len() {
        lemma_fold_err(ls, k + 1);
    }
}

/// Reads the shapes and the regions from the whole input.
pub fn parse_input(input: &str) -> (r: Result<(HashMap<usize, Shape>, Vec<((usize, usize), Vec<usize>)>), ParseError>)
    ensures
        match (r, parse_spec(input@)) {
            (Ok(res), Ok(sres)) => shapes_match(res.0@, sres.0) && grids_view(res.1@) == sres.1,
            (Err(e), Err(e2)) => e == e2,
            _ => false,
        },
{
    let cs = chars_of(input);
    let lines = split_char(cs.as_slice(), '\n');
    let ghost ls = split_on(input@, '\n');
    let mut shapes: HashMap<usize, Shape> = HashMap::new();
    let ghost mut smap: Map<usize, Seq<Seq<char>>> = Map::empty();
    let mut grids: Vec<((usize, usize), Vec<usize>)> = Vec::new();
    let mut current_id: Option<usize> = None;
    let mut current_rows: Vec<String> = Vec::new();
    let mut in_shape = true;
    let mut i: usize = 0;
    assert(grids_view(grids@) =~= Seq::<((usize, usize), Seq<usize>)>::empty());
    assert(strings_view(current_rows@) =~= Seq::<Seq<char>>::empty());
    while i < lines.len()
        invariant
            i <= lines.len(),
            ls == split_on(input@, '\n'),
            lines@.len() == ls.len(),
            forall|k: int| 0 <= k < lines@.len() ==> #[trigger] lines@[k]@ == ls[k],
            read_fold(ls, i as int) == Ok::<ReadState, ParseError>(
                (smap, grids_view(grids@), current_id, strings_view(current_rows@), in_shape),
            ),
            shapes_match(shapes@, smap),
        decreases lines.len() - i,
    {
        let ghost st: ReadState = (smap, grids_view(grids@), current_id, strings_view(current_rows@), in_shape);
        assert(lines@[i as int]@ == ls[i as int]);
        let t = trim_chars(lines[i].as_slice());
        if t.len() > 0 {
            let c = first_index(t.as_slice(), ':');
            let left = slice_subrange(t.as_slice(), 0, c);
            assert(left@ =~= t@.take(c as int));
            let xp = first_index(left, 'x');
            if c < t.len() && xp < left.len() {
                match finish_shape(&mut shapes, current_id, &current_rows, Ghost(st)) {
                    Some(e) => {
                        proof {
                            lemma_fold_err(ls, i + 1);
                        }
                        return Err(e);
                    },
                    None => {},
                }
                proof {
                    smap = finish(st)->Ok_0.0;
                }
                if current_id.is_some() {
                    current_rows = Vec::new();
                    current_id = None;
                }
                let wpart = slice_subrange(left, 0, xp);
                assert(wpart@ =~= left@.take(xp as int));
                let w = match parse_usize(wpart) {
                    Some(w) => w,
                    None => {
                        proof {
                            lemma_fold_err(ls, i + 1);
                        }
                        return Err(ParseError::GridWidth);
                    },
                };
                let hpart = slice_subrange(left, xp + 1, left.len());
                assert(hpart@ =~= left@.skip(xp + 1));
                let h = match parse_usize(hpart) {
                    Some(h) => h,
                    None => {
                        proof {
                            lemma_fold_err(ls, i + 1);
                        }
                        return Err(ParseError::GridHeight);
                    },
                };
                let rest = slice_subrange(t.as_slice(), c + 1, t.len());
                assert(rest@ =~= t@.skip(c + 1));
                let after = trim_chars(rest);
                let ws = split_words(after.as_slice());
                assert(Seq::new(ws@.len(), |k: int| ws@[k]@) =~= words(after@));
                let ids = match parse_ids(&ws) {
                    Some(v) => v,
                    None => {
                        proof {
                            lemma_fold_err(ls, i + 1);
                        }
                        return Err(ParseError::GridShapeId);
                    },
                };
                let ghost g0 = grids@;
                grids.push(((w, h), ids));
                in_shape = false;
                assert(grids_view(grids@) =~= grids_view(g0).push(((w, h), ids@)));
                assert(strings_view(current_rows@) =~= finish(st)->Ok_0.3);
            } else if in_shape {
                if c < t.len() {
                    match finish_shape(&mut shapes, current_id, &current_rows, Ghost(st)) {
                        Some(e) => {
                            proof {
                                lemma_fold_err(ls, i + 1);
                            }
                            return Err(e);
                        },
                        None => {},
                    }
                    proof {
                        smap = finish(st)->Ok_0.0;
                    }
                    if current_id.is_some() {
                        current_rows = Vec::new();
                    }
                    let ipart = slice_subrange(t.as_slice(), 0, c);
                    assert(ipart@ =~= t@.take(c as int));
                    let id = match parse_usize(ipart) {
                        Some(id) => id,
                        None => {
                            proof {
                                lemma_fold_err(ls, i + 1);
                            }
                            return Err(ParseError::ShapeId);
                        },
                    };
                    current_id = Some(id);
                    assert(strings_view(current_rows@) =~= finish(st)->Ok_0.3);
                } else {
                    let ghost r0 = current_rows@;
                    current_rows.push(string_of(t.as_slice()));
                    assert(strings_view(current_rows@) =~= strings_view(r0).push(t@));
                }
            }
        }
        i += 1;
    }
    assert(lines@.len() == ls.len());
    let ghost st: ReadState = (smap, grids_view(grids@), current_id, strings_view(current_rows@), in_shape);
    match finish_shape(&mut shapes, current_id, &current_rows, Ghost(st)) {
        Some(e) => {
            return Err(e);
        },
        None => {},
    }
    Ok((shapes, grids))
}

pub open spec fn count_sum(cs: Seq<usize>, k: int) -> int
    decreases k,
{
    if k <= 0 {
        0
    } else {
        count_sum(cs, k - 1) + cs[k - 1]
    }
}

/// The cells the first `k` kinds of presents of a region cover, `cs[i]` of kind `i`.
pub open spec fn tight_sum(shapes: Map<usize, Shape>, cs: Seq<usize>, k: int) -> int
    decreases k,
{
    if k <= 0 {
        0
    } else {
        tight_sum(shapes, cs, k - 1) + cs[k - 1] * shapes[(k - 1) as usize].size_spec()
    }
}

/// What a region gets: `0` when the presents fit even in 3x3 blocks, `1` when they
/// cover more cells than the region has, `2` when neither test decides.
pub open spec fn region_class(shapes: Map<usize, Shape>, g: ((usize, usize), Seq<usize>)) -> int {
    let w = g.0.0 as int;
    let h = g.0.1 as int;
    if count_sum(g.1, g.1.len() as int) <= (w / 3) * (h / 3) {
        0
    } else if w * h < tight_sum(shapes, g.1, g.1.len() as int) {
        1
    } else {
        2
    }
}

/// The tests of a region run without a panic or an overflow.
pub open spec fn region_ok(shapes: Map<usize, Shape>, g: ((usize, usize), Seq<usize>)) -> bool {
    let w = g.0.0 as int;
    let h = g.0.1 as int;
    let cs = g.1;
    &&& (w / 3) * (h / 3) <= usize::MAX
    &&& forall|k: int| 0 <= k <= cs.len() ==> #[trigger] count_sum(cs, k) <= usize::MAX
    &&& count_sum(cs, cs.len() as int) > (w / 3) * (h / 3) ==> {
        &&& w * h <= usize::MAX
        &&& forall|i: int| 0 <= i < cs.len() ==> #[trigger] shapes.contains_key(i as usize) && shapes[i as usize].height <= 3
        &&& forall|k: int| 0 <= k < cs.len() ==> cs[k] * shapes[k as usize].size_spec() <= usize::MAX
        &&& forall|k: int| 0 <= k <= cs.len() ==> #[trigger] tight_sum(shapes, cs, k) <= usize::MAX
    }
}

/// The regions with class `c` among the first `k`.
pub open spec fn class_count(shapes: Map<usize, Shape>, gs: Seq<((usize, usize), Seq<usize>)>, c: int, k: int) -> nat
    decreases k,
{
    if k <= 0 {
        0
    } else {
        class_count(shapes, gs, c, k - 1) + if region_class(shapes, gs[k - 1]) == c {
            1nat
        } else {
            0nat
        }
    }
}

/// The positions of the regions with class `c` among the first `k`.
pub open spec fn class_positions(shapes: Map<usize, Shape>, gs: Seq<((usize, usize), Seq<usize>)>, c: int, k: int) -> Seq<usize>
    decreases k,
{
    if k <= 0 {
        Seq::empty()
    } else {
        let p = class_positions(shapes, gs, c, k - 1);
        if region_class(shapes, gs[k - 1]) == c {
            p.push((k - 1) as usize)
        } else {
            p
        }
    }
}

proof fn lemma_class_count_mono(shapes: Map<usize, Shape>, gs: Seq<((usize, usize), Seq<usize>)>, c: int, a: int, b: int)
    requires
        0 <= a <= b,
    ensures
        class_count(shapes, gs, c, a) <= class_count(shapes, gs, c, b),
    decreases b - a,
{
    if a < b {
        lemma_class_count_mono(shapes, gs, c, a, b - 1);
    }
}

/// Sorts each region: counts the regions where the presents surely fit, and lists
/// the regions that neither quick test decides.
pub fn one(shapes: &HashMap<usize, Shape>, grids: &Vec<((usize, usize), Vec<usize>)>) -> (r: (i32, Vec<usize>))
    requires
        forall|i: int| 0 <= i < grids@.len() ==> region_ok(shapes@, #[trigger] grids_view(grids@)[i]),
        class_count(shapes@, grids_view(grids@), 0, grids@.len() as int) <= i32::MAX,
    ensures
        r.0 == class_count(shapes@, grids_view(grids@), 0, grids@.len() as int),
        r.1@ == class_positions(shapes@, grids_view(grids@), 2, grids@.len() as int),
{
    let ghost gs = grids_view(grids@);
    let mut result: i32 = 0;
    let mut unclear: Vec<usize> = Vec::new();
    let mut q: usize = 0;
    while q < grids.len()
        invariant
            q <= grids.len(),
            gs == grids_view(grids@),
            forall|i: int| 0 <= i < grids@.len() ==> region_ok(shapes@, #[trigger] gs[i]),
            class_count(shapes@, gs, 0, grids@.len() as int) <= i32::MAX,
            result == class_count(shapes@, gs, 0, q as int),
            unclear@ == class_positions(shapes@, gs, 2, q as int),
        decreases grids.len() - q,
    {
        let width = grids[q].0.0;
        let height = grids[q].0.1;
        let amounts = &grids[q].1;
        let ghost g = gs[q as int];
        assert(region_ok(shapes@, g));
        assert(g.1 == amounts@);
        let loose_width = width / 3;
        let loose_height = height / 3;
        let capacity_for_loose = loose_width * loose_height;
        let mut loose_presents: usize = 0;
        let mut k: usize = 0;
        while k < amounts.len()
            invariant
                k <= amounts.len(),
                forall|t: int| 0 <= t <= amounts@.len() ==> #[trigger] count_sum(amounts@, t) <= usize::MAX,
                loose_presents == count_sum(amounts@, k as int),
            decreases amounts.len() - k,
        {
            assert(count_sum(amounts@, k + 1) <= usize::MAX);
            loose_presents = loose_presents + amounts[k];
            k += 1;
        }
        if loose_presents <= capacity_for_loose {
            proof {
                lemma_class_count_mono(shapes@, gs, 0, q + 1, grids@.len() as int);
            }
            result += 1;
        } else {
            let available_area = width * height;
            let mut tight_placing: usize = 0;
            let mut k: usize = 0;
            while k < amounts.len()
                invariant
                    k <= amounts.len(),
                    forall|i: int| 0 <= i < amounts@.len() ==> #[trigger] shapes@.contains_key(i as usize) && shapes@[i as usize].height <= 3,
                    forall|t: int| 0 <= t < amounts@.len() ==> amounts@[t] * shapes@[t as usize].size_spec() <= usize::MAX,
                    forall|t: int| 0 <= t <= amounts@.len() ==> #[trigger] tight_sum(shapes@, amounts@, t) <= usize::MAX,
                    tight_placing == tight_sum(shapes@, amounts@, k as int),
                decreases amounts.len() - k,
            {
                assert(shapes@.contains_key(k as usize));
                let shape = shapes.get(&k).unwrap();
                let density = shape.size();
                assert(amounts@[k as int] * shapes@[k as usize].size_spec() <= usize::MAX);
                assert(tight_sum(shapes@, amounts@, k + 1) <= usize::MAX);
                tight_placing = tight_placing + amounts[k] * density;
                k += 1;
            }
            if available_area < tight_placing {
            } else {
                unclear.push(q);
            }
        }
        q += 1;
    }
    (result, unclear)
}

} // verus!
