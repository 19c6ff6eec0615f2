//! A math worksheet: problems are columns of numbers with an operator (`+` or `*`)
//! at the bottom; the grand total adds up every problem's answer.
use vstd::prelude::*;
use crate::decimal::{parse_in, parse_i64};
use crate::text::{chars_of, split_words, trim, trim_chars, words};

verus! {

pub open spec fn sum_i64(s: Seq<i64>) -> int
    decreases s.len(),
{
    if s.len() == 0 {
        0
    } else {
        sum_i64(s.drop_last()) + s.last()
    }
}

pub open spec fn prod_i64(s: Seq<i64>) -> int
    decreases s.len(),
{
    if s.len() == 0 {
        1
    } else {
        prod_i64(s.drop_last()) * s.last()
    }
}

/// Adding up `s` in order stays within `i64`.
pub open spec fn sum_fits(s: Seq<i64>) -> bool {
    forall|k: int| 0 <= k <= s.len() ==> i64::MIN <= #[trigger] sum_i64(s.take(k)) <= i64::MAX
}

/// Multiplying `s` in order stays within `i64`.
pub open spec fn prod_fits(s: Seq<i64>) -> bool {
    forall|k: int| 0 <= k <= s.len() ==> i64::MIN <= #[trigger] prod_i64(s.take(k)) <= i64::MAX
}

/// The sum of `v`, as `Iterator::sum` computes it.
pub fn sum_of(v: &[i64]) -> (r: i64)
    requires
        sum_fits(v@),
    ensures
        r == sum_i64(v@),
{
    let mut acc: i64 = 0;
    let mut i: usize = 0;
    assert(v@.take(0) =~= Seq::<i64>::empty());
    while i < v.len()
        invariant
            i <= v.len(),
            sum_fits(v@),
            acc == sum_i64(v@.take(i as int)),
        decreases v.len() - i,
    {
        assert(v@.take(i + 1).drop_last() =~= v@.take(i as int));
        assert(i64::MIN <= sum_i64(v@.take(i + 1)) <= i64::MAX);
        acc = acc + v[i];
        i += 1;
    }
    assert(v@.take(v.len() as int) =~= v@);
    acc
}

/// The product of `v`, as `Iterator::product` computes it.
pub fn product_of(v: &[i64]) -> (r: i64)
    requires
        prod_fits(v@),
    ensures
        r == prod_i64(v@),
{
    let mut acc: i64 = 1;
    let mut i: usize = 0;
    assert(v@.take(0) =~= Seq::<i64>::empty());
    while i < v.len()
        invariant
            i <= v.len(),
            prod_fits(v@),
            acc == prod_i64(v@.take(i as int)),
        decreases v.len() - i,
    {
        assert(v@.take(i + 1).drop_last() =~= v@.take(i as int));
        assert(i64::MIN <= prod_i64(v@.take(i + 1)) <= i64::MAX);
        acc = acc * v[i];
        i += 1;
    }
    assert(v@.take(v.len() as int) =~= v@);
    acc
}

/// A word of a row: an `i64` if it reads as one, else `1` for `*` and `0` for anything
/// else (so `+` is `0`).
pub open spec fn token_value(t: Seq<char>) -> i64 {
    match parse_in(t, i64::MIN as int, i64::MAX as int) {
        Some(v) => v as i64,
        None => if t == seq!['*'] {
            1
        } else {
            0
        },
    }
}

/// The values of the words of a line.
pub open spec fn row_values(line: Seq<char>) -> Seq<i64> {
    words(line).map_values(|t: Seq<char>| token_value(t))
}

pub open spec fn rows_of(lines: Seq<String>) -> Seq<Seq<i64>> {
    Seq::new(lines.len(), |j: int| row_values(lines[j]@))
}

/// Column `i` of the rows, top to bottom.
pub open spec fn column(rows: Seq<Seq<i64>>, i: int) -> Seq<i64> {
    Seq::new(rows.len(), |j: int| rows[j][i])
}

/// A column's answer: the numbers above the last entry, added when the last entry is
/// `0` (a `+`), multiplied otherwise.
pub open spec fn column_value(c: Seq<i64>) -> int {
    if c.last() == 0 {
        sum_i64(c.drop_last())
    } else {
        prod_i64(c.drop_last())
    }
}

pub open spec fn column_ok(c: Seq<i64>) -> bool {
    if c.last() == 0 {
        sum_fits(c.drop_last())
    } else {
        prod_fits(c.drop_last())
    }
}

proof fn lemma_sum_prepend(x: i64, s: Seq<i64>)
    ensures
        sum_i64(seq![x] + s) == x + sum_i64(s),
    decreases s.len(),
{
    let t = seq![x] + s;
    if s.len() == 0 {
        assert(t =~= seq![x]);
        assert(t.drop_last() =~= Seq::<i64>::empty());
        assert(sum_i64(t) == sum_i64(t.drop_last()) + t.last());
    } else {
        lemma_sum_prepend(x, s.drop_last());
        assert(t.drop_last() =~= seq![x] + s.drop_last());
        assert(t.last() == s.last());
        assert(sum_i64(t) == sum_i64(t.drop_last()) + t.last());
    }
}

proof fn lemma_prod_prepend(x: i64, s: Seq<i64>)
    ensures
        prod_i64(seq![x] + s) == x * prod_i64(s),
    decreases s.len(),
{
    let t = seq![x] + s;
    if s.len() == 0 {
        assert(t =~= seq![x]);
        assert(t.drop_last() =~= Seq::<i64>::empty());
        assert(prod_i64(t) == prod_i64(t.drop_last()) * t.last());
    } else {
        lemma_prod_prepend(x, s.drop_last());
        assert(t.drop_last() =~= seq![x] + s.drop_last());
        assert(t.last() == s.last());
        assert(prod_i64(t) == prod_i64(t.drop_last()) * t.last());
        let p = prod_i64(s.drop_last());
        let l = s.last() as int;
        assert((x * p) * l == x * (p * l)) by (nonlinear_arith);
    }
}

/// A column's answer takes in every entry above its operator, however many rows there
/// are: with nothing above, a `+` column answers 0 and a `*` column 1; an entry put
/// just above the operator, or on top of the column, is added to the answer of a `+`
/// column and multiplies the answer of a `*` column.
pub proof fn column_answer_takes_every_entry(above: Seq<i64>, x: i64, op: i64)
    ensures
        column_value(seq![op]) == (if op == 0 { 0int } else { 1int }),
        column_value(above.push(x).push(op)) == (if op == 0 {
            column_value(above.push(op)) + x
        } else {
            column_value(above.push(op)) * x
        }),
        column_value(seq![x] + above.push(op)) == (if op == 0 {
            x + column_value(above.push(op))
        } else {
            x * column_value(above.push(op))
        }),
{
    assert(seq![op].drop_last() =~= Seq::<i64>::empty());
    assert(above.push(x).push(op).drop_last() =~= above.push(x));
    assert(above.push(x).drop_last() =~= above);
    assert(above.push(op).drop_last() =~= above);
    assert((seq![x] + above.push(op)).drop_last() =~= seq![x] + above);
    assert((seq![x] + above.push(op)).last() == op);
    lemma_sum_prepend(x, above);
    lemma_prod_prepend(x, above);
}

/// The answers of the first `k` columns, added up.
pub open spec fn columns_total(rows: Seq<Seq<i64>>, k: int) -> int
    decreases k,
{
    if k <= 0 {
        0
    } else {
        columns_total(rows, k - 1) + column_value(column(rows, k - 1))
    }
}

/// The grand total takes in every column: a table with no columns totals 0, one with a
/// single column totals that column's answer, and a column put in front of the table
/// (one more entry at the start of every row) adds its answer to the total.
pub proof fn total_takes_every_column(rows: Seq<Seq<i64>>, col: Seq<i64>, k: int)
    requires
        col.len() == rows.len(),
        0 <= k,
        forall|j: int| 0 <= j < rows.len() ==> (#[trigger] rows[j]).len() >= k,
    ensures
        columns_total(rows, 0) == 0,
        columns_total(Seq::new(rows.len(), |j: int| seq![col[j]]), 1) == column_value(col),
        columns_total(Seq::new(rows.len(), |j: int| seq![col[j]] + rows[j]), k + 1) == column_value(col)
            + columns_total(rows, k),
    decreases k,
{
    let one_col = Seq::new(rows.len(), |j: int| seq![col[j]]);
    assert(column(one_col, 0) =~= col);
    assert(columns_total(one_col, 1) == columns_total(one_col, 0) + column_value(column(one_col, 0)));
    let t = Seq::new(rows.len(), |j: int| seq![col[j]] + rows[j]);
    if k == 0 {
        assert(column(t, 0) =~= col);
        assert(columns_total(t, 1) == columns_total(t, 0) + column_value(column(t, 0)));
    } else {
        total_takes_every_column(rows, col, k - 1);
        assert(column(t, k) =~= column(rows, k - 1)) by {
            assert forall|j: int| 0 <= j < rows.len() implies column(t, k)[j] == column(rows, k - 1)[j] by {
                assert(rows[j].len() >= k);
                assert((seq![col[j]] + rows[j])[k] == rows[j][k - 1]);
            }
        }
        assert(columns_total(t, k + 1) == columns_total(t, k) + column_value(column(t, k)));
    }
}

/// The entries of the rows are the words of the lines: a `+` reads as `0`, a `*` as
/// `1`, and a number as itself; the rows are the lines, in order.
pub proof fn rows_are_the_words_of_the_lines(lines: Seq<String>, j: int, i: int)
    requires
        0 <= j < lines.len(),
        0 <= i < words(lines[j]@).len(),
    ensures
        rows_of(lines).len() == lines.len(),
        rows_of(lines)[j].len() == words(lines[j]@).len(),
        rows_of(lines)[j][i] == token_value(words(lines[j]@)[i]),
        token_value(seq!['+']) == 0,
        token_value(seq!['*']) == 1,
        forall|v: i64| #[trigger] token_value(crate::decimal::dec_str(v as int)) == v,
{
    assert(parse_in(seq!['+'], i64::MIN as int, i64::MAX as int) is None) by {
        assert(seq!['+'].drop_first().len() == 0);
    }
    assert(parse_in(seq!['*'], i64::MIN as int, i64::MAX as int) is None) by {
        assert(!crate::decimal::is_digit(seq!['*'][0]));
        assert(!crate::decimal::all_digits(seq!['*']));
    }
    assert forall|v: i64| #[trigger] token_value(crate::decimal::dec_str(v as int)) == v by {
        crate::decimal::lemma_parse_dec_str(v as int);
    }
}

/// The worksheet read by words runs without a panic or an overflow.
pub open spec fn one_ok(lines: Seq<String>) -> bool {
    let rows = rows_of(lines);
    &&& rows.len() >= 1
    &&& forall|j: int| 0 <= j < rows.len() ==> (#[trigger] rows[j]).len() >= rows[0].len()
    &&& forall|i: int| 0 <= i < rows[0].len() ==> column_ok(#[trigger] column(rows, i))
    &&& forall|k: int|
        0 <= k <= rows[0].len() ==> i64::MIN <= #[trigger] columns_total(rows, k) <= i64::MAX
}

fn token_of(t: &[char]) -> (r: i64)
    ensures
        r == token_value(t@),
{
    match parse_i64(t) {
        Some(v) => v,
        None => if t.len() == 1 && t[0] == '*' {
            assert(t@ =~= seq!['*']);
            1
        } else {
            0
        },
    }
}

/// The values of the words of one line.
pub fn row_of_line(line: &str) -> (r: Vec<i64>)
    ensures
        r@ == row_values(line@),
{
    let cs = chars_of(line);
    let ws = split_words(cs.as_slice());
    let mut out: Vec<i64> = Vec::new();
    let mut i: usize = 0;
    while i < ws.len()
        invariant
            i <= ws.len(),
            ws@.len() == words(line@).len(),
            forall|k: int| 0 <= k < ws@.len() ==> (#[trigger] ws@[k])@ == words(line@)[k],
            out@ == row_values(line@).take(i as int),
        decreases ws.len() - i,
    {
        let v = token_of(ws[i].as_slice());
        out.push(v);
        i += 1;
        assert(out@ =~= row_values(line@).take(i as int));
    }
    assert(row_values(line@).take(ws.len() as int) =~= row_values(line@));
    out
}

/// Reads the worksheet by words and adds up the answers of its columns.
pub fn one(lines: &Vec<String>) -> (r: i64)
    requires
        one_ok(lines@),
    ensures
        r == columns_total(rows_of(lines@), rows_of(lines@)[0].len() as int),
{
    let ghost rows = rows_of(lines@);
    let mut nums: Vec<Vec<i64>> = Vec::new();
    let mut j: usize = 0;
    while j < lines.len()
        invariant
            j <= lines.len(),
            rows == rows_of(lines@),
            nums.len() == j,
            forall|k: int| 0 <= k < j ==> (#[trigger] nums@[k])@ == rows[k],
        decreases lines.len() - j,
    {
        nums.push(row_of_line(lines[j].as_str()));
        j += 1;
    }
    let mut res1: i64 = 0;
    assert(nums@[0]@ == rows[0]);
    let width = nums[0].len();
    let mut i: usize = 0;
    while i < width
        invariant
            i <= width,
            width == rows[0].len(),
            rows == rows_of(lines@),
            one_ok(lines@),
            nums.len() == rows.len(),
            forall|k: int| 0 <= k < nums.len() ==> (#[trigger] nums@[k])@ == rows[k],
            res1 == columns_total(rows, i as int),
        decreases width - i,
    {
        let mut col: Vec<i64> = Vec::new();
        let mut k: usize = 0;
        while k < nums.len()
            invariant
                k <= nums.len(),
                i < width,
                width == rows[0].len(),
                nums.len() == rows.len(),
                forall|t: int| 0 <= t < nums.len() ==> (#[trigger] nums@[t])@ == rows[t],
                forall|t: int| 0 <= t < rows.len() ==> (#[trigger] rows[t]).len() >= rows[0].len(),
                col@ == column(rows, i as int).take(k as int),
            decreases nums.len() - k,
        {
            assert(nums@[k as int]@ == rows[k as int]);
            assert(rows[k as int].len() >= width);
            col.push(nums[k][i]);
            k += 1;
            assert(col@ =~= column(rows, i as int).take(k as int));
        }
        assert(col@ =~= column(rows, i as int));
        assert(column_ok(column(rows, i as int)));
        let n = col.len();
        let head = vstd::slice::slice_subrange(col.as_slice(), 0, n - 1);
        assert(head@ =~= col@.drop_last());
        let v = if col[n - 1] == 0 {
            sum_of(head)
        } else {
            product_of(head)
        };
        assert(i64::MIN <= columns_total(rows, i + 1) <= i64::MAX);
        res1 = res1 + v;
        i += 1;
    }
    res1
}

pub open spec fn is_op(c: char) -> bool {
    c == '*' || c == '+'
}

/// The lines as rows of characters.
pub open spec fn char_rows(lines: Seq<String>) -> Seq<Seq<char>> {
    Seq::new(lines.len(), |j: int| lines[j]@)
}

/// The first row at or after `j` whose character in column `i` is an operator, or the
/// number of rows when there is none.
pub open spec fn op_row(g: Seq<Seq<char>>, i: int, j: int) -> int
    decreases g.len() - j,
{
    if j >= g.len() {
        g.len() as int
    } else if is_op(g[j][i]) {
        j
    } else {
        op_row(g, i, j + 1)
    }
}

/// The characters of column `i` above its operator, top to bottom.
pub open spec fn col_text(g: Seq<Seq<char>>, i: int) -> Seq<char> {
    Seq::new(op_row(g, i, 0) as nat, |j: int| g[j][i])
}

/// Every row the walk down column `i` reaches has that column.
pub open spec fn col_ok(g: Seq<Seq<char>>, i: int) -> bool {
    forall|j: int| 0 <= j < g.len() && j <= op_row(g, i, 0) ==> i < (#[trigger] g[j]).len()
}

/// The state of the walk over the columns: finished problems, the numbers of the
/// current one, and whether the current one adds.
pub type SheetState = (Seq<(Seq<i64>, bool)>, Seq<i64>, bool);

/// One column: an operator starts a new problem; then the column's text, trimmed, is a
/// number of the current problem when it reads as an `i64`.
pub open spec fn col_step(g: Seq<Seq<char>>, i: int, st: SheetState) -> SheetState {
    let k = op_row(g, i, 0);
    let st1: SheetState = if k < g.len() {
        (st.0.push((st.1, st.2)), Seq::empty(), g[k][i] == '+')
    } else {
        st
    };
    match parse_in(trim(col_text(g, i)), i64::MIN as int, i64::MAX as int) {
        Some(v) => (st1.0, st1.1.push(v as i64), st1.2),
        None => st1,
    }
}

pub open spec fn cols_fold(g: Seq<Seq<char>>, n: int) -> SheetState
    decreases n,
{
    if n <= 0 {
        (Seq::empty(), Seq::empty(), true)
    } else {
        col_step(g, n - 1, cols_fold(g, n - 1))
    }
}

/// The problems of the worksheet read column by column (the first is the empty one
/// before the first operator).
pub open spec fn problems(g: Seq<Seq<char>>) -> Seq<(Seq<i64>, bool)> {
    let st = cols_fold(g, g[0].len() as int);
    st.0.push((st.1, st.2))
}

pub open spec fn problem_value(p: (Seq<i64>, bool)) -> int {
    if p.1 {
        sum_i64(p.0)
    } else {
        prod_i64(p.0)
    }
}

pub open spec fn problems_total(ps: Seq<(Seq<i64>, bool)>, k: int) -> int
    decreases k,
{
    if k <= 0 {
        0
    } else {
        problems_total(ps, k - 1) + problem_value(ps[k - 1])
    }
}

/// The worksheet read by columns runs without a panic or an overflow.
pub open spec fn two_ok(lines: Seq<String>) -> bool {
    let g = char_rows(lines);
    let ps = problems(g);
    &&& g.len() >= 1
    &&& forall|i: int| 0 <= i < g[0].len() ==> #[trigger] col_ok(g, i)
    &&& forall|t: int|
        0 <= t < ps.len() ==> (if (#[trigger] ps[t]).1 {
            sum_fits(ps[t].0)
        } else {
            prod_fits(ps[t].0)
        })
    &&& forall|k: int| 0 <= k <= ps.len() ==> i64::MIN <= #[trigger] problems_total(ps, k) <= i64::MAX
}

proof fn lemma_op_row(g: Seq<Seq<char>>, i: int, j: int)
    requires
        0 <= j <= g.len(),
        forall|t: int| 0 <= t < j ==> !is_op(#[trigger] g[t][i]),
    ensures
        op_row(g, i, 0) == op_row(g, i, j),
        j <= op_row(g, i, j) <= g.len(),
    decreases j,
{
    lemma_op_row_bounds(g, i, j);
    if j > 0 {
        lemma_op_row(g, i, j - 1);
        assert(!is_op(g[j - 1][i]));
    }
}

proof fn lemma_op_row_bounds(g: Seq<Seq<char>>, i: int, j: int)
    requires
        0 <= j <= g.len(),
    ensures
        j <= op_row(g, i, j) <= g.len(),
    decreases g.len() - j,
{
    if j < g.len() && !is_op(g[j][i]) {
        lemma_op_row_bounds(g, i, j + 1);
    }
}

pub open spec fn groups_view(v: Seq<(Vec<i64>, bool)>) -> Seq<(Seq<i64>, bool)> {
    Seq::new(v.len(), |k: int| (v[k].0@, v[k].1))
}

/// Reads the worksheet column by column (numbers written top to bottom) and adds up
/// the answers of its problems.
pub fn two(lines: &Vec<String>) -> (r: i64)
    requires
        two_ok(lines@),
    ensures
        r == problems_total(problems(char_rows(lines@)), problems(char_rows(lines@)).len() as int),
{
    let ghost g = char_rows(lines@);
    let mut chars: Vec<Vec<char>> = Vec::new();
    let mut j: usize = 0;
    while j < lines.len()
        invariant
            j <= lines.len(),
            g == char_rows(lines@),
            chars.len() == j,
            forall|k: int| 0 <= k < j ==> (#[trigger] chars@[k])@ == g[k],
        decreases lines.len() - j,
    {
        chars.push(chars_of(lines[j].as_str()));
        j += 1;
    }
    let mut sum = true;
    let mut stuff: Vec<(Vec<i64>, bool)> = Vec::new();
    let mut curr: Vec<i64> = Vec::new();
    assert(chars@[0]@ == g[0]);
    let width = chars[0].len();
    let mut i: usize = 0;
    assert(groups_view(stuff@) =~= cols_fold(g, 0).0);
    while i < width
        invariant
            i <= width,
            width == g[0].len(),
            g == char_rows(lines@),
            two_ok(lines@),
            chars.len() == g.len(),
            forall|k: int| 0 <= k < chars.len() ==> (#[trigger] chars@[k])@ == g[k],
            groups_view(stuff@) == cols_fold(g, i as int).0,
            curr@ == cols_fold(g, i as int).1,
            sum == cols_fold(g, i as int).2,
        decreases width - i,
    {
        assert(col_ok(g, i as int));
        let mut string: Vec<char> = Vec::new();
        let mut row: usize = 0;
        let mut found = false;
        let ghost st = cols_fold(g, i as int);
        let ghost k = op_row(g, i as int, 0);
        while row < chars.len() && !found
            invariant
                row <= chars.len(),
                i < width,
                chars.len() == g.len(),
                forall|t: int| 0 <= t < chars.len() ==> (#[trigger] chars@[t])@ == g[t],
                col_ok(g, i as int),
                k == op_row(g, i as int, 0),
                forall|t: int| 0 <= t < row ==> !is_op(#[trigger] g[t][i as int]),
                string@ == Seq::new(row as nat, |t: int| g[t][i as int]),
                !found ==> groups_view(stuff@) == st.0 && curr@ == st.1 && sum == st.2,
                found ==> row == k && k < g.len() && groups_view(stuff@) == st.0.push((st.1, st.2))
                    && curr@ == Seq::<i64>::empty() && sum == (g[k][i as int] == '+'),
            decreases chars.len() - row, (if found {
                0int
            } else {
                1
            }),
        {
            proof {
                lemma_op_row(g, i as int, row as int);
            }
            assert(chars@[row as int]@ == g[row as int]);
            assert(i < g[row as int].len());
            let ch = chars[row][i];
            if ch == '*' || ch == '+' {
                let ghost before = stuff@;
                let c = curr;
                stuff.push((c, sum));
                proof {
                    assert(groups_view(stuff@) =~= groups_view(before).push((st.1, st.2)));
                }
                sum = ch == '+';
                curr = Vec::new();
                found = true;
                proof {
                    assert(op_row(g, i as int, row as int) == row);
                }
            } else {
                string.push(ch);
                row += 1;
                assert(string@ =~= Seq::new(row as nat, |t: int| g[t][i as int]));
            }
        }
        proof {
            if !found {
                lemma_op_row(g, i as int, row as int);
            }
            assert(string@ =~= col_text(g, i as int));
        }
        let t = trim_chars(string.as_slice());
        match parse_i64(t.as_slice()) {
            Some(num) => {
                curr.push(num);
            },
            None => {},
        }
        i += 1;
    }
    let ghost st = cols_fold(g, width as int);
    let ghost before = stuff@;
    stuff.push((curr, sum));
    let ghost ps = problems(g);
    assert(groups_view(stuff@) =~= groups_view(before).push((st.1, st.2)));
    assert(groups_view(stuff@) == ps);
    let mut result: i64 = 0;
    let mut q: usize = 0;
    while q < stuff.len()
        invariant
            q <= stuff.len(),
            groups_view(stuff@) == ps,
            ps == problems(g),
            g == char_rows(lines@),
            two_ok(lines@),
            result == problems_total(ps, q as int),
        decreases stuff.len() - q,
    {
        assert(ps[q as int] == (stuff@[q as int].0@, stuff@[q as int].1));
        let v = if stuff[q].1 {
            sum_of(stuff[q].0.as_slice())
        } else {
            product_of(stuff[q].0.as_slice())
        };
        assert(i64::MIN <= problems_total(ps, q + 1) <= i64::MAX);
        result = result + v;
        q += 1;
    }
    result
}

} // verus!
