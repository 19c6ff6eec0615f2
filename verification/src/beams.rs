//! A tachyon manifold: beams (`|`) go down the rows; a splitter (`^`) under a beam
//! stops it and starts beams to its left and right. Besides the number of splits, the
//! walk counts the timelines: how many ways there are to reach each column.
use vstd::prelude::*;
use crate::text::{chars_of, replace_all, replace_char};

verus! {

/// A row as the input shows it, with the start `S` written as a beam `|`.
pub fn beam_row(line: &str) -> (r: Vec<char>)
    ensures
        r@ == replace_all(line@, 'S', '|'),
{
    let cs = chars_of(line);
    replace_char(cs.as_slice(), 'S', '|')
}

pub open spec fn beam(curr: Seq<char>, i: int) -> bool {
    0 <= i < curr.len() && curr[i] == '|'
}

/// A beam of `curr` meets a splitter of `line` in column `i`.
pub open spec fn hit(curr: Seq<char>, line: Seq<char>, i: int) -> bool {
    beam(curr, i) && i < line.len() && line[i] == '^'
}

/// A beam of `curr` goes on straight through column `i` of `line`.
pub open spec fn through(curr: Seq<char>, line: Seq<char>, i: int) -> bool {
    beam(curr, i) && !hit(curr, line, i) && i < line.len()
}

/// The row `line` with the beams that reach it drawn in.
pub open spec fn next_row(curr: Seq<char>, line: Seq<char>) -> Seq<char> {
    Seq::new(
        line.len(),
        |k: int|
            if hit(curr, line, k - 1) || hit(curr, line, k + 1) || through(curr, line, k) {
                '|'
            } else {
                line[k]
            },
    )
}

/// How many timelines reach each column of `line`: a split sends its column's count both
/// ways, a beam going straight keeps it.
pub open spec fn next_count(curr: Seq<char>, line: Seq<char>, count: Seq<int>) -> Seq<int> {
    Seq::new(
        count.len(),
        |k: int|
            (if k < line.len() && hit(curr, line, k - 1) && k - 1 < count.len() {
                count[k - 1]
            } else {
                0
            }) + (if hit(curr, line, k + 1) && k + 1 < count.len() {
                count[k + 1]
            } else {
                0
            }) + (if through(curr, line, k) {
                count[k]
            } else {
                0
            }),
    )
}

/// The splitters of `line` that a beam of `curr` meets, among the first `b` columns.
pub open spec fn hits_before(curr: Seq<char>, line: Seq<char>, b: int) -> nat
    decreases b,
{
    if b <= 0 {
        0
    } else {
        hits_before(curr, line, b - 1) + if hit(curr, line, b - 1) {
            1nat
        } else {
            0nat
        }
    }
}

/// A row the walk handles without a panic: no split in column `0`, and every count it
/// reads or writes exists.
pub open spec fn step_ok(curr: Seq<char>, line: Seq<char>, count: Seq<int>) -> bool {
    &&& forall|i: int|
        #[trigger] hit(curr, line, i) ==> 1 <= i < count.len() && (i + 1 < line.len() ==> i + 1
            < count.len())
    &&& forall|i: int| #[trigger] through(curr, line, i) ==> i < count.len()
}

pub open spec fn initial_count(first: Seq<char>) -> Seq<int> {
    Seq::new(first.len(), |i: int| if first[i] == '|' {
        1int
    } else {
        0
    })
}

/// The walk's state after the first `r` rows: the last beam row, the timeline counts,
/// and the splits so far. Of the rows after the first, every second one is handled.
pub open spec fn beam_state(rows: Seq<Seq<char>>, r: int) -> (Seq<char>, Seq<int>, int)
    decreases r,
{
    if r <= 1 {
        (rows[0], initial_count(rows[0]), 0)
    } else {
        let st = beam_state(rows, r - 1);
        let line = rows[r - 1];
        if (r - 2) % 2 == 1 {
            (next_row(st.0, line), next_count(st.0, line, st.1), st.2 + hits_before(
                st.0,
                line,
                line.len() as int,
            ))
        } else {
            st
        }
    }
}

pub open spec fn int_sum(s: Seq<int>) -> int
    decreases s.len(),
{
    if s.len() == 0 {
        0
    } else {
        int_sum(s.drop_last()) + s.last()
    }
}

/// The walk runs without a panic or an overflow.
pub open spec fn one_ok(rows: Seq<Seq<char>>) -> bool {
    &&& rows.len() >= 1
    &&& forall|r: int|
        2 <= r <= rows.len() && (r - 2) % 2 == 1 ==> {
            let st = #[trigger] beam_state(rows, r - 1);
            &&& step_ok(st.0, rows[r - 1], st.1)
            &&& forall|k: int|
                0 <= k < st.1.len() ==> #[trigger] next_count(st.0, rows[r - 1], st.1)[k] <= i64::MAX
            &&& st.2 + hits_before(st.0, rows[r - 1], rows[r - 1].len() as int) <= i32::MAX
        }
    &&& int_sum(beam_state(rows, rows.len() as int).1) <= i64::MAX
}

/// What the walk returns: the splits, and the timelines at the bottom.
pub open spec fn one_spec(rows: Seq<Seq<char>>) -> (int, int) {
    let st = beam_state(rows, rows.len() as int);
    (st.2, int_sum(st.1))
}

pub open spec fn rows_of(chars: Seq<Vec<char>>) -> Seq<Seq<char>> {
    Seq::new(chars.len(), |j: int| chars[j]@)
}

pub open spec fn counts_of(v: Seq<i64>) -> Seq<int> {
    Seq::new(v.len(), |i: int| v[i] as int)
}

pub open spec fn all_nonneg(s: Seq<int>) -> bool {
    forall|k: int| 0 <= k < s.len() ==> #[trigger] s[k] >= 0
}

proof fn lemma_state_nonneg(rows: Seq<Seq<char>>, r: int)
    requires
        rows.len() >= 1,
    ensures
        all_nonneg(beam_state(rows, r).1),
        beam_state(rows, r).1.len() == rows[0].len(),
        beam_state(rows, r).2 >= 0,
    decreases r,
{
    if r > 1 {
        lemma_state_nonneg(rows, r - 1);
    }
}

pub open spec fn row_part1(curr: Seq<char>, line: Seq<char>, b: int) -> Seq<char> {
    Seq::new(
        line.len(),
        |k: int|
            if (hit(curr, line, k - 1) && k - 1 < b) || (hit(curr, line, k + 1) && k + 1 < b) {
                '|'
            } else {
                line[k]
            },
    )
}

pub open spec fn count_part1(curr: Seq<char>, line: Seq<char>, count: Seq<int>, b: int) -> Seq<int> {
    Seq::new(
        count.len(),
        |k: int|
            (if k < line.len() && hit(curr, line, k - 1) && k - 1 < count.len() && k - 1 < b {
                count[k - 1]
            } else {
                0
            }) + (if hit(curr, line, k + 1) && k + 1 < count.len() && k + 1 < b {
                count[k + 1]
            } else {
                0
            }),
    )
}

pub open spec fn row_part2(curr: Seq<char>, line: Seq<char>, b: int) -> Seq<char> {
    Seq::new(
        line.len(),
        |k: int|
            if hit(curr, line, k - 1) || hit(curr, line, k + 1) || (through(curr, line, k) && k < b) {
                '|'
            } else {
                line[k]
            },
    )
}

pub open spec fn count_part2(curr: Seq<char>, line: Seq<char>, count: Seq<int>, b: int) -> Seq<int> {
    Seq::new(
        count.len(),
        |k: int|
            (if k < line.len() && hit(curr, line, k - 1) && k - 1 < count.len() {
                count[k - 1]
            } else {
                0
            }) + (if hit(curr, line, k + 1) && k + 1 < count.len() {
                count[k + 1]
            } else {
                0
            }) + (if through(curr, line, k) && k < b {
                count[k]
            } else {
                0
            }),
    )
}

/// One handled row: draws the beams into `line`, moves the timeline counts, and
/// counts the splits.
fn step(curr: &Vec<char>, line: &Vec<char>, count: &Vec<i64>) -> (r: (Vec<char>, Vec<i64>, usize))
    requires
        step_ok(curr@, line@, counts_of(count@)),
        all_nonneg(counts_of(count@)),
        forall|k: int|
            0 <= k < count.len() ==> #[trigger] next_count(curr@, line@, counts_of(count@))[k]
                <= i64::MAX,
    ensures
        r.0@ == next_row(curr@, line@),
        counts_of(r.1@) == next_count(curr@, line@, counts_of(count@)),
        r.2 == hits_before(curr@, line@, line@.len() as int),
{
    let ghost c = counts_of(count@);
    let n = line.len();
    let mut tmp: Vec<char> = vstd::slice::slice_to_vec(line.as_slice());
    let mut ct: Vec<i64> = Vec::new();
    let mut z: usize = 0;
    while z < count.len()
        invariant
            z <= count.len(),
            ct.len() == z,
            forall|k: int| 0 <= k < z ==> ct@[k] == 0,
        decreases count.len() - z,
    {
        ct.push(0);
        z += 1;
    }
    assert(ct.len() == count.len());
    assert(tmp@ =~= row_part1(curr@, line@, 0));
    assert(counts_of(ct@) =~= count_part1(curr@, line@, c, 0));
    let mut hits: usize = 0;
    let mut i: usize = 0;
    while i < n
        invariant
            i <= n,
            n == line@.len(),
            c == counts_of(count@),
            step_ok(curr@, line@, c),
            all_nonneg(c),
            forall|k: int| 0 <= k < count.len() ==> #[trigger] next_count(curr@, line@, c)[k] <= i64::MAX,
            tmp@ == row_part1(curr@, line@, i as int),
            counts_of(ct@) == count_part1(curr@, line@, c, i as int),
            ct.len() == count.len(),
            tmp.len() == n,
            hits == hits_before(curr@, line@, i as int),
            hits <= i,
        decreases n - i,
    {
        assert(ct.len() == count.len());
        if i < curr.len() && curr[i] == '|' && line[i] == '^' {
            assert(hit(curr@, line@, i as int));
            assert(1 <= i < count.len());
            assert(ct@[i - 1] == count_part1(curr@, line@, c, i as int)[i - 1]);
            assert(c[i as int] >= 0);
            let ghost ct0 = ct@;
            let ghost tmp0 = tmp@;
            tmp[i - 1] = '|';
            assert(next_count(curr@, line@, c)[i - 1] <= i64::MAX);
            ct[i - 1] = ct[i - 1] + count[i];
            if i + 1 < n {
                assert(i + 1 < count.len());
                assert(ct@[i + 1] == count_part1(curr@, line@, c, i as int)[i + 1]);
                tmp[i + 1] = '|';
                assert(next_count(curr@, line@, c)[i + 1] <= i64::MAX);
                ct[i + 1] = ct[i + 1] + count[i];
            }
            hits += 1;
            proof {
                assert(tmp@ =~= row_part1(curr@, line@, i + 1));
                let cp = count_part1(curr@, line@, c, i + 1);
                let cp0 = count_part1(curr@, line@, c, i as int);
                assert forall|k: int| 0 <= k < count.len() implies #[trigger] counts_of(ct@)[k] == cp[k] by {
                    if k != i - 1 && k != i + 1 {
                        assert(ct@[k] == ct0[k]);
                        assert(counts_of(ct0)[k] == cp0[k]);
                    } else if k == i + 1 && i + 1 >= n {
                        assert(ct@[k] == ct0[k]);
                        assert(counts_of(ct0)[k] == cp0[k]);
                    }
                }
                assert(counts_of(ct@) =~= cp);
            }
        } else {
            assert(!hit(curr@, line@, i as int));
            assert(tmp@ =~= row_part1(curr@, line@, i + 1));
            assert(counts_of(ct@) =~= count_part1(curr@, line@, c, i + 1));
        }
        i += 1;
    }
    assert(tmp@ =~= row_part2(curr@, line@, 0));
    assert(counts_of(ct@) =~= count_part2(curr@, line@, c, 0));
    let mut i: usize = 0;
    while i < n
        invariant
            i <= n,
            n == line@.len(),
            c == counts_of(count@),
            step_ok(curr@, line@, c),
            all_nonneg(c),
            forall|k: int| 0 <= k < count.len() ==> #[trigger] next_count(curr@, line@, c)[k] <= i64::MAX,
            tmp@ == row_part2(curr@, line@, i as int),
            counts_of(ct@) == count_part2(curr@, line@, c, i as int),
            ct.len() == count.len(),
            tmp.len() == n,
        decreases n - i,
    {
        assert(ct.len() == count.len());
        let ghost ct0 = ct@;
        if i < curr.len() && curr[i] == '|' && line[i] != '^' {
            assert(through(curr@, line@, i as int));
            assert(i < count.len());
            assert(ct@[i as int] == count_part2(curr@, line@, c, i as int)[i as int]);
            assert(c[i as int] >= 0);
            tmp[i] = '|';
            assert(next_count(curr@, line@, c)[i as int] <= i64::MAX);
            ct[i] = ct[i] + count[i];
        } else {
            assert(!through(curr@, line@, i as int));
        }
        assert(tmp@ =~= row_part2(curr@, line@, i + 1));
        proof {
            let cp = count_part2(curr@, line@, c, i + 1);
            let cp0 = count_part2(curr@, line@, c, i as int);
            assert forall|k: int| 0 <= k < count.len() implies #[trigger] counts_of(ct@)[k] == cp[k] by {
                if k != i {
                    assert(ct@[k] == ct0[k]);
                    assert(counts_of(ct0)[k] == cp0[k]);
                } else {
                    assert(counts_of(ct0)[k] == cp0[k]);
                }
            }
            assert(counts_of(ct@) =~= cp);
        }
        i += 1;
    }
    assert(tmp@ =~= next_row(curr@, line@));
    assert(counts_of(ct@) =~= next_count(curr@, line@, c));
    (tmp, ct, hits)
}

proof fn lemma_int_sum_take(s: Seq<int>, k: int)
    requires
        0 <= k < s.len(),
    ensures
        int_sum(s.take(k + 1)) == int_sum(s.take(k)) + s[k],
{
    assert(s.take(k + 1).drop_last() =~= s.take(k));
}

proof fn lemma_int_sum_prefix(s: Seq<int>, k: int)
    requires
        0 <= k <= s.len(),
        all_nonneg(s),
    ensures
        0 <= int_sum(s.take(k)) <= int_sum(s),
    decreases s.len() - k,
{
    if k < s.len() {
        lemma_int_sum_prefix(s, k + 1);
        lemma_int_sum_take(s, k);
        let p = s.take(k);
        assert(all_nonneg(p)) by {
            assert forall|j: int| 0 <= j < p.len() implies #[trigger] p[j] >= 0 by {
                assert(p[j] == s[j]);
            }
        }
        lemma_int_sum_nonneg(p);
    } else {
        assert(s.take(k) =~= s);
        lemma_int_sum_nonneg(s);
    }
}

proof fn lemma_int_sum_nonneg(s: Seq<int>)
    requires
        all_nonneg(s),
    ensures
        int_sum(s) >= 0,
    decreases s.len(),
{
    if s.len() > 0 {
        let d = s.drop_last();
        assert(all_nonneg(d)) by {
            assert forall|k: int| 0 <= k < d.len() implies #[trigger] d[k] >= 0 by {
                assert(d[k] == s[k]);
            }
        }
        lemma_int_sum_nonneg(d);
        assert(s[s.len() - 1] >= 0);
    }
}

/// Sends the beams down the manifold: returns the number of splits and the number of
/// timelines at the bottom.
pub fn one(chars: Vec<Vec<char>>) -> (r: (i32, i64))
    requires
        one_ok(rows_of(chars@)),
    ensures
        (r.0 as int, r.1 as int) == one_spec(rows_of(chars@)),
{
    let ghost rows = rows_of(chars@);
    assert(rows[0] == chars@[0]@);
    let mut curr: Vec<char> = vstd::slice::slice_to_vec(chars[0].as_slice());
    let mut count: Vec<i64> = Vec::new();
    let mut z: usize = 0;
    while z < curr.len()
        invariant
            z <= curr@.len(),
            rows[0] == curr@,
            counts_of(count@) == initial_count(rows[0]).take(z as int),
            count.len() == z,
        decreases curr@.len() - z,
    {
        let v: i64 = if curr[z] == '|' {
            1
        } else {
            0
        };
        assert(v == initial_count(rows[0])[z as int]);
        count.push(v);
        z += 1;
        assert(counts_of(count@) =~= initial_count(rows[0]).take(z as int)) by {
            assert forall|j: int| 0 <= j < z implies #[trigger] counts_of(count@)[j] == initial_count(
                rows[0],
            ).take(z as int)[j] by {
                if j < z - 1 {
                    assert(counts_of(count@)[j] == initial_count(rows[0]).take(z - 1)[j]);
                }
            }
        }
    }
    assert(initial_count(rows[0]).take(z as int) =~= initial_count(rows[0]));
    let mut result: i32 = 0;
    let mut t: usize = 1;
    while t < chars.len()
        invariant
            1 <= t <= chars.len(),
            rows == rows_of(chars@),
            one_ok(rows),
            curr@ == beam_state(rows, t as int).0,
            counts_of(count@) == beam_state(rows, t as int).1,
            result == beam_state(rows, t as int).2,
        decreases chars.len() - t,
    {
        proof {
            lemma_state_nonneg(rows, t as int);
        }
        if (t - 1) % 2 == 1 {
            let ghost st = beam_state(rows, t as int);
            assert(rows[t as int] == chars@[t as int]@);
            assert(2 <= t + 1 <= rows.len() && ((t + 1) - 2) % 2 == 1);
            assert(beam_state(rows, (t + 1) - 1) == st);
            let (nr, nc, hits) = step(&curr, &chars[t], &count);
            assert(st.2 + hits_before(st.0, rows[t as int], rows[t as int].len() as int) <= i32::MAX);
            result = result + hits as i32;
            curr = nr;
            count = nc;
        }
        t += 1;
    }
    proof {
        lemma_state_nonneg(rows, t as int);
    }
    let ghost cs = counts_of(count@);
    let mut sum: i64 = 0;
    let mut k: usize = 0;
    while k < count.len()
        invariant
            k <= count.len(),
            cs == counts_of(count@),
            all_nonneg(cs),
            int_sum(cs) <= i64::MAX,
            sum == int_sum(cs.take(k as int)),
        decreases count.len() - k,
    {
        proof {
            lemma_int_sum_take(cs, k as int);
            lemma_int_sum_prefix(cs, k + 1);
        }
        sum = sum + count[k];
        k += 1;
    }
    assert(cs.take(count.len() as int) =~= cs);
    (result, sum)
}

} // verus!
