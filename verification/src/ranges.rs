//! Inclusive id ranges: reading them, counting the ids that fall in some range,
//! and counting the ids the ranges cover together once overlapping ranges are merged.
use vstd::prelude::*;
use vstd::slice::slice_subrange;
use vstd::set_lib::{set_int_range, lemma_int_range};
use crate::decimal::{parse_in, parse_i64};
use crate::text::chars_of;

verus! {

/// One line of the input: a range `a-b`, a single id, or anything else.
#[derive(PartialEq, Eq, Debug, Clone, Copy)]
pub enum Entry {
    Range(i64, i64),
    Id(i64),
    Skip,
}

/// The first index at or after `from` that holds `c`, or `s.len()` if there is none.
pub open spec fn first_of(s: Seq<char>, c: char, from: int) -> int
    decreases s.len() - from,
{
    if from >= s.len() {
        s.len() as int
    } else if s[from] == c {
        from
    } else {
        first_of(s, c, from + 1)
    }
}

pub open spec fn parse_i64_spec(s: Seq<char>) -> Option<int> {
    parse_in(s, i64::MIN as int, i64::MAX as int)
}

/// What a line says: split at its first `-` into two `i64`s, or, with no `-`, one `i64`.
pub open spec fn entry_of(s: Seq<char>) -> Entry {
    let k = first_of(s, '-', 0);
    if k < s.len() {
        match (parse_i64_spec(s.take(k)), parse_i64_spec(s.skip(k + 1))) {
            (Some(a), Some(b)) => Entry::Range(a as i64, b as i64),
            _ => Entry::Skip,
        }
    } else {
        match parse_i64_spec(s) {
            Some(v) => Entry::Id(v as i64),
            None => Entry::Skip,
        }
    }
}

proof fn lemma_first_of(s: Seq<char>, c: char, from: int)
    requires
        0 <= from <= s.len(),
    ensures
        from <= first_of(s, c, from) <= s.len(),
        first_of(s, c, from) < s.len() ==> s[first_of(s, c, from)] == c,
        forall|i: int| from <= i < first_of(s, c, from) ==> s[i] != c,
    decreases s.len() - from,
{
    if from < s.len() && s[from] != c {
        lemma_first_of(s, c, from + 1);
    }
}

/// Reads one line of the input.
pub fn parse_line(line: &str) -> (r: Entry)
    ensures
        r == entry_of(line@),
{
    let cs = chars_of(line);
    let n = cs.len();
    let mut k: usize = 0;
    while k < n && cs[k] != '-'
        invariant
            k <= n,
            n == cs@.len(),
            forall|i: int| 0 <= i < k ==> cs@[i] != '-',
        decreases n - k,
    {
        k += 1;
    }
    proof {
        lemma_first_of(cs@, '-', 0);
        let f = first_of(cs@, '-', 0);
        if f < k {
            assert(cs@[f] == '-');
        }
        if k < f {
            assert(cs@[k as int] != '-');
        }
        assert(f == k);
    }
    if k < n {
        let a = parse_i64(slice_subrange(cs.as_slice(), 0, k));
        let b = parse_i64(slice_subrange(cs.as_slice(), k + 1, n));
        proof {
            assert(cs@.subrange(0, k as int) =~= cs@.take(k as int));
            assert(cs@.subrange(k + 1, n as int) =~= cs@.skip(k + 1));
        }
        match (a, b) {
            (Some(x), Some(y)) => Entry::Range(x, y),
            _ => Entry::Skip,
        }
    } else {
        match parse_i64(cs.as_slice()) {
            Some(v) => Entry::Id(v),
            None => Entry::Skip,
        }
    }
}

/// Whether `x` lies in the inclusive range `r`.
pub open spec fn in_range(r: (i64, i64), x: int) -> bool {
    r.0 <= x && x <= r.1
}

/// Whether some range of `ranges` holds `x`.
pub open spec fn covered(ranges: Seq<(i64, i64)>, x: int) -> bool {
    exists|j: int| 0 <= j < ranges.len() && #[trigger] in_range(ranges[j], x)
}

/// How many entries of `ids` lie in some range (an id listed twice counts twice).
pub open spec fn fresh_count(ranges: Seq<(i64, i64)>, ids: Seq<i64>) -> nat
    decreases ids.len(),
{
    if ids.len() == 0 {
        0
    } else {
        fresh_count(ranges, ids.drop_last()) + if covered(ranges, ids.last() as int) {
            1nat
        } else {
            0nat
        }
    }
}

proof fn lemma_fresh_count_prefix(ranges: Seq<(i64, i64)>, ids: Seq<i64>, k: int)
    requires
        0 <= k <= ids.len(),
    ensures
        fresh_count(ranges, ids.take(k)) <= fresh_count(ranges, ids),
    decreases ids.len() - k,
{
    if k < ids.len() {
        lemma_fresh_count_prefix(ranges, ids, k + 1);
        assert(ids.take(k + 1).drop_last() =~= ids.take(k));
    } else {
        assert(ids.take(k) =~= ids);
    }
}

/// `one` counts, among the listed ids (each listing once), those `x` for which some
/// range `(a, b)` of the list has `a <= x <= b`: both ends of a range are fresh.
pub proof fn one_counts_ids_between_range_ends(ranges: Seq<(i64, i64)>, ids: Seq<i64>)
    ensures
        fresh_count(ranges, ids) == ids.filter(
            |x: i64| exists|j: int| 0 <= j < ranges.len() && (#[trigger] ranges[j]).0 <= x && x <= ranges[j].1,
        ).len(),
    decreases ids.len(),
{
    reveal(Seq::filter);
    let f = |x: i64| exists|j: int| 0 <= j < ranges.len() && (#[trigger] ranges[j]).0 <= x && x <= ranges[j].1;
    if ids.len() > 0 {
        one_counts_ids_between_range_ends(ranges, ids.drop_last());
        let x = ids.last();
        if covered(ranges, x as int) {
            let j = choose|j: int| 0 <= j < ranges.len() && #[trigger] in_range(ranges[j], x as int);
            assert(ranges[j].0 <= x && x <= ranges[j].1);
            assert(f(x));
        } else {
            assert(!f(x)) by {
                if f(x) {
                    let j = choose|j: int| 0 <= j < ranges.len() && (#[trigger] ranges[j]).0 <= x && x <= ranges[j].1;
                    assert(in_range(ranges[j], x as int));
                }
            }
        }
    }
}

/// One more id adds one to the count exactly when it lies between the two ends (both
/// included) of some range; the ids already counted stay counted.
pub proof fn one_counts_each_id_in_a_range(ranges: Seq<(i64, i64)>, ids: Seq<i64>, x: i64)
    ensures
        fresh_count(ranges, Seq::<i64>::empty()) == 0,
        fresh_count(ranges, ids.push(x)) == fresh_count(ranges, ids) + if exists|j: int|
            0 <= j < ranges.len() && (#[trigger] ranges[j]).0 <= x && x <= ranges[j].1 {
            1int
        } else {
            0int
        },
{
    assert(ids.push(x).drop_last() =~= ids);
    if exists|j: int| 0 <= j < ranges.len() && (#[trigger] ranges[j]).0 <= x && x <= ranges[j].1 {
        let j = choose|j: int| 0 <= j < ranges.len() && (#[trigger] ranges[j]).0 <= x && x <= ranges[j].1;
        assert(in_range(ranges[j], x as int));
    } else {
        if covered(ranges, x as int) {
            let j = choose|j: int| 0 <= j < ranges.len() && #[trigger] in_range(ranges[j], x as int);
            assert(ranges[j].0 <= x && x <= ranges[j].1);
        }
    }
}

/// Counts the ids that lie in at least one of the ranges.
pub fn one(ranges: &Vec<(i64, i64)>, ids: &Vec<i64>) -> (r: i32)
    requires
        fresh_count(ranges@, ids@) <= i32::MAX,
    ensures
        r == fresh_count(ranges@, ids@),
{
    let mut result: i32 = 0;
    let mut i: usize = 0;
    while i < ids.len()
        invariant
            i <= ids.len(),
            result == fresh_count(ranges@, ids@.take(i as int)),
            fresh_count(ranges@, ids@) <= i32::MAX,
        decreases ids.len() - i,
    {
        let id = ids[i];
        let mut j: usize = 0;
        let mut found = false;
        while j < ranges.len() && !found
            invariant
                j <= ranges.len(),
                found ==> covered(ranges@, id as int),
                !found ==> forall|t: int| 0 <= t < j ==> !in_range(#[trigger] ranges@[t], id as int),
            decreases ranges.len() - j,
        {
            let r = ranges[j];
            if id >= r.0 && id <= r.1 {
                assert(in_range(ranges@[j as int], id as int));
                found = true;
            }
            j += 1;
        }
        proof {
            assert(ids@.take(i + 1).drop_last() =~= ids@.take(i as int));
            lemma_fresh_count_prefix(ranges@, ids@, i + 1);
        }
        if found {
            result += 1;
        }
        i += 1;
    }
    assert(ids@.take(ids.len() as int) =~= ids@);
    result
}

/// Inserts `x` after every element whose start is at most `x`'s start.
pub open spec fn insert_by_start(sorted: Seq<(i64, i64)>, x: (i64, i64)) -> Seq<(i64, i64)>
    decreases sorted.len(),
{
    if sorted.len() == 0 {
        seq![x]
    } else if sorted.last().0 <= x.0 {
        sorted.push(x)
    } else {
        insert_by_start(sorted.drop_last(), x).push(sorted.last())
    }
}

/// The ranges ordered by start; ranges with equal starts keep their order (a stable sort).
pub open spec fn sort_by_start(s: Seq<(i64, i64)>) -> Seq<(i64, i64)>
    decreases s.len(),
{
    if s.len() == 0 {
        s
    } else {
        insert_by_start(sort_by_start(s.drop_last()), s.last())
    }
}

proof fn lemma_insert_at(s: Seq<(i64, i64)>, x: (i64, i64), j: int)
    requires
        0 <= j <= s.len(),
        j > 0 ==> s[j - 1].0 <= x.0,
        forall|k: int| j <= k < s.len() ==> #[trigger] s[k].0 > x.0,
    ensures
        insert_by_start(s, x) == s.insert(j, x),
    decreases s.len(),
{
    if s.len() == 0 {
        assert(s.insert(j, x) =~= seq![x]);
    } else if j == s.len() {
        assert(s.insert(j, x) =~= s.push(x));
    } else {
        let d = s.drop_last();
        assert(s[s.len() - 1].0 > x.0);
        lemma_insert_at(d, x, j);
        assert(d.insert(j, x).push(s.last()) =~= s.insert(j, x));
    }
}

/// Sorts the ranges by start, keeping ranges with equal starts in their order.
pub fn sort_ranges(v: &Vec<(i64, i64)>) -> (r: Vec<(i64, i64)>)
    ensures
        r@ == sort_by_start(v@),
{
    let mut out: Vec<(i64, i64)> = Vec::new();
    let mut i: usize = 0;
    while i < v.len()
        invariant
            i <= v.len(),
            out@ == sort_by_start(v@.take(i as int)),
        decreases v.len() - i,
    {
        let x = v[i];
        let mut j: usize = out.len();
        while j > 0 && out[j - 1].0 > x.0
            invariant
                j <= out.len(),
                forall|k: int| j <= k < out.len() ==> #[trigger] out@[k].0 > x.0,
            decreases j,
        {
            j -= 1;
        }
        proof {
            lemma_insert_at(out@, x, j as int);
            assert(v@.take(i + 1).drop_last() =~= v@.take(i as int));
            assert(v@.take(i + 1).last() == x);
        }
        out.insert(j, x);
        i += 1;
    }
    assert(v@.take(v.len() as int) =~= v@);
    out
}

pub open spec fn min_i64(a: i64, b: i64) -> i64 {
    if a <= b {
        a
    } else {
        b
    }
}

pub open spec fn max_i64(a: i64, b: i64) -> i64 {
    if a >= b {
        a
    } else {
        b
    }
}

/// Walks `rest` in order from the range `cur`: a range that overlaps the current one
/// widens it, any other closes the current one and becomes the new current range.
pub open spec fn merge_from(cur: (i64, i64), rest: Seq<(i64, i64)>) -> Seq<(i64, i64)>
    decreases rest.len(),
{
    if rest.len() == 0 {
        seq![cur]
    } else {
        let r = rest[0];
        if r.0 <= cur.1 && r.1 >= cur.0 {
            merge_from((min_i64(cur.0, r.0), max_i64(cur.1, r.1)), rest.drop_first())
        } else {
            seq![cur] + merge_from(r, rest.drop_first())
        }
    }
}

/// The merged ranges of a non-empty list: sorted by start, then merged in one pass.
pub open spec fn merged_of(s: Seq<(i64, i64)>) -> Seq<(i64, i64)> {
    let t = sort_by_start(s);
    merge_from(t[0], t.drop_first())
}

/// The sum of the sizes `hi - lo + 1` of the ranges.
pub open spec fn span_sum(ms: Seq<(i64, i64)>) -> int
    decreases ms.len(),
{
    if ms.len() == 0 {
        0
    } else {
        span_sum(ms.drop_last()) + (ms.last().1 - ms.last().0 + 1)
    }
}

/// Adding up the sizes of `ms` in `i64` does not overflow at any step.
pub open spec fn spans_fit(ms: Seq<(i64, i64)>) -> bool {
    forall|k: int|
        0 <= k < ms.len() ==> {
            &&& i64::MIN <= #[trigger] ms[k].1 - ms[k].0 <= i64::MAX
            &&& i64::MIN <= ms[k].1 - ms[k].0 + 1 <= i64::MAX
            &&& i64::MIN <= span_sum(ms.take(k + 1)) <= i64::MAX
        }
}

proof fn lemma_insert_len(sorted: Seq<(i64, i64)>, x: (i64, i64))
    ensures
        insert_by_start(sorted, x).len() == sorted.len() + 1,
    decreases sorted.len(),
{
    if sorted.len() > 0 && sorted.last().0 > x.0 {
        lemma_insert_len(sorted.drop_last(), x);
    }
}

proof fn lemma_sort_len(s: Seq<(i64, i64)>)
    ensures
        sort_by_start(s).len() == s.len(),
    decreases s.len(),
{
    if s.len() > 0 {
        lemma_sort_len(s.drop_last());
        lemma_insert_len(sort_by_start(s.drop_last()), s.last());
    }
}

proof fn lemma_span_sum_take(ms: Seq<(i64, i64)>, k: int)
    requires
        0 <= k < ms.len(),
    ensures
        span_sum(ms.take(k + 1)) == span_sum(ms.take(k)) + (ms[k].1 - ms[k].0 + 1),
{
    assert(ms.take(k + 1).drop_last() =~= ms.take(k));
}

/// How many ids the ranges cover together: sort by start, merge overlapping
/// neighbours, and add up the sizes of the merged ranges.
pub fn two(ranges: Vec<(i64, i64)>) -> (r: i64)
    requires
        ranges.len() > 0,
        spans_fit(merged_of(ranges@)),
    ensures
        r == span_sum(merged_of(ranges@)),
{
    let merged = merge_ranges(&ranges);
    let mut result: i64 = 0;
    let mut k: usize = 0;
    while k < merged.len()
        invariant
            k <= merged.len(),
            spans_fit(merged@),
            result == span_sum(merged@.take(k as int)),
        decreases merged.len() - k,
    {
        let m = merged[k];
        proof {
            lemma_span_sum_take(merged@, k as int);
            assert(i64::MIN <= merged@[k as int].1 - merged@[k as int].0 <= i64::MAX);
        }
        result += m.1 - m.0 + 1;
        k += 1;
    }
    assert(merged@.take(merged.len() as int) =~= merged@);
    result
}

/// `two`, where it runs: `None` exactly where adding up the merged sizes would
/// overflow an `i64` (or there are no ranges).
pub fn two_checked(ranges: Vec<(i64, i64)>) -> (r: Option<i64>)
    ensures
        r is Some <==> ranges.len() > 0 && spans_fit(merged_of(ranges@)),
        r matches Some(v) ==> v == span_sum(merged_of(ranges@)),
{
    if ranges.len() == 0 {
        return None;
    }
    let merged = merge_ranges(&ranges);
    let mut result: i64 = 0;
    let mut k: usize = 0;
    while k < merged.len()
        invariant
            k <= merged.len(),
            merged@ == merged_of(ranges@),
            forall|j: int| 0 <= j < k ==> {
                &&& i64::MIN <= #[trigger] merged@[j].1 - merged@[j].0 <= i64::MAX
                &&& i64::MIN <= merged@[j].1 - merged@[j].0 + 1 <= i64::MAX
                &&& i64::MIN <= span_sum(merged@.take(j + 1)) <= i64::MAX
            },
            result == span_sum(merged@.take(k as int)),
        decreases merged.len() - k,
    {
        let m = merged[k];
        proof {
            lemma_span_sum_take(merged@, k as int);
        }
        let d = match m.1.checked_sub(m.0) {
            Some(d) => d,
            None => {
                proof {
                    if spans_fit(merged@) {
                        assert(i64::MIN <= merged@[k as int].1 - merged@[k as int].0 <= i64::MAX);
                        assert(i64::MIN <= merged@[k as int].1 - merged@[k as int].0 + 1 <= i64::MAX);
                        assert(i64::MIN <= span_sum(merged@.take(k + 1)) <= i64::MAX);
                    }
                }
                return None;
            },
        };
        let e = match d.checked_add(1) {
            Some(e) => e,
            None => {
                proof {
                    if spans_fit(merged@) {
                        assert(i64::MIN <= merged@[k as int].1 - merged@[k as int].0 <= i64::MAX);
                        assert(i64::MIN <= merged@[k as int].1 - merged@[k as int].0 + 1 <= i64::MAX);
                        assert(i64::MIN <= span_sum(merged@.take(k + 1)) <= i64::MAX);
                    }
                }
                return None;
            },
        };
        result = match result.checked_add(e) {
            Some(t) => t,
            None => {
                proof {
                    if spans_fit(merged@) {
                        assert(i64::MIN <= merged@[k as int].1 - merged@[k as int].0 <= i64::MAX);
                        assert(i64::MIN <= merged@[k as int].1 - merged@[k as int].0 + 1 <= i64::MAX);
                        assert(i64::MIN <= span_sum(merged@.take(k + 1)) <= i64::MAX);
                    }
                }
                return None;
            },
        };
        k += 1;
    }
    assert(merged@.take(merged.len() as int) =~= merged@);
    assert forall|j: int| 0 <= j < merged@.len() implies {
        &&& i64::MIN <= #[trigger] merged@[j].1 - merged@[j].0 <= i64::MAX
        &&& i64::MIN <= merged@[j].1 - merged@[j].0 + 1 <= i64::MAX
        &&& i64::MIN <= span_sum(merged@.take(j + 1)) <= i64::MAX
    } by {}
    Some(result)
}

/// The ranges sorted by start and merged where neighbours overlap.
fn merge_ranges(ranges: &Vec<(i64, i64)>) -> (r: Vec<(i64, i64)>)
    requires
        ranges.len() > 0,
    ensures
        r@ == merged_of(ranges@),
{
    let sorted = sort_ranges(ranges);
    proof {
        lemma_sort_len(ranges@);
    }
    let ghost whole = merged_of(ranges@);
    let mut merged: Vec<(i64, i64)> = Vec::new();
    let mut current = sorted[0];
    let mut i: usize = 1;
    proof {
        assert(sorted@.skip(1) =~= sorted@.drop_first());
        assert(merged@ + merge_from(current, sorted@.skip(1)) =~= whole);
    }
    while i < sorted.len()
        invariant
            1 <= i <= sorted.len(),
            whole == merged_of(ranges@),
            sorted@ == sort_by_start(ranges@),
            merged@ + merge_from(current, sorted@.skip(i as int)) == whole,
        decreases sorted.len() - i,
    {
        let range = sorted[i];
        let ghost rest = sorted@.skip(i as int);
        proof {
            assert(rest[0] == range);
            assert(rest.drop_first() =~= sorted@.skip(i + 1));
        }
        if range.0 <= current.1 && range.1 >= current.0 {
            let lo = if current.0 <= range.0 {
                current.0
            } else {
                range.0
            };
            let hi = if current.1 >= range.1 {
                current.1
            } else {
                range.1
            };
            current = (lo, hi);
        } else {
            proof {
                let m0 = merged@;
                assert(m0.push(current) + merge_from(range, sorted@.skip(i + 1)) =~= m0 + (seq![
                    current,
                ] + merge_from(range, sorted@.skip(i + 1))));
            }
            merged.push(current);
            current = range;
        }
        i += 1;
    }
    proof {
        assert(sorted@.skip(i as int).len() == 0);
        assert(merged@ + seq![current] =~= merged@.push(current));
    }
    merged.push(current);
    merged
}

/// Every range has its start at most its end.
pub open spec fn ranges_well_formed(s: Seq<(i64, i64)>) -> bool {
    forall|j: int| 0 <= j < s.len() ==> (#[trigger] s[j]).0 <= s[j].1
}

/// The ids that lie in at least one range.
pub open spec fn covered_ids(s: Seq<(i64, i64)>) -> Set<int> {
    Set::new(|x: int| covered(s, x))
}

/// The ids of one range.
pub open spec fn range_ids(r: (i64, i64)) -> Set<int> {
    set_int_range(r.0 as int, r.1 + 1)
}

pub open spec fn sorted_by_start(t: Seq<(i64, i64)>) -> bool {
    forall|i: int, j: int| 0 <= i < j < t.len() ==> (#[trigger] t[i]).0 <= (#[trigger] t[j]).0
}

proof fn lemma_insert_contains(sorted: Seq<(i64, i64)>, x: (i64, i64))
    ensures
        forall|y: (i64, i64)| #[trigger]
            insert_by_start(sorted, x).contains(y) <==> (sorted.contains(y) || y == x),
    decreases sorted.len(),
{
    let t = insert_by_start(sorted, x);
    if sorted.len() == 0 {
        assert(t =~= seq![x]);
        assert forall|y: (i64, i64)| t.contains(y) <==> (sorted.contains(y) || y == x) by {
            if t.contains(y) {
                let i = choose|i: int| 0 <= i < t.len() && t[i] == y;
                assert(i == 0);
            }
            if y == x {
                assert(t[0] == x);
            }
        }
    } else if sorted.last().0 <= x.0 {
        assert forall|y: (i64, i64)| t.contains(y) <==> (sorted.contains(y) || y == x) by {
            if t.contains(y) {
                let i = choose|i: int| 0 <= i < t.len() && t[i] == y;
                if i < sorted.len() {
                    assert(sorted[i] == y);
                }
            }
            if sorted.contains(y) {
                let i = choose|i: int| 0 <= i < sorted.len() && sorted[i] == y;
                assert(t[i] == y);
            }
            if y == x {
                assert(t[sorted.len() as int] == x);
            }
        }
    } else {
        let d = sorted.drop_last();
        let u = insert_by_start(d, x);
        lemma_insert_contains(d, x);
        assert forall|y: (i64, i64)| t.contains(y) <==> (sorted.contains(y) || y == x) by {
            if t.contains(y) {
                let i = choose|i: int| 0 <= i < t.len() && t[i] == y;
                if i < u.len() {
                    assert(u[i] == y);
                    assert(u.contains(y));
                    if d.contains(y) {
                        let k = choose|k: int| 0 <= k < d.len() && d[k] == y;
                        assert(sorted[k] == y);
                    }
                } else {
                    assert(y == sorted.last());
                    assert(sorted[sorted.len() - 1] == y);
                }
            }
            if sorted.contains(y) {
                let i = choose|i: int| 0 <= i < sorted.len() && sorted[i] == y;
                if i < d.len() {
                    assert(d[i] == y);
                    assert(u.contains(y));
                    let k = choose|k: int| 0 <= k < u.len() && u[k] == y;
                    assert(t[k] == y);
                } else {
                    assert(t[u.len() as int] == y);
                }
            }
            if y == x {
                assert(u.contains(x));
                let k = choose|k: int| 0 <= k < u.len() && u[k] == x;
                assert(t[k] == x);
            }
        }
    }
}

proof fn lemma_insert_sorted(sorted: Seq<(i64, i64)>, x: (i64, i64))
    requires
        sorted_by_start(sorted),
    ensures
        sorted_by_start(insert_by_start(sorted, x)),
    decreases sorted.len(),
{
    let t = insert_by_start(sorted, x);
    if sorted.len() == 0 {
        assert(t =~= seq![x]);
    } else if sorted.last().0 <= x.0 {
        assert forall|i: int, j: int| 0 <= i < j < t.len() implies (#[trigger] t[i]).0 <= (
        #[trigger] t[j]).0 by {
            if j == sorted.len() {
                assert(sorted[i].0 <= sorted[sorted.len() - 1].0);
            } else {
                assert(sorted[i].0 <= sorted[j].0);
            }
        }
    } else {
        let d = sorted.drop_last();
        let u = insert_by_start(d, x);
        let last = sorted.last();
        assert(sorted_by_start(d)) by {
            assert forall|i: int, j: int| 0 <= i < j < d.len() implies (#[trigger] d[i]).0 <= (
            #[trigger] d[j]).0 by {
                assert(sorted[i].0 <= sorted[j].0);
            }
        }
        lemma_insert_sorted(d, x);
        lemma_insert_contains(d, x);
        assert forall|i: int, j: int| 0 <= i < j < t.len() implies (#[trigger] t[i]).0 <= (
        #[trigger] t[j]).0 by {
            if j == u.len() {
                assert(t[j] == last);
                assert(u.contains(u[i]));
                if d.contains(u[i]) {
                    let k = choose|k: int| 0 <= k < d.len() && d[k] == u[i];
                    assert(sorted[k].0 <= sorted[sorted.len() - 1].0);
                }
            } else {
                assert(u[i].0 <= u[j].0);
            }
        }
    }
}

proof fn lemma_sort_props(s: Seq<(i64, i64)>)
    ensures
        sorted_by_start(sort_by_start(s)),
        forall|y: (i64, i64)| #[trigger] sort_by_start(s).contains(y) <==> s.contains(y),
    decreases s.len(),
{
    if s.len() == 0 {
    } else {
        let d = s.drop_last();
        lemma_sort_props(d);
        lemma_insert_sorted(sort_by_start(d), s.last());
        lemma_insert_contains(sort_by_start(d), s.last());
        assert forall|y: (i64, i64)| #[trigger] sort_by_start(s).contains(y) <==> s.contains(y) by {
            if s.contains(y) {
                let i = choose|i: int| 0 <= i < s.len() && s[i] == y;
                if i < d.len() {
                    assert(d[i] == y);
                }
            }
            if d.contains(y) {
                let i = choose|i: int| 0 <= i < d.len() && d[i] == y;
                assert(s[i] == y);
            }
        }
    }
}

proof fn lemma_covered_same(a: Seq<(i64, i64)>, b: Seq<(i64, i64)>)
    requires
        forall|y: (i64, i64)| #[trigger] a.contains(y) <==> b.contains(y),
    ensures
        covered_ids(a) == covered_ids(b),
{
    assert forall|x: int| covered_ids(a).contains(x) <==> covered_ids(b).contains(x) by {
        if covered(a, x) {
            let j = choose|j: int| 0 <= j < a.len() && #[trigger] in_range(a[j], x);
            assert(a.contains(a[j]));
            let k = choose|k: int| 0 <= k < b.len() && b[k] == a[j];
            assert(in_range(b[k], x));
        }
        if covered(b, x) {
            let j = choose|j: int| 0 <= j < b.len() && #[trigger] in_range(b[j], x);
            assert(b.contains(b[j]));
            assert(a.contains(b[j]));
            let k = choose|k: int| 0 <= k < a.len() && a[k] == b[j];
            assert(in_range(a[k], x));
        }
    }
    assert(covered_ids(a) =~= covered_ids(b));
}

proof fn lemma_covered_split(rest: Seq<(i64, i64)>)
    requires
        rest.len() > 0,
    ensures
        covered_ids(rest) == range_ids(rest[0]).union(covered_ids(rest.drop_first())),
{
    let tail = rest.drop_first();
    assert forall|x: int|
        covered_ids(rest).contains(x) <==> range_ids(rest[0]).union(
            covered_ids(tail),
        ).contains(x) by {
        if covered(rest, x) {
            let j = choose|j: int| 0 <= j < rest.len() && #[trigger] in_range(rest[j], x);
            if j > 0 {
                assert(tail[j - 1] == rest[j]);
                assert(in_range(tail[j - 1], x));
            }
        }
        if covered(tail, x) {
            let j = choose|j: int| 0 <= j < tail.len() && #[trigger] in_range(tail[j], x);
            assert(rest[j + 1] == tail[j]);
            assert(in_range(rest[j + 1], x));
        }
        if range_ids(rest[0]).contains(x) {
            assert(in_range(rest[0], x));
        }
    }
    assert(covered_ids(rest) =~= range_ids(rest[0]).union(covered_ids(tail)));
}

proof fn lemma_span_sum_concat(a: Seq<(i64, i64)>, b: Seq<(i64, i64)>)
    ensures
        span_sum(a + b) == span_sum(a) + span_sum(b),
    decreases b.len(),
{
    if b.len() == 0 {
        assert(a + b =~= a);
    } else {
        lemma_span_sum_concat(a, b.drop_last());
        assert((a + b).drop_last() =~= a + b.drop_last());
    }
}

proof fn lemma_span_sum_one(r: (i64, i64))
    ensures
        span_sum(seq![r]) == r.1 - r.0 + 1,
{
    assert(seq![r].drop_last() =~= Seq::<(i64, i64)>::empty());
    assert(span_sum(Seq::<(i64, i64)>::empty()) == 0);
}

proof fn lemma_merge_counts(cur: (i64, i64), rest: Seq<(i64, i64)>)
    requires
        cur.0 <= cur.1,
        ranges_well_formed(rest),
        sorted_by_start(rest),
        forall|k: int| 0 <= k < rest.len() ==> cur.0 <= (#[trigger] rest[k]).0,
    ensures
        range_ids(cur).union(covered_ids(rest)).finite(),
        span_sum(merge_from(cur, rest)) == range_ids(cur).union(covered_ids(rest)).len(),
    decreases rest.len(),
{
    lemma_int_range(cur.0 as int, cur.1 + 1);
    if rest.len() == 0 {
        assert(covered_ids(rest) =~= Set::empty());
        assert(range_ids(cur).union(covered_ids(rest)) =~= range_ids(cur));
        assert(merge_from(cur, rest) =~= seq![cur]);
        lemma_span_sum_one(cur);
    } else {
        let r = rest[0];
        let tail = rest.drop_first();
        assert(r.0 <= r.1);
        assert(ranges_well_formed(tail)) by {
            assert forall|j: int| 0 <= j < tail.len() implies (#[trigger] tail[j]).0 <= tail[j].1 by {
                assert(tail[j] == rest[j + 1]);
            }
        }
        assert(sorted_by_start(tail)) by {
            assert forall|i: int, j: int| 0 <= i < j < tail.len() implies (#[trigger] tail[i]).0
                <= (#[trigger] tail[j]).0 by {
                assert(rest[i + 1].0 <= rest[j + 1].0);
            }
        }
        assert forall|k: int| 0 <= k < tail.len() implies r.0 <= (#[trigger] tail[k]).0 by {
            assert(rest[0].0 <= rest[k + 1].0);
        }
        lemma_covered_split(rest);
        if r.0 <= cur.1 && r.1 >= cur.0 {
            let nc = (min_i64(cur.0, r.0), max_i64(cur.1, r.1));
            assert(nc.0 == cur.0);
            lemma_merge_counts(nc, tail);
            assert(range_ids(nc) =~= range_ids(cur).union(range_ids(r)));
            assert(range_ids(nc).union(covered_ids(tail)) =~= range_ids(cur).union(
                covered_ids(rest),
            ));
        } else {
            assert(cur.1 < r.0);
            lemma_merge_counts(r, tail);
            let m = merge_from(r, tail);
            lemma_span_sum_concat(seq![cur], m);
            lemma_span_sum_one(cur);
            assert(range_ids(r).union(covered_ids(tail)) =~= covered_ids(rest));
            assert(range_ids(cur).disjoint(covered_ids(rest))) by {
                assert forall|x: int| range_ids(cur).contains(x) implies !covered_ids(
                    rest,
                ).contains(x) by {
                    if covered(rest, x) {
                        let j = choose|j: int| 0 <= j < rest.len() && #[trigger] in_range(rest[j], x);
                        if j > 0 {
                            assert(rest[0].0 <= rest[j].0);
                        }
                    }
                }
            }
            vstd::set_lib::lemma_set_disjoint_lens(range_ids(cur), covered_ids(rest));
        }
    }
}

/// For ranges whose starts do not exceed their ends, `two` counts exactly the ids
/// that lie in at least one range: overlaps are counted once.
pub proof fn two_counts_covered_ids(ranges: Seq<(i64, i64)>)
    requires
        ranges.len() > 0,
        ranges_well_formed(ranges),
    ensures
        covered_ids(ranges).finite(),
        span_sum(merged_of(ranges)) == covered_ids(ranges).len(),
{
    let t = sort_by_start(ranges);
    lemma_sort_props(ranges);
    lemma_sort_len(ranges);
    lemma_covered_same(t, ranges);
    assert(ranges_well_formed(t)) by {
        assert forall|j: int| 0 <= j < t.len() implies (#[trigger] t[j]).0 <= t[j].1 by {
            assert(t.contains(t[j]));
            let k = choose|k: int| 0 <= k < ranges.len() && ranges[k] == t[j];
            assert(ranges[k].0 <= ranges[k].1);
        }
    }
    let rest = t.drop_first();
    assert(ranges_well_formed(rest)) by {
        assert forall|j: int| 0 <= j < rest.len() implies (#[trigger] rest[j]).0 <= rest[j].1 by {
            assert(rest[j] == t[j + 1]);
        }
    }
    assert(sorted_by_start(rest)) by {
        assert forall|i: int, j: int| 0 <= i < j < rest.len() implies (#[trigger] rest[i]).0 <= (
        #[trigger] rest[j]).0 by {
            assert(t[i + 1].0 <= t[j + 1].0);
        }
    }
    assert forall|k: int| 0 <= k < rest.len() implies t[0].0 <= (#[trigger] rest[k]).0 by {
        assert(t[0].0 <= t[k + 1].0);
    }
    assert(t[0].0 <= t[0].1);
    lemma_merge_counts(t[0], rest);
    lemma_covered_split(t);
}

} // verus!
