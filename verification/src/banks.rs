//! Battery banks: each line of digits is a bank; picking batteries in order and
//! reading their digits as one number gives the bank's joltage.
use vstd::prelude::*;
use vstd::slice::slice_subrange;
use crate::decimal::{dec_str, int_to_chars, parse_i32, parse_in};
use crate::text::chars_of;
use crate::utils::{big_of, num_list_to_big_num};

verus! {

/// The position of the first largest element (the first one, among equal largest).
pub open spec fn first_max_pos(s: Seq<i32>) -> int
    decreases s.len(),
{
    if s.len() <= 1 {
        0
    } else {
        let p = first_max_pos(s.drop_last());
        if s.last() > s[p] {
            s.len() - 1
        } else {
            p
        }
    }
}

/// The largest element of a non-empty sequence.
pub open spec fn max_of(s: Seq<i32>) -> i32 {
    s[first_max_pos(s)]
}

/// `first_max_pos` is the first position that holds the largest value.
pub proof fn lemma_first_max_pos(s: Seq<i32>)
    requires
        s.len() >= 1,
    ensures
        0 <= first_max_pos(s) < s.len(),
        forall|i: int| 0 <= i < s.len() ==> #[trigger] s[i] <= s[first_max_pos(s)],
        forall|i: int| 0 <= i < first_max_pos(s) ==> #[trigger] s[i] < s[first_max_pos(s)],
    decreases s.len(),
{
    if s.len() > 1 {
        let d = s.drop_last();
        lemma_first_max_pos(d);
        assert forall|i: int| 0 <= i < s.len() - 1 implies s[i] == d[i] by {}
    }
}

/// The first largest element of `vector` and its position.
pub fn pos_first_max(vector: &[i32]) -> (r: (i32, usize))
    requires
        vector.len() >= 1,
    ensures
        r.1 == first_max_pos(vector@),
        r.0 == vector@[r.1 as int],
{
    let mut max: i32 = vector[0];
    let mut pos: usize = 0;
    let mut i: usize = 1;
    while i < vector.len()
        invariant
            1 <= i <= vector.len(),
            pos == first_max_pos(vector@.take(i as int)),
            pos < i,
            max == vector@[pos as int],
        decreases vector.len() - i,
    {
        proof {
            let t = vector@.take(i + 1);
            assert(t.drop_last() =~= vector@.take(i as int));
            assert(t[pos as int] == vector@[pos as int]);
        }
        if vector[i] > max {
            max = vector[i];
            pos = i;
        }
        i += 1;
    }
    assert(vector@.take(vector.len() as int) =~= vector@);
    (max, pos)
}

/// The digit values of the decimal digits of `s`, in order.
pub open spec fn digit_values(s: Seq<char>) -> Seq<i32>
    decreases s.len(),
{
    if s.len() == 0 {
        Seq::empty()
    } else if '0' <= s.last() && s.last() <= '9' {
        digit_values(s.drop_last()).push(((s.last() as int) - ('0' as int)) as i32)
    } else {
        digit_values(s.drop_last())
    }
}

/// Reads a bank: the values of the decimal digits of the line, anything else dropped.
pub fn bank_of_line(line: &str) -> (r: Vec<i32>)
    ensures
        r@ == digit_values(line@),
{
    let cs = chars_of(line);
    let mut out: Vec<i32> = Vec::new();
    let mut i: usize = 0;
    while i < cs.len()
        invariant
            i <= cs.len(),
            cs@ == line@,
            out@ == digit_values(cs@.take(i as int)),
        decreases cs.len() - i,
    {
        let c = cs[i];
        proof {
            assert(cs@.take(i + 1).drop_last() =~= cs@.take(i as int));
        }
        if '0' <= c && c <= '9' {
            out.push(((c as u32) - ('0' as u32)) as i32);
        }
        i += 1;
    }
    assert(cs@.take(cs.len() as int) =~= cs@);
    out
}

/// The two batteries `one` picks in a bank: the first largest digit and the largest
/// after it, or, when the largest stands last, the largest before it and that one.
pub open spec fn pair_of(l: Seq<i32>) -> (i32, i32) {
    let p = first_max_pos(l);
    if p == l.len() - 1 {
        (max_of(l.take(p)), l[p])
    } else {
        (l[p], max_of(l.skip(p + 1)))
    }
}

/// What `format!("{}{}", x, y)` reads back as an `i32`.
pub open spec fn pair_value(l: Seq<i32>) -> Option<int> {
    parse_in(dec_str(pair_of(l).0 as int) + dec_str(pair_of(l).1 as int), i32::MIN as int, i32::MAX as int)
}

/// A bank `one` handles without a panic.
pub open spec fn pair_ok(l: Seq<i32>) -> bool {
    &&& l.len() >= 1
    &&& first_max_pos(l) == l.len() - 1 ==> l.len() >= 2
    &&& pair_value(l) is Some
}

/// The sum of the pair values of the first `k` banks.
pub open spec fn pairs_sum(m: Seq<Vec<i32>>, k: int) -> int
    decreases k,
{
    if k <= 0 {
        0
    } else {
        pairs_sum(m, k - 1) + pair_value(m[k - 1]@).unwrap()
    }
}

/// The banks `one` handles without a panic or an overflow.
pub open spec fn one_ok(m: Seq<Vec<i32>>) -> bool {
    &&& forall|i: int| 0 <= i < m.len() ==> pair_ok(#[trigger] m[i]@)
    &&& forall|k: int| 0 <= k <= m.len() ==> i32::MIN <= #[trigger] pairs_sum(m, k) <= i32::MAX
}

fn concat_chars(x: &[char], y: &[char]) -> (r: Vec<char>)
    ensures
        r@ == x@ + y@,
{
    let mut out: Vec<char> = Vec::new();
    let mut i: usize = 0;
    while i < x.len()
        invariant
            i <= x.len(),
            out@ == x@.take(i as int),
        decreases x.len() - i,
    {
        out.push(x[i]);
        i += 1;
        assert(out@ =~= x@.take(i as int));
    }
    let mut j: usize = 0;
    while j < y.len()
        invariant
            j <= y.len(),
            out@ == x@ + y@.take(j as int),
        decreases y.len() - j,
    {
        out.push(y[j]);
        j += 1;
        assert(out@ =~= x@ + y@.take(j as int));
    }
    assert(x@.take(x.len() as int) =~= x@);
    assert(y@.take(y.len() as int) =~= y@);
    out
}

/// The two-battery joltage of one bank.
fn pair_joltage(line: &Vec<i32>) -> (r: i32)
    requires
        pair_ok(line@),
    ensures
        r == pair_value(line@).unwrap(),
{
    let (m, pos) = pos_first_max(line.as_slice());
    let n = line.len();
    proof {
        lemma_first_max_pos(line@);
    }
    let (aa, bb) = if pos == n - 1 {
        let head = slice_subrange(line.as_slice(), 0, pos);
        assert(head@ =~= line@.take(pos as int));
        let (x, _) = pos_first_max(head);
        (x, m)
    } else {
        let tail = slice_subrange(line.as_slice(), pos + 1, n);
        assert(tail@ =~= line@.skip(pos + 1));
        let (y, _) = pos_first_max(tail);
        (m, y)
    };
    let s = concat_chars(int_to_chars(aa as i128).as_slice(), int_to_chars(bb as i128).as_slice());
    parse_i32(s.as_slice()).unwrap()
}

/// The two-battery joltage of one bank, or `None` where `one` would panic on it.
fn pair_joltage_checked(line: &Vec<i32>) -> (r: Option<i32>)
    ensures
        r is Some <==> pair_ok(line@),
        r matches Some(v) ==> v == pair_value(line@).unwrap(),
{
    let n = line.len();
    if n == 0 {
        return None;
    }
    let (m, pos) = pos_first_max(line.as_slice());
    proof {
        lemma_first_max_pos(line@);
    }
    if pos == n - 1 && n < 2 {
        return None;
    }
    let (aa, bb) = if pos == n - 1 {
        let head = slice_subrange(line.as_slice(), 0, pos);
        assert(head@ =~= line@.take(pos as int));
        let (x, _) = pos_first_max(head);
        (x, m)
    } else {
        let tail = slice_subrange(line.as_slice(), pos + 1, n);
        assert(tail@ =~= line@.skip(pos + 1));
        let (y, _) = pos_first_max(tail);
        (m, y)
    };
    let s = concat_chars(int_to_chars(aa as i128).as_slice(), int_to_chars(bb as i128).as_slice());
    parse_i32(s.as_slice())
}

/// `one`, where it runs: `None` exactly where `one` would panic or overflow.
pub fn one_checked(matrix: &Vec<Vec<i32>>) -> (r: Option<i32>)
    ensures
        r is Some <==> one_ok(matrix@),
        r matches Some(v) ==> v == pairs_sum(matrix@, matrix@.len() as int),
{
    let mut result: i32 = 0;
    let mut i: usize = 0;
    while i < matrix.len()
        invariant
            i <= matrix.len(),
            forall|j: int| 0 <= j < i ==> pair_ok(#[trigger] matrix@[j]@),
            forall|k: int| 0 <= k <= i ==> i32::MIN <= #[trigger] pairs_sum(matrix@, k) <= i32::MAX,
            result == pairs_sum(matrix@, i as int),
        decreases matrix.len() - i,
    {
        match pair_joltage_checked(&matrix[i]) {
            None => {
                assert(!pair_ok(matrix@[i as int]@));
                return None;
            },
            Some(v) => {
                match result.checked_add(v) {
                    None => {
                        assert(!(i32::MIN <= pairs_sum(matrix@, i + 1) <= i32::MAX));
                        return None;
                    },
                    Some(t) => {
                        result = t;
                    },
                }
            },
        }
        i += 1;
        assert(pairs_sum(matrix@, i as int) == result);
    }
    Some(result)
}

/// Sums over the banks the largest joltage made of two batteries taken in order.
pub fn one(matrix: Vec<Vec<i32>>) -> (r: i32)
    requires
        one_ok(matrix@),
    ensures
        r == pairs_sum(matrix@, matrix@.len() as int),
{
    let mut result: i32 = 0;
    let mut i: usize = 0;
    while i < matrix.len()
        invariant
            i <= matrix.len(),
            one_ok(matrix@),
            result == pairs_sum(matrix@, i as int),
        decreases matrix.len() - i,
    {
        assert(pair_ok(matrix@[i as int]@));
        let v = pair_joltage(&matrix[i]);
        assert(i32::MIN <= pairs_sum(matrix@, i + 1) <= i32::MAX);
        result += v;
        i += 1;
    }
    result
}

/// Every battery is a single digit.
pub open spec fn is_digit_bank(l: Seq<i32>) -> bool {
    forall|i: int| 0 <= i < l.len() ==> 0 <= #[trigger] l[i] <= 9
}

proof fn lemma_two_digits(x: i32, y: i32)
    requires
        0 <= x <= 9,
        0 <= y <= 9,
    ensures
        parse_in(dec_str(x as int) + dec_str(y as int), i32::MIN as int, i32::MAX as int) == Some(
            10 * x + y,
        ),
{
    crate::decimal::lemma_digit_char(x as int);
    crate::decimal::lemma_digit_char(y as int);
    let s = dec_str(x as int) + dec_str(y as int);
    assert(s =~= seq![crate::decimal::digit_char(x as int), crate::decimal::digit_char(y as int)]);
    assert(s.drop_last() =~= seq![crate::decimal::digit_char(x as int)]);
    assert(s.drop_last().drop_last() =~= Seq::<char>::empty());
    assert(crate::decimal::digits_value(Seq::<char>::empty()) == 0);
    assert(crate::decimal::all_digits(s)) by {
        assert forall|i: int| 0 <= i < s.len() implies crate::decimal::is_digit(#[trigger] s[i]) by {}
    }
    assert(crate::decimal::digits_value(s.drop_last()) == x);
    assert(crate::decimal::digits_value(s) == 10 * x + y);
    assert(s[0] != '+' && s[0] != '-');
    assert(crate::decimal::parse_int(s) == Some(10 * x + y));
}

/// On a bank of single digits with at least two batteries, `one` picks the largest
/// two-digit joltage over all pairs of batteries taken in order.
pub proof fn pair_is_best(l: Seq<i32>)
    requires
        is_digit_bank(l),
        l.len() >= 2,
    ensures
        pair_ok(l),
        exists|i: int, j: int|
            #![trigger l[i], l[j]]
            0 <= i < j < l.len() && pair_value(l) == Some(10 * l[i] + l[j]),
        forall|i: int, j: int|
            #![trigger l[i], l[j]]
            0 <= i < j < l.len() ==> 10 * l[i] + l[j] <= pair_value(l).unwrap(),
{
    let p = first_max_pos(l);
    lemma_first_max_pos(l);
    let n = l.len();
    if p == n - 1 {
        let h = l.take(p);
        lemma_first_max_pos(h);
        let q = first_max_pos(h);
        assert(h[q] == l[q]);
        lemma_two_digits(l[q], l[p]);
        assert(pair_value(l) == Some(10 * l[q] + l[p]));
        assert forall|i: int, j: int| #![trigger l[i], l[j]] 0 <= i < j < n implies 10 * l[i] + l[j] <= 10 * l[q]
            + l[p] by {
            assert(h[i] == l[i]);
            assert(h[i] <= h[q]);
        }
    } else {
        let t = l.skip(p + 1);
        lemma_first_max_pos(t);
        let q = first_max_pos(t);
        assert(t[q] == l[p + 1 + q]);
        lemma_two_digits(l[p], t[q]);
        assert(pair_value(l) == Some(10 * l[p] + l[p + 1 + q]));
        assert forall|i: int, j: int| #![trigger l[i], l[j]] 0 <= i < j < n implies 10 * l[i] + l[j] <= 10 * l[p]
            + l[p + 1 + q] by {
            assert(l[i] <= l[p]);
            if i < p {
                assert(l[i] < l[p]);
                assert(l[j] <= 9);
            } else {
                assert(t[j - p - 1] == l[j]);
                assert(t[j - p - 1] <= t[q]);
            }
        }
    }
}

/// The batteries `two` picks from `w` to fill `s` places: while there are more
/// batteries than places, the first largest among those that still leave enough
/// after them, then the rest from after it.
pub open spec fn greedy(w: Seq<i32>, s: nat) -> Seq<i32>
    decreases s,
{
    if s == 0 || w.len() < s {
        Seq::empty()
    } else if s == w.len() {
        w
    } else {
        let head = w.take(w.len() - s + 1);
        let pm = first_max_pos(head);
        seq![head[pm]] + greedy(w.skip(pm + 1), (s - 1) as nat)
    }
}

/// The sum of the joltages of the first `k` banks, `size` batteries each.
pub open spec fn picks_sum(m: Seq<Vec<i32>>, size: nat, k: int) -> int
    decreases k,
{
    if k <= 0 {
        0
    } else {
        picks_sum(m, size, k - 1) + big_of(greedy(m[k - 1]@, size)).unwrap()
    }
}

/// The banks `two` handles without a panic or an overflow.
pub open spec fn two_ok(m: Seq<Vec<i32>>, size: nat) -> bool {
    &&& size >= 1
    &&& forall|i: int|
        0 <= i < m.len() ==> (#[trigger] m[i]@).len() >= size && big_of(greedy(m[i]@, size)) is Some
    &&& forall|k: int| 0 <= k <= m.len() ==> i128::MIN <= #[trigger] picks_sum(m, size, k) <= i128::MAX
}

proof fn lemma_greedy_len(w: Seq<i32>, s: nat)
    requires
        w.len() >= s,
    ensures
        greedy(w, s).len() == s,
    decreases s,
{
    if s > 0 && s != w.len() {
        let head = w.take(w.len() - s + 1);
        lemma_first_max_pos(head);
        lemma_greedy_len(w.skip(first_max_pos(head) + 1), (s - 1) as nat);
    }
}

/// Picks `size` batteries of a bank, in order, to make the largest joltage.
fn pick_batteries(line: &Vec<i32>, size: usize) -> (r: Vec<i32>)
    requires
        line.len() >= size,
    ensures
        r@ == greedy(line@, size as nat),
{
    let mut s = size;
    let mut res: Vec<i32> = Vec::new();
    let mut working: Vec<i32> = vstd::slice::slice_to_vec(line.as_slice());
    while s > 0 && s != working.len()
        invariant
            working.len() >= s,
            res@ + greedy(working@, s as nat) == greedy(line@, size as nat),
        decreases s,
    {
        let pos = working.len() - s;
        let head = slice_subrange(working.as_slice(), 0, pos + 1);
        assert(head@ =~= working@.take(working@.len() - s + 1));
        proof {
            lemma_first_max_pos(head@);
        }
        let (max, pm) = pos_first_max(head);
        let right = vstd::slice::slice_to_vec(slice_subrange(working.as_slice(), pm + 1, working.len()));
        proof {
            assert(right@ =~= working@.skip(pm + 1));
            let g = greedy(working@, s as nat);
            assert(g == seq![max] + greedy(right@, (s - 1) as nat));
            assert(res@.push(max) + greedy(right@, (s - 1) as nat) =~= res@ + g);
        }
        working = right;
        s -= 1;
        res.push(max);
    }
    if s > 0 {
        let mut j: usize = 0;
        let ghost before = res@;
        while j < working.len()
            invariant
                j <= working.len(),
                res@ == before + working@.take(j as int),
            decreases working.len() - j,
        {
            res.push(working[j]);
            j += 1;
            assert(res@ =~= before + working@.take(j as int));
        }
        assert(working@.take(working.len() as int) =~= working@);
    } else {
        assert(res@ + Seq::<i32>::empty() =~= res@);
    }
    res
}

/// Sums over the banks the largest joltage made of `size` batteries taken in order.
pub fn two(matrix: Vec<Vec<i32>>, size: usize) -> (r: i128)
    requires
        two_ok(matrix@, size as nat),
    ensures
        r == picks_sum(matrix@, size as nat, matrix@.len() as int),
{
    let mut result: i128 = 0;
    let mut i: usize = 0;
    while i < matrix.len()
        invariant
            i <= matrix.len(),
            two_ok(matrix@, size as nat),
            result == picks_sum(matrix@, size as nat, i as int),
        decreases matrix.len() - i,
    {
        assert((matrix@[i as int]@).len() >= size);
        let res = pick_batteries(&matrix[i], size);
        let tmp = num_list_to_big_num(res.as_slice()).unwrap();
        assert(i128::MIN <= picks_sum(matrix@, size as nat, i + 1) <= i128::MAX);
        result += tmp;
        i += 1;
    }
    result
}

/// `two`, where it runs: `None` exactly where `two` would panic or overflow.
pub fn two_checked(matrix: &Vec<Vec<i32>>, size: usize) -> (r: Option<i128>)
    ensures
        r is Some <==> two_ok(matrix@, size as nat),
        r matches Some(v) ==> v == picks_sum(matrix@, size as nat, matrix@.len() as int),
{
    if size < 1 {
        return None;
    }
    let mut result: i128 = 0;
    let mut i: usize = 0;
    while i < matrix.len()
        invariant
            i <= matrix.len(),
            size >= 1,
            forall|j: int| 0 <= j < i ==> (#[trigger] matrix@[j]@).len() >= size && big_of(greedy(matrix@[j]@, size as nat)) is Some,
            forall|k: int| 0 <= k <= i ==> i128::MIN <= #[trigger] picks_sum(matrix@, size as nat, k) <= i128::MAX,
            result == picks_sum(matrix@, size as nat, i as int),
        decreases matrix.len() - i,
    {
        if matrix[i].len() < size {
            return None;
        }
        let res = pick_batteries(&matrix[i], size);
        match num_list_to_big_num(res.as_slice()) {
            Err(_) => {
                return None;
            },
            Ok(v) => {
                match result.checked_add(v) {
                    None => {
                        assert(!(i128::MIN <= picks_sum(matrix@, size as nat, i + 1) <= i128::MAX));
                        return None;
                    },
                    Some(t) => {
                        result = t;
                    },
                }
            },
        }
        i += 1;
        assert(picks_sum(matrix@, size as nat, i as int) == result);
    }
    Some(result)
}

/// The position of the first smallest element.
pub open spec fn first_min_pos(s: Seq<i32>) -> int
    decreases s.len(),
{
    if s.len() <= 1 {
        0
    } else {
        let p = first_min_pos(s.drop_last());
        if s.last() < s[p] {
            s.len() - 1
        } else {
            p
        }
    }
}

proof fn lemma_first_min_pos(s: Seq<i32>)
    requires
        s.len() >= 1,
    ensures
        0 <= first_min_pos(s) < s.len(),
    decreases s.len(),
{
    if s.len() > 1 {
        lemma_first_min_pos(s.drop_last());
    }
}

fn pos_first_min(vector: &[i32]) -> (r: usize)
    requires
        vector.len() >= 1,
    ensures
        r == first_min_pos(vector@),
{
    let mut min: i32 = vector[0];
    let mut pos: usize = 0;
    let mut i: usize = 1;
    while i < vector.len()
        invariant
            1 <= i <= vector.len(),
            pos == first_min_pos(vector@.take(i as int)),
            pos < i,
            min == vector@[pos as int],
        decreases vector.len() - i,
    {
        proof {
            let t = vector@.take(i + 1);
            assert(t.drop_last() =~= vector@.take(i as int));
            assert(t[pos as int] == vector@[pos as int]);
        }
        if vector[i] < min {
            min = vector[i];
            pos = i;
        }
        i += 1;
    }
    assert(vector@.take(vector.len() as int) =~= vector@);
    pos
}

/// One step of the discarded approach: a battery at least as large as the first kept
/// one goes in front, and the first smallest kept battery leaves.
pub open spec fn wrong_step(t: Seq<i32>, x: i32) -> Seq<i32> {
    if x >= t[0] {
        t.remove(first_min_pos(t)).insert(0, x)
    } else {
        t
    }
}

pub open spec fn wrong_fold(line: Seq<i32>, pos: int, t: Seq<i32>) -> Seq<i32>
    decreases pos,
{
    if pos <= 0 {
        t
    } else {
        wrong_fold(line, pos - 1, wrong_step(t, line[pos - 1]))
    }
}

/// Where the discarded approach starts: the last `size` batteries (or all of them).
pub open spec fn wrong_start(len: nat, size: nat) -> int {
    if len >= size {
        len - size
    } else {
        0
    }
}

/// The batteries the discarded approach keeps: start from the last `size`, then walk
/// back over the others, one step each.
pub open spec fn wrong_tail(line: Seq<i32>, size: nat) -> Seq<i32> {
    let p0 = wrong_start(line.len(), size);
    wrong_fold(line, p0, line.skip(p0))
}

pub open spec fn wrong_sum(m: Seq<Vec<i32>>, size: nat, k: int) -> int
    decreases k,
{
    if k <= 0 {
        0
    } else {
        wrong_sum(m, size, k - 1) + big_of(wrong_tail(m[k - 1]@, size)).unwrap()
    }
}

/// The banks `two_wrong` handles without a panic or an overflow.
pub open spec fn two_wrong_ok(m: Seq<Vec<i32>>, size: nat) -> bool {
    &&& forall|i: int|
        0 <= i < m.len() ==> (wrong_start((#[trigger] m[i]@).len(), size) > 0 ==> size >= 1) && big_of(
            wrong_tail(m[i]@, size),
        ) is Some
    &&& forall|k: int| 0 <= k <= m.len() ==> i128::MIN <= #[trigger] wrong_sum(m, size, k) <= i128::MAX
}

fn wrong_keep(line: &Vec<i32>, size: usize) -> (r: Vec<i32>)
    requires
        wrong_start(line@.len(), size as nat) > 0 ==> size >= 1,
    ensures
        r@ == wrong_tail(line@, size as nat),
{
    let n = line.len();
    let mut pos: usize = if n >= size {
        n - size
    } else {
        0
    };
    let ghost p0 = pos as int;
    let mut tail = vstd::slice::slice_to_vec(slice_subrange(line.as_slice(), pos, n));
    assert(tail@ =~= line@.skip(pos as int));
    while pos > 0
        invariant
            pos <= p0,
            p0 == wrong_start(line@.len(), size as nat),
            p0 > 0 ==> tail.len() >= 1,
            wrong_fold(line@, pos as int, tail@) == wrong_tail(line@, size as nat),
            pos < line.len() || pos == 0,
        decreases pos,
    {
        pos -= 1;
        let x = line[pos];
        let pos_min = pos_first_min(tail.as_slice());
        proof {
            lemma_first_min_pos(tail@);
        }
        if x >= tail[0] {
            tail.remove(pos_min);
            tail.insert(0, x);
        }
    }
    tail
}

/// An earlier, discarded way to pick `size` batteries per bank, summed over the banks.
pub fn two_wrong(matrix: Vec<Vec<i32>>, size: usize) -> (r: i128)
    requires
        two_wrong_ok(matrix@, size as nat),
    ensures
        r == wrong_sum(matrix@, size as nat, matrix@.len() as int),
{
    let mut result: i128 = 0;
    let mut i: usize = 0;
    while i < matrix.len()
        invariant
            i <= matrix.len(),
            two_wrong_ok(matrix@, size as nat),
            result == wrong_sum(matrix@, size as nat, i as int),
        decreases matrix.len() - i,
    {
        assert(wrong_start((matrix@[i as int]@).len(), size as nat) > 0 ==> size >= 1);
        let tail = wrong_keep(&matrix[i], size);
        let tmp = num_list_to_big_num(tail.as_slice()).unwrap();
        assert(i128::MIN <= wrong_sum(matrix@, size as nat, i + 1) <= i128::MAX);
        result += tmp;
        i += 1;
    }
    result
}

/// The number whose decimal digits are `s`, most significant first.
pub open spec fn digits_num(s: Seq<i32>) -> int
    decreases s.len(),
{
    if s.len() == 0 {
        0
    } else {
        digits_num(s.drop_last()) * 10 + s.last()
    }
}

/// `idx` names `idx.len()` batteries of `l`, in increasing positions.
pub open spec fn is_pick(l: Seq<i32>, idx: Seq<int>) -> bool {
    &&& forall|i: int| 0 <= i < idx.len() ==> 0 <= #[trigger] idx[i] < l.len()
    &&& forall|i: int, j: int| 0 <= i < j < idx.len() ==> #[trigger] idx[i] < #[trigger] idx[j]
}

/// The batteries named by `idx`.
pub open spec fn picked(l: Seq<i32>, idx: Seq<int>) -> Seq<i32> {
    Seq::new(idx.len(), |i: int| l[idx[i]])
}

proof fn lemma_digits_num_bounds(s: Seq<i32>)
    requires
        is_digit_bank(s),
    ensures
        0 <= digits_num(s) < crate::decimal::pow10(s.len()),
    decreases s.len(),
{
    if s.len() > 0 {
        let d = s.drop_last();
        assert(is_digit_bank(d)) by {
            assert forall|i: int| 0 <= i < d.len() implies 0 <= #[trigger] d[i] <= 9 by {
                assert(d[i] == s[i]);
            }
        }
        lemma_digits_num_bounds(d);
        assert(0 <= s[s.len() - 1] <= 9);
    }
}

proof fn lemma_digits_num_first(s: Seq<i32>)
    requires
        s.len() >= 1,
    ensures
        digits_num(s) == s[0] * crate::decimal::pow10((s.len() - 1) as nat) + digits_num(s.drop_first()),
    decreases s.len(),
{
    if s.len() == 1 {
        assert(s.drop_last().len() == 0);
        assert(s.drop_first().len() == 0);
        assert(digits_num(s.drop_last()) == 0);
        assert(digits_num(s.drop_first()) == 0);
        assert(crate::decimal::pow10(0) == 1);
        assert(s.last() == s[0]);
    } else {
        let d = s.drop_last();
        let t = s.drop_first();
        lemma_digits_num_first(d);
        assert(d[0] == s[0]);
        assert(d.drop_first() =~= t.drop_last());
        assert(t.last() == s.last());
        assert(digits_num(t) == digits_num(t.drop_last()) * 10 + t.last());
        let p = crate::decimal::pow10((d.len() - 1) as nat);
        assert(crate::decimal::pow10((s.len() - 1) as nat) == 10 * p);
        let x = digits_num(d.drop_first());
        assert((s[0] * p + x) * 10 == s[0] * (10 * p) + x * 10) by (nonlinear_arith);
    }
}

proof fn lemma_pick_gap(idx: Seq<int>, i: int, j: int)
    requires
        forall|a: int, b: int| 0 <= a < b < idx.len() ==> #[trigger] idx[a] < #[trigger] idx[b],
        0 <= i <= j < idx.len(),
    ensures
        idx[j] - idx[i] >= j - i,
    decreases j - i,
{
    if i < j {
        lemma_pick_gap(idx, i, j - 1);
        assert(idx[j - 1] < idx[j]);
    }
}

/// On a bank of single digits, no choice of `s` batteries in order makes a larger
/// number than the greedy choice of `two`.
pub proof fn greedy_is_best(l: Seq<i32>, s: nat, idx: Seq<int>)
    requires
        is_digit_bank(l),
        l.len() >= s,
        is_pick(l, idx),
        idx.len() == s,
    ensures
        digits_num(picked(l, idx)) <= digits_num(greedy(l, s)),
    decreases s,
{
    let n = l.len();
    if s == 0 {
        assert(picked(l, idx).len() == 0);
    } else if s == n {
        assert forall|i: int| 0 <= i < s implies idx[i] == i by {
            lemma_pick_gap(idx, 0, i);
            lemma_pick_gap(idx, i, s - 1);
        }
        assert(picked(l, idx) =~= l);
    } else {
        let head = l.take(n - s + 1);
        lemma_first_max_pos(head);
        let pm = first_max_pos(head);
        let m = head[pm];
        let rest_l = l.skip(pm + 1);
        lemma_greedy_len(rest_l, (s - 1) as nat);
        let g_rest = greedy(rest_l, (s - 1) as nat);
        let g = greedy(l, s);
        assert(g == seq![m] + g_rest);
        let pk = picked(l, idx);
        lemma_pick_gap(idx, 0, s - 1);
        let i0 = idx[0];
        assert(i0 <= n - s);
        assert(head[i0] == l[i0]);
        assert(pk[0] == l[i0]);
        assert(0 <= m <= 9) by {
            assert(head[pm] == l[pm]);
        }
        lemma_digits_num_first(pk);
        lemma_digits_num_first(g);
        assert(g[0] == m);
        assert(g.drop_first() =~= g_rest);
        let p = crate::decimal::pow10((s - 1) as nat);
        assert(is_digit_bank(pk.drop_first())) by {
            assert forall|i: int| 0 <= i < pk.drop_first().len() implies 0 <= #[trigger] pk.drop_first()[i] <= 9 by {
                assert(pk.drop_first()[i] == l[idx[i + 1]]);
            }
        }
        lemma_digits_num_bounds(pk.drop_first());
        assert(is_digit_bank(rest_l)) by {
            assert forall|i: int| 0 <= i < rest_l.len() implies 0 <= #[trigger] rest_l[i] <= 9 by {
                assert(rest_l[i] == l[pm + 1 + i]);
            }
        }
        assert(is_digit_bank(g_rest)) by {
            assert forall|i: int| 0 <= i < g_rest.len() implies 0 <= #[trigger] g_rest[i] <= 9 by {
                lemma_greedy_digits(rest_l, (s - 1) as nat);
            }
        }
        lemma_digits_num_bounds(g_rest);
        if l[i0] < m {
            let a = l[i0];
            let x = digits_num(pk.drop_first());
            assert(a * p + x < m * p + digits_num(g_rest)) by (nonlinear_arith)
                requires
                    a < m,
                    0 <= x < p,
                    0 <= digits_num(g_rest),
            ;
        } else {
            assert(i0 >= pm) by {
                if i0 < pm {
                    assert(head[i0] < head[pm]);
                }
            }
            let idx2 = Seq::new((s - 1) as nat, |i: int| idx[i + 1] - (pm + 1));
            assert(is_pick(rest_l, idx2)) by {
                assert forall|i: int| 0 <= i < idx2.len() implies 0 <= #[trigger] idx2[i] < rest_l.len() by {
                    assert(idx[0] < idx[i + 1]);
                }
                assert forall|i: int, j: int| 0 <= i < j < idx2.len() implies #[trigger] idx2[i]
                    < #[trigger] idx2[j] by {
                    assert(idx[i + 1] < idx[j + 1]);
                }
            }
            greedy_is_best(rest_l, (s - 1) as nat, idx2);
            assert(picked(rest_l, idx2) =~= pk.drop_first()) by {
                assert forall|i: int| 0 <= i < idx2.len() implies picked(rest_l, idx2)[i]
                    == pk.drop_first()[i] by {
                    assert(rest_l[idx2[i]] == l[idx[i + 1]]);
                }
            }
        }
    }
}

proof fn lemma_greedy_digits(w: Seq<i32>, s: nat)
    requires
        is_digit_bank(w),
        w.len() >= s,
    ensures
        is_digit_bank(greedy(w, s)),
    decreases s,
{
    if s > 0 && s != w.len() {
        let head = w.take(w.len() - s + 1);
        lemma_first_max_pos(head);
        let pm = first_max_pos(head);
        let r = w.skip(pm + 1);
        assert(is_digit_bank(r)) by {
            assert forall|i: int| 0 <= i < r.len() implies 0 <= #[trigger] r[i] <= 9 by {
                assert(r[i] == w[pm + 1 + i]);
            }
        }
        lemma_greedy_digits(r, (s - 1) as nat);
        let g = greedy(w, s);
        assert forall|i: int| 0 <= i < g.len() implies 0 <= #[trigger] g[i] <= 9 by {
            if i == 0 {
                assert(head[pm] == w[pm]);
            } else {
                assert(g[i] == greedy(r, (s - 1) as nat)[i - 1]);
            }
        }
    }
}

/// The positions of the batteries `greedy` picks.
pub open spec fn greedy_idx(w: Seq<i32>, s: nat) -> Seq<int>
    decreases s,
{
    if s == 0 || w.len() < s {
        Seq::empty()
    } else if s == w.len() {
        Seq::new(s, |i: int| i)
    } else {
        let head = w.take(w.len() - s + 1);
        let pm = first_max_pos(head);
        seq![pm] + greedy_idx(w.skip(pm + 1), (s - 1) as nat).map_values(|x: int| x + pm + 1)
    }
}

proof fn lemma_greedy_idx(w: Seq<i32>, s: nat)
    requires
        w.len() >= s,
    ensures
        greedy_idx(w, s).len() == s,
        is_pick(w, greedy_idx(w, s)),
        picked(w, greedy_idx(w, s)) == greedy(w, s),
    decreases s,
{
    let gi = greedy_idx(w, s);
    if s == 0 {
        assert(picked(w, gi) =~= greedy(w, s));
    } else if s == w.len() {
        assert(picked(w, gi) =~= greedy(w, s));
    } else {
        let head = w.take(w.len() - s + 1);
        lemma_first_max_pos(head);
        let pm = first_max_pos(head);
        let r = w.skip(pm + 1);
        lemma_greedy_idx(r, (s - 1) as nat);
        let ri = greedy_idx(r, (s - 1) as nat);
        assert forall|i: int| 0 <= i < gi.len() implies 0 <= #[trigger] gi[i] < w.len() by {
            if i > 0 {
                assert(gi[i] == ri[i - 1] + pm + 1);
            }
        }
        assert forall|i: int, j: int| 0 <= i < j < gi.len() implies #[trigger] gi[i] < #[trigger] gi[j] by {
            assert(gi[j] == ri[j - 1] + pm + 1);
            if i > 0 {
                assert(gi[i] == ri[i - 1] + pm + 1);
            }
        }
        assert forall|i: int| 0 <= i < s implies #[trigger] picked(w, gi)[i] == greedy(w, s)[i] by {
            if i == 0 {
                assert(head[pm] == w[pm]);
            } else {
                assert(gi[i] == ri[i - 1] + pm + 1);
                assert(picked(r, ri)[i - 1] == r[ri[i - 1]]);
                assert(greedy(w, s)[i] == greedy(r, (s - 1) as nat)[i - 1]);
            }
        }
        lemma_greedy_len(w, s);
        assert(picked(w, gi) =~= greedy(w, s));
    }
}

proof fn lemma_big_of_digits(g: Seq<i32>)
    requires
        is_digit_bank(g),
    ensures
        crate::decimal::all_digits(crate::utils::joined(g)),
        crate::decimal::digits_value(crate::utils::joined(g)) == digits_num(g),
        crate::utils::joined(g).len() == g.len(),
    decreases g.len(),
{
    if g.len() > 0 {
        let d = g.drop_last();
        assert(is_digit_bank(d)) by {
            assert forall|i: int| 0 <= i < d.len() implies 0 <= #[trigger] d[i] <= 9 by {
                assert(d[i] == g[i]);
            }
        }
        lemma_big_of_digits(d);
        let x = g.last();
        assert(0 <= x <= 9);
        crate::decimal::lemma_digit_char(x as int);
        let c = dec_str(x as int);
        assert(c =~= seq![crate::decimal::digit_char(x as int)]);
        let jd = crate::utils::joined(d);
        crate::decimal::lemma_digits_value_concat(jd, c);
        assert(c.drop_last().len() == 0);
        assert(crate::decimal::digits_value(c.drop_last()) == 0);
        assert(crate::decimal::digits_value(c) == x);
        assert(crate::decimal::pow10(0) == 1);
        assert(crate::decimal::pow10(1) == 10 * crate::decimal::pow10(0));
        let j = crate::utils::joined(g);
        assert(crate::decimal::all_digits(j)) by {
            assert forall|i: int| 0 <= i < j.len() implies crate::decimal::is_digit(#[trigger] j[i]) by {
                if i < jd.len() {
                    assert(j[i] == jd[i]);
                } else {
                    assert(j[i] == c[0]);
                }
            }
        }
    }
}

/// On a bank of single digits with at least `s >= 1` batteries, `two`'s choice is one
/// choice of `s` batteries in order, no other such choice makes a larger number, and
/// the joltage read back is that number whenever it fits in an `i128`.
pub proof fn two_picks_largest(l: Seq<i32>, s: nat)
    requires
        is_digit_bank(l),
        l.len() >= s,
        s >= 1,
    ensures
        is_pick(l, greedy_idx(l, s)) && greedy_idx(l, s).len() == s && picked(l, greedy_idx(l, s))
            == greedy(l, s),
        forall|idx: Seq<int>|
            is_pick(l, idx) && idx.len() == s ==> digits_num(#[trigger] picked(l, idx)) <= digits_num(
                greedy(l, s),
            ),
        digits_num(greedy(l, s)) <= i128::MAX ==> big_of(greedy(l, s)) == Some(digits_num(greedy(l, s))),
{
    lemma_greedy_idx(l, s);
    assert forall|idx: Seq<int>| is_pick(l, idx) && idx.len() == s implies digits_num(
        #[trigger] picked(l, idx),
    ) <= digits_num(greedy(l, s)) by {
        greedy_is_best(l, s, idx);
    }
    let g = greedy(l, s);
    lemma_greedy_digits(l, s);
    lemma_greedy_len(l, s);
    lemma_big_of_digits(g);
    lemma_digits_num_bounds(g);
    let j = crate::utils::joined(g);
    assert(crate::decimal::is_digit(j[0]));
    assert(crate::decimal::parse_int(j) == Some(digits_num(g)));
}

proof fn lemma_first_max_unique(s: Seq<i32>, p: int)
    requires
        0 <= p < s.len(),
        forall|i: int| 0 <= i < s.len() ==> #[trigger] s[i] <= s[p],
        forall|i: int| 0 <= i < p ==> #[trigger] s[i] < s[p],
    ensures
        first_max_pos(s) == p,
{
    lemma_first_max_pos(s);
    let q = first_max_pos(s);
    if q < p {
        assert(s[q] < s[p]);
    }
    if p < q {
        assert(s[p] < s[q]);
    }
}

/// On a bank of single digits with at least two batteries, `two`'s choice of two
/// batteries is `one`'s pair, and the two joltages read back the same.
proof fn lemma_pair_is_greedy(l: Seq<i32>)
    requires
        is_digit_bank(l),
        l.len() >= 2,
    ensures
        greedy(l, 2) == seq![pair_of(l).0, pair_of(l).1],
        pair_value(l) is Some,
        big_of(greedy(l, 2)) == pair_value(l),
{
    let n = l.len();
    lemma_first_max_pos(l);
    let p = first_max_pos(l);
    if n == 2 {
        assert(greedy(l, 2) == l);
        if p == 1 {
            assert(l.take(1).len() == 1);
            assert(max_of(l.take(1)) == l[0]);
        } else {
            assert(l.skip(1).len() == 1);
            assert(max_of(l.skip(1)) == l[1]);
        }
        assert(l =~= seq![pair_of(l).0, pair_of(l).1]);
    } else {
        let head = l.take(n - 1);
        lemma_first_max_pos(head);
        let q = first_max_pos(head);
        let w = l.skip(q + 1);
        lemma_first_max_pos(w);
        assert(greedy(w, 1) == seq![max_of(w)]) by {
            if w.len() == 1 {
                assert(greedy(w, 1) == w);
                assert(w =~= seq![w[0]]);
            } else {
                assert(w.take(w.len() as int) =~= w);
                assert(greedy(w.skip(first_max_pos(w) + 1), 0) == Seq::<i32>::empty());
                assert(greedy(w, 1) =~= seq![max_of(w)]);
            }
        }
        assert(greedy(l, 2) == seq![head[q]] + greedy(w, 1));
        if p < n - 1 {
            lemma_first_max_unique(head, p);
            assert(head[q] == l[p]);
        } else {
            assert(head =~= l.take(p));
            assert(w[w.len() - 1] == l[p]);
            assert(max_of(w) == l[p]);
        }
        assert(greedy(l, 2) =~= seq![pair_of(l).0, pair_of(l).1]);
    }
    let g = greedy(l, 2);
    assert(is_digit_bank(g)) by {
        lemma_greedy_digits(l, 2);
    }
    lemma_big_of_digits(g);
    lemma_digits_num_bounds(g);
    assert(crate::decimal::pow10(2) == 100) by {
        reveal_with_fuel(crate::decimal::pow10, 3);
    }
    let j = crate::utils::joined(g);
    lemma_greedy_len(l, 2);
    assert(g.drop_last() =~= seq![g[0]]);
    assert(seq![g[0]].drop_last() =~= Seq::<i32>::empty());
    assert(j == crate::utils::joined(g.drop_last()) + dec_str(g.last() as int));
    assert(crate::utils::joined(seq![g[0]]) == crate::utils::joined(Seq::<i32>::empty()) + dec_str(g[0] as int));
    assert(crate::utils::joined(Seq::<i32>::empty()) + dec_str(g[0] as int) =~= dec_str(g[0] as int));
    assert(j == dec_str(g[0] as int) + dec_str(g[1] as int));
    assert(crate::decimal::is_digit(j[0]));
    assert(crate::decimal::parse_int(j) == Some(digits_num(g)));
}

/// On banks of single digits with at least two batteries each, `two` with two
/// batteries per bank sums the same joltages as `one`.
pub proof fn two_of_two_is_one(m: Seq<Vec<i32>>, k: int)
    requires
        forall|i: int| 0 <= i < m.len() ==> is_digit_bank(#[trigger] m[i]@) && m[i]@.len() >= 2,
        0 <= k <= m.len(),
    ensures
        picks_sum(m, 2, k) == pairs_sum(m, k),
    decreases k,
{
    if k > 0 {
        two_of_two_is_one(m, k - 1);
        lemma_pair_is_greedy(m[k - 1]@);
    }
}

/// The sum over the first `k` banks of the number made of `two`'s choice of `size`
/// batteries.
pub open spec fn largest_sum(m: Seq<Vec<i32>>, size: nat, k: int) -> int
    decreases k,
{
    if k <= 0 {
        0
    } else {
        largest_sum(m, size, k - 1) + digits_num(greedy(m[k - 1]@, size))
    }
}

/// On banks of single digits, with `size` of at most 38, `two` sums for each bank the
/// number its choice of `size` batteries makes, and no choice of `size` batteries in
/// order makes a larger number.
pub proof fn two_sums_largest(m: Seq<Vec<i32>>, size: nat, k: int)
    requires
        forall|i: int| 0 <= i < m.len() ==> is_digit_bank(#[trigger] m[i]@) && m[i]@.len() >= size,
        1 <= size <= 38,
        0 <= k <= m.len(),
    ensures
        picks_sum(m, size, k) == largest_sum(m, size, k),
        forall|i: int, idx: Seq<int>| 0 <= i < m.len() && is_pick(m[i]@, idx) && idx.len() == size
            ==> digits_num(#[trigger] picked(m[i]@, idx)) <= digits_num(greedy(m[i]@, size)),
    decreases k,
{
    assert forall|i: int, idx: Seq<int>| 0 <= i < m.len() && is_pick(m[i]@, idx) && idx.len() == size
        implies digits_num(#[trigger] picked(m[i]@, idx)) <= digits_num(greedy(m[i]@, size)) by {
        two_picks_largest(m[i]@, size);
    }
    if k > 0 {
        two_sums_largest(m, size, k - 1);
        let l = m[k - 1]@;
        let g = greedy(l, size);
        two_picks_largest(l, size);
        lemma_greedy_digits(l, size);
        lemma_greedy_len(l, size);
        lemma_digits_num_bounds(g);
        lemma_pow10_le(size, 38);
        assert(crate::decimal::pow10(38) == 100000000000000000000000000000000000000) by {
            reveal_with_fuel(crate::decimal::pow10, 39);
        }
    }
}

proof fn lemma_pow10_le(k: nat, m: nat)
    requires
        k <= m,
    ensures
        crate::decimal::pow10(k) <= crate::decimal::pow10(m),
    decreases m,
{
    if k < m {
        lemma_pow10_le(k, (m - 1) as nat);
        assert(crate::decimal::pow10(m) == 10 * crate::decimal::pow10((m - 1) as nat));
        lemma_pow10_pos((m - 1) as nat);
    }
}

proof fn lemma_pow10_pos(k: nat)
    ensures
        crate::decimal::pow10(k) > 0,
    decreases k,
{
    if k > 0 {
        lemma_pow10_pos((k - 1) as nat);
    }
}

/// On banks of single digits, with `size` of at most 38, `two` runs exactly when the
/// sums of the largest picks over the first banks stay within `i128`: each pick then
/// reads back as its number, so no other bound is needed.
pub proof fn two_ok_on_digit_banks(m: Seq<Vec<i32>>, size: nat)
    requires
        forall|i: int| 0 <= i < m.len() ==> is_digit_bank(#[trigger] m[i]@) && m[i]@.len() >= size,
        1 <= size <= 38,
        forall|k: int| 0 <= k <= m.len() ==> #[trigger] largest_sum(m, size, k) <= i128::MAX,
    ensures
        two_ok(m, size),
{
    assert forall|i: int| 0 <= i < m.len() implies (#[trigger] m[i]@).len() >= size && big_of(greedy(m[i]@, size)) is Some by {
        let l = m[i]@;
        let g = greedy(l, size);
        two_picks_largest(l, size);
        lemma_greedy_digits(l, size);
        lemma_greedy_len(l, size);
        lemma_digits_num_bounds(g);
        lemma_pow10_le(size, 38);
        assert(crate::decimal::pow10(38) == 100000000000000000000000000000000000000) by {
            reveal_with_fuel(crate::decimal::pow10, 39);
        }
    }
    assert forall|k: int| 0 <= k <= m.len() implies i128::MIN <= #[trigger] picks_sum(m, size, k) <= i128::MAX by {
        two_sums_largest(m, size, k);
        lemma_largest_sum_nonneg(m, size, k);
    }
}

proof fn lemma_largest_sum_nonneg(m: Seq<Vec<i32>>, size: nat, k: int)
    requires
        forall|i: int| 0 <= i < m.len() ==> is_digit_bank(#[trigger] m[i]@) && m[i]@.len() >= size,
        0 <= k <= m.len(),
    ensures
        largest_sum(m, size, k) >= 0,
    decreases k,
{
    if k > 0 {
        lemma_largest_sum_nonneg(m, size, k - 1);
        lemma_greedy_digits(m[k - 1]@, size);
        lemma_digits_num_bounds(greedy(m[k - 1]@, size));
    }
}

} // verus!
