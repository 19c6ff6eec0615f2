//! Invalid product ids: numbers whose decimal digits are one block of digits written
//! several times in a row, summed over a range of ids.
use vstd::prelude::*;
use vstd::slice::slice_subrange;
use crate::decimal::{
    all_digits, dec_str, digits_value, is_digit, lemma_digits_value_concat,
    lemma_digits_value_nonneg, lemma_digits_value_prefix_le, lemma_nat_str, nat_str, parse_in, parse_int, pow10, int_to_chars,
    parse_i64, digit_value,
};
use crate::text::chars_of;

verus! {

/// `s` written `k` times in a row.
pub open spec fn repeat_chars(s: Seq<char>, k: nat) -> Seq<char>
    decreases k,
{
    if k == 0 {
        Seq::empty()
    } else {
        repeat_chars(s, (k - 1) as nat) + s
    }
}

/// The number whose digits are those of `c` written `k` times in a row.
pub open spec fn rep_value(c: nat, k: nat) -> int {
    digits_value(repeat_chars(nat_str(c), k))
}

proof fn lemma_pow10(i: nat, j: nat)
    requires
        i <= j,
    ensures
        1 <= pow10(i) <= pow10(j),
        i < j ==> pow10(i) < pow10(j),
    decreases j,
{
    if i < j {
        lemma_pow10(i, (j - 1) as nat);
    } else if i > 0 {
        lemma_pow10((i - 1) as nat, (i - 1) as nat);
    }
}

/// A digit string that does not start with `0` is at least `10^(len - 1)`.
proof fn lemma_leading_digit(s: Seq<char>)
    requires
        all_digits(s),
        s.len() >= 1,
        s[0] != '0',
    ensures
        digits_value(s) >= pow10((s.len() - 1) as nat),
    decreases s.len(),
{
    let d = s.drop_last();
    assert(is_digit(s[s.len() - 1]));
    if s.len() == 1 {
        assert(d.len() == 0);
        assert(digits_value(d) == 0);
        assert(s.last() == s[0]);
    } else {
        assert(all_digits(d)) by {
            assert forall|i: int| 0 <= i < d.len() implies is_digit(#[trigger] d[i]) by {
                assert(d[i] == s[i]);
            }
        }
        assert(d[0] == s[0]);
        lemma_leading_digit(d);
    }
}

proof fn lemma_repeat_chars(s: Seq<char>, k: nat)
    requires
        all_digits(s),
    ensures
        all_digits(repeat_chars(s, k)),
        repeat_chars(s, k).len() == k * s.len(),
        k >= 1 && s.len() >= 1 ==> repeat_chars(s, k)[0] == s[0],
    decreases k,
{
    if k > 0 {
        let p = repeat_chars(s, (k - 1) as nat);
        lemma_repeat_chars(s, (k - 1) as nat);
        assert(all_digits(p + s)) by {
            assert forall|i: int| 0 <= i < (p + s).len() implies is_digit(#[trigger] (p + s)[i]) by {
                if i < p.len() {
                    assert((p + s)[i] == p[i]);
                } else {
                    assert((p + s)[i] == s[i - p.len()]);
                }
            }
        }
        assert(k * s.len() == (k - 1) * s.len() + s.len()) by (nonlinear_arith);
        if k == 1 {
            assert(p.len() == 0);
        }
    }
}

proof fn lemma_nat_str_lead(c: nat)
    requires
        c >= 1,
    ensures
        nat_str(c)[0] != '0',
        pow10((nat_str(c).len() - 1) as nat) <= c < pow10(nat_str(c).len()),
{
    lemma_nat_str(c);
    if c < 10 {
        assert(nat_str(c)[0] == crate::decimal::digit_char(c as int));
        crate::decimal::lemma_digit_char(c as int);
    }
    lemma_leading_digit(nat_str(c));
    lemma_digits_value_nonneg(nat_str(c));
}

/// One more copy of the block: `rep(c, k) = rep(c, k - 1) * 10^len + c`.
proof fn lemma_rep_step(c: nat, k: nat)
    requires
        k >= 1,
    ensures
        rep_value(c, k) == rep_value(c, (k - 1) as nat) * pow10(nat_str(c).len()) + c,
        rep_value(c, k) >= c,
        rep_value(c, (k - 1) as nat) >= 0,
{
    lemma_nat_str(c);
    lemma_digits_value_concat(repeat_chars(nat_str(c), (k - 1) as nat), nat_str(c));
    lemma_repeat_chars(nat_str(c), (k - 1) as nat);
    lemma_digits_value_nonneg(repeat_chars(nat_str(c), (k - 1) as nat));
    lemma_pow10(0, nat_str(c).len());
    let x = rep_value(c, (k - 1) as nat);
    let p = pow10(nat_str(c).len());
    assert(x * p >= 0) by (nonlinear_arith)
        requires
            x >= 0,
            p >= 1,
    ;
}

/// Repeating a larger block gives a larger number.
proof fn lemma_rep_increasing(c: nat, d: nat, k: nat)
    requires
        1 <= c < d,
        k >= 1,
    ensures
        rep_value(c, k) < rep_value(d, k),
    decreases k,
{
    let lc = nat_str(c).len();
    let ld = nat_str(d).len();
    lemma_nat_str_lead(c);
    lemma_nat_str_lead(d);
    if lc > ld {
        lemma_pow10(ld, (lc - 1) as nat);
        assert(false);
    }
    if lc == ld {
        lemma_rep_step(c, k);
        lemma_rep_step(d, k);
        let x = rep_value(c, (k - 1) as nat);
        let y = rep_value(d, (k - 1) as nat);
        let p = pow10(lc);
        if k == 1 {
            assert(repeat_chars(nat_str(c), 0) =~= Seq::<char>::empty());
            assert(repeat_chars(nat_str(d), 0) =~= Seq::<char>::empty());
        } else {
            lemma_rep_increasing(c, d, (k - 1) as nat);
        }
        assert(x <= y);
        assert(x * p <= y * p) by (nonlinear_arith)
            requires
                x <= y,
                p >= 1,
        ;
    } else {
        let sc = repeat_chars(nat_str(c), k);
        let sd = repeat_chars(nat_str(d), k);
        lemma_nat_str(c);
        lemma_nat_str(d);
        lemma_repeat_chars(nat_str(c), k);
        lemma_repeat_chars(nat_str(d), k);
        lemma_digits_value_nonneg(sc);
        lemma_leading_digit(sd);
        assert(k * lc <= k * ld - 1) by (nonlinear_arith)
            requires
                lc < ld,
                k >= 1,
        ;
        lemma_pow10(sc.len(), (sd.len() - 1) as nat);
    }
}

/// How `i64::from_str` reads a repeated block: its value, unless that overflows.
proof fn lemma_rep_parse(c: nat, k: nat)
    requires
        k >= 1,
    ensures
        rep_value(c, k) >= 0,
        parse_in(repeat_chars(nat_str(c), k), i64::MIN as int, i64::MAX as int) == (if rep_value(c, k)
            <= i64::MAX {
            Some(rep_value(c, k))
        } else {
            None::<int>
        }),
{
    lemma_nat_str(c);
    lemma_repeat_chars(nat_str(c), k);
    let s = repeat_chars(nat_str(c), k);
    lemma_digits_value_nonneg(s);
    assert(is_digit(s[0]));
    assert(parse_int(s) == Some(digits_value(s)));
}

pub open spec fn parse_i64_spec(s: Seq<char>) -> Option<int> {
    parse_in(s, i64::MIN as int, i64::MAX as int)
}

/// What `format!("{}{}", c, c)` reads back as an `i64`.
pub open spec fn doubled(c: int) -> Option<int> {
    parse_i64_spec(dec_str(c) + dec_str(c))
}

/// What a counter written twice reads as: nothing for a negative counter, else the
/// block written twice while it fits an `i64`; it is at least the counter.
pub proof fn lemma_doubled(c: int)
    ensures
        c < 0 ==> doubled(c) is None,
        c >= 0 ==> doubled(c) == (if rep_value(c as nat, 2) <= i64::MAX {
            Some(rep_value(c as nat, 2))
        } else {
            None::<int>
        }),
        c >= 0 ==> rep_value(c as nat, 2) >= c,
        c >= 1 ==> rep_value(c as nat, 2) > c,
{
    if c < 0 {
        let t = nat_str((-c) as nat);
        lemma_nat_str((-c) as nat);
        let s = dec_str(c) + dec_str(c);
        assert(s[0] == '-');
        assert(s.drop_first()[t.len() as int] == '-');
        assert(!all_digits(s.drop_first()));
    } else {
        let n = c as nat;
        assert(repeat_chars(nat_str(n), 2) =~= nat_str(n) + nat_str(n)) by {
            assert(repeat_chars(nat_str(n), 0) =~= Seq::<char>::empty());
            assert(repeat_chars(nat_str(n), 1) =~= nat_str(n));
        }
        lemma_rep_parse(n, 2);
        lemma_rep_step(n, 2);
        lemma_rep_step(n, 1);
        lemma_pow10(0, nat_str(n).len());
        if c >= 1 {
            let x = rep_value(n, 1);
            let p = pow10(nat_str(n).len());
            assert(x * p >= x) by (nonlinear_arith)
                requires
                    x >= 1,
                    p >= 1,
            ;
            assert(repeat_chars(nat_str(n), 0) =~= Seq::<char>::empty());
            assert(digits_value(Seq::<char>::empty()) == 0);
        }
    }
}

/// The sum that the doubling walk makes from counter `c`: while `c` written twice reads
/// as an `i64` of at most `b`, add it when it is at least `a`, and go on with `c + 1`.
pub open spec fn doubled_sum(c: int, a: int, b: int) -> int
    decreases b + 1 - c,
{
    match doubled(c) {
        Some(v) => if v <= b {
            proof {
                lemma_doubled(c);
            }
            (if v >= a {
                v
            } else {
                0
            }) + doubled_sum(c + 1, a, b)
        } else {
            0
        },
        None => 0,
    }
}

proof fn lemma_doubled_sum_nonneg(c: int, a: int, b: int)
    ensures
        doubled_sum(c, a, b) >= 0,
    decreases b + 1 - c,
{
    lemma_doubled(c);
    match doubled(c) {
        Some(v) => if v <= b {
            lemma_doubled_sum_nonneg(c + 1, a, b);
        },
        None => {},
    }
}

/// The counter the doubling walk starts from: the first half of `num1`'s characters,
/// or `1` when `num1` has at most one character.
pub open spec fn half_of(s: Seq<char>) -> Seq<char> {
    if s.len() > 1 {
        s.take((s.len() / 2) as int)
    } else {
        seq!['1']
    }
}

/// When `check1` runs without a panic or an overflow.
pub open spec fn check1_ok(num1: Seq<char>, num2: Seq<char>) -> bool {
    match (parse_i64_spec(num1), parse_i64_spec(num2)) {
        (Some(a), Some(b)) => match parse_i64_spec(half_of(num1)) {
            Some(c) => doubled_sum(c, a, b) <= i64::MAX,
            None => false,
        },
        _ => true,
    }
}

/// What `check1` returns.
pub open spec fn check1_spec(num1: Seq<char>, num2: Seq<char>) -> int {
    match (parse_i64_spec(num1), parse_i64_spec(num2), parse_i64_spec(half_of(num1))) {
        (Some(a), Some(b), Some(c)) => doubled_sum(c, a, b),
        _ => 0,
    }
}

fn concat_chars(x: &[char], y: &[char]) -> (r: Vec<char>)
    ensures
        r@ == x@ + y@,
{
    let mut out: Vec<char> = Vec::new();
    let mut i: usize = 0;
    while i < x.len()
        invariant
            i <= x.len(),
            out@ == x@.take(i as int),
        decreases x.len() - i,
    {
        out.push(x[i]);
        i += 1;
        assert(out@ =~= x@.take(i as int));
    }
    let mut j: usize = 0;
    while j < y.len()
        invariant
            j <= y.len(),
            out@ == x@ + y@.take(j as int),
        decreases y.len() - j,
    {
        out.push(y[j]);
        j += 1;
        assert(out@ =~= x@ + y@.take(j as int));
    }
    assert(x@.take(x.len() as int) =~= x@);
    assert(y@.take(y.len() as int) =~= y@);
    out
}

/// `format!("{}{}", c, c)` read back as an `i64`.
fn doubled_value(c: i64) -> (r: Option<i64>)
    ensures
        r == (match doubled(c as int) {
            Some(v) => Some(v as i64),
            None => None,
        }),
{
    let s = int_to_chars(c as i128);
    let t = concat_chars(s.as_slice(), s.as_slice());
    parse_i64(t.as_slice())
}

/// Sums the ids in `num1..=num2` that are a block of digits written twice, walking the
/// blocks upward from the first half of `num1`.
pub fn check1(num1: &str, num2: &str) -> (r: i64)
    requires
        check1_ok(num1@, num2@),
    ensures
        r == check1_spec(num1@, num2@),
{
    let cs1 = chars_of(num1);
    let cs2 = chars_of(num2);
    let (a, b) = match (parse_i64(cs1.as_slice()), parse_i64(cs2.as_slice())) {
        (Some(a), Some(b)) => (a, b),
        _ => {
            return 0;
        },
    };
    let half: Vec<char> = if cs1.len() > 1 {
        let h = slice_subrange(cs1.as_slice(), 0, cs1.len() / 2);
        assert(h@ =~= cs1@.take((cs1@.len() / 2) as int));
        vstd::slice::slice_to_vec(h)
    } else {
        vec!['1']
    };
    assert(half@ =~= half_of(num1@));
    let mut counter: i64 = parse_i64(half.as_slice()).unwrap();
    let ghost total = doubled_sum(counter as int, a as int, b as int);
    let mut res: i64 = 0;
    proof {
        lemma_doubled_sum_nonneg(counter as int, a as int, b as int);
    }
    loop
        invariant_except_break
            res + doubled_sum(counter as int, a as int, b as int) == total,
            res >= 0,
            doubled_sum(counter as int, a as int, b as int) >= 0,
            total <= i64::MAX,
        ensures
            res == total,
        decreases b + 1 - counter,
    {
        let d = doubled_value(counter);
        proof {
            lemma_doubled(counter as int);
        }
        match d {
            Some(v) => {
                if v <= b {
                    proof {
                        lemma_doubled_sum_nonneg(counter + 1, a as int, b as int);
                    }
                    if v >= a {
                        res += v;
                    }
                    counter += 1;
                } else {
                    break;
                }
            },
            None => {
                break;
            },
        }
    }
    res
}

/// `check1`, where it runs: `None` exactly where `check1` would panic or overflow.
pub fn check1_checked(num1: &str, num2: &str) -> (r: Option<i64>)
    ensures
        r is Some <==> check1_ok(num1@, num2@),
        r matches Some(v) ==> v == check1_spec(num1@, num2@),
{
    let cs1 = chars_of(num1);
    let cs2 = chars_of(num2);
    let (a, b) = match (parse_i64(cs1.as_slice()), parse_i64(cs2.as_slice())) {
        (Some(a), Some(b)) => (a, b),
        _ => {
            return Some(0);
        },
    };
    let half: Vec<char> = if cs1.len() > 1 {
        let h = slice_subrange(cs1.as_slice(), 0, cs1.len() / 2);
        assert(h@ =~= cs1@.take((cs1@.len() / 2) as int));
        vstd::slice::slice_to_vec(h)
    } else {
        vec!['1']
    };
    assert(half@ =~= half_of(num1@));
    let mut counter: i64 = match parse_i64(half.as_slice()) {
        Some(c) => c,
        None => {
            return None;
        },
    };
    let ghost total = doubled_sum(counter as int, a as int, b as int);
    let mut res: i64 = 0;
    proof {
        lemma_doubled_sum_nonneg(counter as int, a as int, b as int);
    }
    loop
        invariant_except_break
            res + doubled_sum(counter as int, a as int, b as int) == total,
            res >= 0,
            doubled_sum(counter as int, a as int, b as int) >= 0,
            check1_ok(num1@, num2@) <==> total <= i64::MAX,
            check1_spec(num1@, num2@) == total,
        ensures
            res == total,
        decreases b + 1 - counter,
    {
        let d = doubled_value(counter);
        proof {
            lemma_doubled(counter as int);
        }
        match d {
            Some(v) => {
                if v <= b {
                    proof {
                        lemma_doubled_sum_nonneg(counter + 1, a as int, b as int);
                        assert(doubled_sum(counter as int, a as int, b as int) == (if v >= a { v as int } else { 0 })
                            + doubled_sum(counter + 1, a as int, b as int));
                    }
                    if v >= a {
                        res = match res.checked_add(v) {
                            Some(t) => t,
                            None => {
                                return None;
                            },
                        };
                    }
                    counter += 1;
                } else {
                    break;
                }
            },
            None => {
                break;
            },
        }
    }
    Some(res)
}

/// Whether `x` is some block `c >= 1` written `k` times.
pub open spec fn is_rep_of(x: int, k: nat) -> bool {
    exists|c: nat| c >= 1 && #[trigger] rep_value(c, k) == x
}

/// The ids in `a..=b` that are a block written `k` times, for some `k` in `2..=n`.
pub open spec fn rep_ids(a: int, b: int, n: nat) -> Set<int> {
    Set::new(|x: int| a <= x <= b && exists|k: nat| 2 <= k <= n && #[trigger] is_rep_of(x, k))
}

pub open spec fn add_int() -> spec_fn(int, int) -> int {
    |acc: int, x: int| acc + x
}

/// The sum of a finite set of integers.
pub open spec fn set_sum(s: Set<int>) -> int {
    s.fold(0, add_int())
}

/// The counter `c` is reached in the walk over blocks written `k` times: every smaller
/// counter gave a number of at most `b`.
pub open spec fn reached(c: nat, k: nat, b: int) -> bool {
    forall|d: nat| 1 <= d < c ==> #[trigger] rep_value(d, k) <= b
}

/// The walk over blocks written `k` times neither overflows its `i32` counter nor reads
/// a number beyond `i64`.
pub open spec fn pass_ok(k: nat, b: int) -> bool {
    forall|c: nat| c >= 1 && #[trigger] reached(c, k, b) ==> c <= i32::MAX && rep_value(c, k) <= i64::MAX
}

/// When `check2` runs without a panic or an overflow.
pub open spec fn check2_ok(num1: Seq<char>, num2: Seq<char>) -> bool {
    match (parse_i64_spec(num1), parse_i64_spec(num2)) {
        (Some(a), Some(b)) => {
            &&& forall|k: nat| 2 <= k <= num2.len() ==> #[trigger] pass_ok(k, b)
            &&& set_sum(rep_ids(a, b, num2.len())) <= i64::MAX
        },
        _ => true,
    }
}

/// What `check2` returns: the sum of the distinct ids in `num1..=num2` that are a block
/// written between 2 and (characters of `num2`) times.
pub open spec fn check2_spec(num1: Seq<char>, num2: Seq<char>) -> int {
    match (parse_i64_spec(num1), parse_i64_spec(num2)) {
        (Some(a), Some(b)) => set_sum(rep_ids(a, b, num2.len())),
        _ => 0,
    }
}

proof fn lemma_set_sum_insert(s: Set<int>, x: int)
    requires
        s.finite(),
        !s.contains(x),
    ensures
        set_sum(s.insert(x)) == set_sum(s) + x,
{
    assert(vstd::set::fold::is_fun_commutative(add_int()));
    vstd::set::fold::lemma_fold_insert(s, 0, add_int(), x);
}

proof fn lemma_set_sum_empty()
    ensures
        set_sum(Set::<int>::empty()) == 0,
{
    vstd::set::fold::lemma_fold_empty(0, add_int());
}

/// Of a finite set of non-negative numbers, a subset has a sum no larger.
proof fn lemma_set_sum_subset(s: Set<int>, t: Set<int>)
    requires
        t.finite(),
        s.subset_of(t),
        forall|x: int| t.contains(x) ==> x >= 0,
    ensures
        set_sum(s) <= set_sum(t),
    decreases t.len(),
{
    vstd::set_lib::lemma_len_subset(s, t);
    if !(t.subset_of(s)) {
        let y = choose|y: int| t.contains(y) && !s.contains(y);
        let t2 = t.remove(y);
        assert(t2.insert(y) =~= t);
        lemma_set_sum_insert(t2, y);
        lemma_set_sum_subset(s, t2);
    } else {
        assert(s =~= t);
    }
}

proof fn lemma_rep_ids_facts(a: int, b: int, n: nat)
    ensures
        rep_ids(a, b, n).finite(),
        forall|x: int| rep_ids(a, b, n).contains(x) ==> x >= 1,
{
    let r = rep_ids(a, b, n);
    let box_ = vstd::set_lib::set_int_range(a, b + 1);
    if a <= b + 1 {
        vstd::set_lib::lemma_int_range(a, b + 1);
        assert(r.subset_of(box_));
        vstd::set_lib::lemma_len_subset(r, box_);
    } else {
        assert(r =~= Set::empty());
    }
    assert forall|x: int| r.contains(x) implies x >= 1 by {
        let k = choose|k: nat| 2 <= k <= n && #[trigger] is_rep_of(x, k);
        let c = choose|c: nat| c >= 1 && #[trigger] rep_value(c, k) == x;
        lemma_rep_step(c, k);
    }
}

/// The ids in `a..=b` met so far in the walk over blocks written `k` times.
pub open spec fn pass_upto(a: int, b: int, k: nat, m: nat) -> Set<int> {
    Set::new(|x: int| a <= x <= b && exists|c: nat| 1 <= c <= m && #[trigger] rep_value(c, k) == x)
}

fn contains_i64(v: &Vec<i64>, x: i64) -> (r: bool)
    ensures
        r == v@.contains(x),
{
    let mut i: usize = 0;
    while i < v.len()
        invariant
            i <= v.len(),
            forall|j: int| 0 <= j < i ==> v@[j] != x,
        decreases v.len() - i,
    {
        if v[i] == x {
            return true;
        }
        i += 1;
    }
    false
}

/// The block `c` written `k` times, read as an `i64`.
fn rep_number(c: i32, k: usize) -> (r: i64)
    requires
        c >= 1,
        k >= 1,
        rep_value(c as nat, k as nat) <= i64::MAX,
    ensures
        r == rep_value(c as nat, k as nat),
{
    let s = int_to_chars(c as i128);
    assert(s@ == nat_str(c as nat));
    let mut t: Vec<char> = Vec::new();
    let mut i: usize = 0;
    while i < k
        invariant
            i <= k,
            s@ == nat_str(c as nat),
            t@ == repeat_chars(s@, i as nat),
        decreases k - i,
    {
        t = concat_chars(t.as_slice(), s.as_slice());
        i += 1;
    }
    proof {
        lemma_rep_parse(c as nat, k as nat);
    }
    parse_i64(t.as_slice()).unwrap()
}

/// Sums the distinct ids in `num1..=num2` that are a block of digits written at least
/// twice (and at most as many times as `num2` has characters).
pub fn check2(num1: &str, num2: &str) -> (r: i64)
    requires
        check2_ok(num1@, num2@),
    ensures
        r == check2_spec(num1@, num2@),
{
    let cs1 = chars_of(num1);
    let cs2 = chars_of(num2);
    let (a, b) = match (parse_i64(cs1.as_slice()), parse_i64(cs2.as_slice())) {
        (Some(a), Some(b)) => (a, b),
        _ => {
            return 0;
        },
    };
    let n = cs2.len();
    let ghost total = rep_ids(a as int, b as int, n as nat);
    let mut store: Vec<i64> = Vec::new();
    let ghost mut seen: Set<int> = Set::empty();
    let mut res: i64 = 0;
    let mut k: usize = 1;
    proof {
        lemma_rep_ids_facts(a as int, b as int, n as nat);
        lemma_set_sum_empty();
        assert(seen =~= rep_ids(a as int, b as int, 1));
    }
    while k < n
        invariant
            1 <= k,
            k <= n || k == 1,
            n == num2@.len(),
            total == rep_ids(a as int, b as int, n as nat),
            total.finite(),
            forall|x: int| total.contains(x) ==> x >= 1,
            set_sum(total) <= i64::MAX,
            forall|k2: nat| 2 <= k2 <= n ==> #[trigger] pass_ok(k2, b as int),
            seen == rep_ids(a as int, b as int, k as nat),
            seen.finite(),
            forall|v: i64| store@.contains(v) <==> seen.contains(v as int),
            res == set_sum(seen),
        decreases n - k,
    {
        k += 1;
        let ghost base = seen;
        let mut counter: i32 = 0;
        let mut go = true;
        proof {
            assert(pass_ok(k as nat, b as int));
            assert(seen =~= base.union(pass_upto(a as int, b as int, k as nat, 0)));
        }
        while go
            invariant
                2 <= k <= n,
                0 <= counter,
                go ==> reached((counter + 1) as nat, k as nat, b as int),
                !go ==> counter >= 1 && rep_value(counter as nat, k as nat) > b,
                pass_ok(k as nat, b as int),
                base == rep_ids(a as int, b as int, (k - 1) as nat),
                seen == base.union(pass_upto(a as int, b as int, k as nat, counter as nat)),
                total == rep_ids(a as int, b as int, n as nat),
                total.finite(),
                forall|x: int| total.contains(x) ==> x >= 1,
                set_sum(total) <= i64::MAX,
                seen.finite(),
                forall|v: i64| store@.contains(v) <==> seen.contains(v as int),
                res == set_sum(seen),
            decreases (if go {
                i32::MAX + 1 - counter
            } else {
                0
            }),
        {
            proof {
                assert(reached((counter + 1) as nat, k as nat, b as int));
            }
            counter += 1;
            let v = rep_number(counter, k);
            let ghost old_seen = seen;
            let ghost c = counter as nat;
            proof {
                lemma_rep_step(c, k as nat);
            }
            if !contains_i64(&store, v) {
                if v <= b {
                    if v >= a {
                        proof {
                            assert(is_rep_of(v as int, k as nat));
                            assert(total.contains(v as int));
                            assert(!seen.contains(v as int));
                            lemma_set_sum_insert(seen, v as int);
                            seen = seen.insert(v as int);
                            assert(seen.subset_of(total)) by {
                                assert forall|x: int| seen.contains(x) implies total.contains(x) by {
                                    if base.contains(x) {
                                        let k2 = choose|k2: nat| 2 <= k2 <= k - 1 && #[trigger] is_rep_of(x, k2);
                                    } else if x != v {
                                        let c2 = choose|c2: nat| 1 <= c2 <= c - 1 && #[trigger] rep_value(c2, k as nat) == x;
                                        assert(is_rep_of(x, k as nat));
                                    }
                                }
                            }
                            lemma_set_sum_subset(seen, total);
                        }
                        let ghost old_store = store@;
                        store.push(v);
                        res += v;
                        proof {
                            assert forall|w: i64| store@.contains(w) <==> seen.contains(w as int) by {
                                if store@.contains(w) && w != v {
                                    let j = choose|j: int| 0 <= j < store@.len() && store@[j] == w;
                                    assert(old_store[j] == w);
                                    assert(old_store.contains(w));
                                }
                                if seen.contains(w as int) && w != v {
                                    assert(old_seen.contains(w as int));
                                    assert(old_store.contains(w));
                                    let j = choose|j: int| 0 <= j < old_store.len() && old_store[j] == w;
                                    assert(store@[j] == w);
                                }
                                if w == v {
                                    assert(store@[old_store.len() as int] == v);
                                }
                            }
                        }
                    }
                } else {
                    go = false;
                }
            } else {
                assert(store@.contains(v));
                assert(seen.contains(v as int));
                assert(v <= b) by {
                    if !base.contains(v as int) {
                        assert(pass_upto(a as int, b as int, k as nat, (c - 1) as nat).contains(v as int));
                    }
                }
            }
            proof {
                let pu = pass_upto(a as int, b as int, k as nat, c);
                let pu0 = pass_upto(a as int, b as int, k as nat, (c - 1) as nat);
                assert forall|x: int| seen.contains(x) <==> base.union(pu).contains(x) by {
                    if pu.contains(x) && x != v {
                        let c2 = choose|c2: nat| 1 <= c2 <= c && #[trigger] rep_value(c2, k as nat) == x;
                        assert(pu0.contains(x));
                    }
                    if pu0.contains(x) {
                        let c2 = choose|c2: nat| 1 <= c2 <= c - 1 && #[trigger] rep_value(c2, k as nat) == x;
                        assert(pu.contains(x));
                    }
                    if x == v && a <= v <= b {
                        assert(pu.contains(x));
                    }
                }
                assert(seen =~= base.union(pu));
                if go {
                    assert forall|d: nat| 1 <= d < c + 1 implies #[trigger] rep_value(d, k as nat) <= b by {
                        if d < c {
                            assert(reached(c, k as nat, b as int));
                        }
                    }
                }
            }
        }
        proof {
            let pu = pass_upto(a as int, b as int, k as nat, counter as nat);
            let next = rep_ids(a as int, b as int, k as nat);
            assert forall|x: int| next.contains(x) <==> base.union(pu).contains(x) by {
                if next.contains(x) {
                    let k2 = choose|k2: nat| 2 <= k2 <= k && #[trigger] is_rep_of(x, k2);
                    if k2 < k {
                        assert(base.contains(x));
                    } else {
                        let c2 = choose|c2: nat| c2 >= 1 && #[trigger] rep_value(c2, k as nat) == x;
                        if c2 > counter {
                            lemma_rep_increasing(counter as nat, c2, k as nat);
                        }
                        assert(pu.contains(x));
                    }
                }
                if pu.contains(x) {
                    let c2 = choose|c2: nat| 1 <= c2 <= counter && #[trigger] rep_value(c2, k as nat) == x;
                    assert(is_rep_of(x, k as nat));
                }
                if base.contains(x) {
                    let k2 = choose|k2: nat| 2 <= k2 <= k - 1 && #[trigger] is_rep_of(x, k2);
                }
            }
            assert(seen =~= next);
        }
    }
    assert(seen =~= total) by {
        if n < 1 {
            assert forall|x: int| !total.contains(x) by {}
            assert forall|x: int| !seen.contains(x) by {}
        }
    }
    res
}

/// The ids in `a..=b` whose digits are one block written at least twice.
pub open spec fn invalid_ids(a: int, b: int) -> Set<int> {
    Set::new(|x: int| a <= x <= b && exists|k: nat| k >= 2 && #[trigger] is_rep_of(x, k))
}

proof fn lemma_parse_bound(s: Seq<char>)
    requires
        parse_i64_spec(s) is Some,
    ensures
        parse_i64_spec(s).unwrap() < pow10(s.len()),
{
    let v = parse_i64_spec(s).unwrap();
    if s.len() > 0 && (s[0] == '+' || s[0] == '-') {
        let rest = s.drop_first();
        lemma_digits_value_nonneg(rest);
        lemma_pow10(rest.len(), s.len());
    } else {
        lemma_digits_value_nonneg(s);
    }
}

proof fn lemma_rep_lower(c: nat, k: nat)
    requires
        c >= 1,
        k >= 1,
    ensures
        rep_value(c, k) >= pow10((k - 1) as nat),
{
    lemma_nat_str_lead(c);
    lemma_nat_str(c);
    let sc = repeat_chars(nat_str(c), k);
    lemma_repeat_chars(nat_str(c), k);
    lemma_leading_digit(sc);
    assert(k * nat_str(c).len() >= k) by (nonlinear_arith)
        requires
            nat_str(c).len() >= 1,
    ;
    lemma_pow10((k - 1) as nat, (sc.len() - 1) as nat);
}

/// `check2` sums exactly the distinct ids in the range that are one block of digits
/// written at least twice: the cap on the number of copies never leaves one out.
pub proof fn check2_sums_invalid_ids(num1: Seq<char>, num2: Seq<char>)
    ensures
        check2_spec(num1, num2) == (match (parse_i64_spec(num1), parse_i64_spec(num2)) {
            (Some(a), Some(b)) => set_sum(invalid_ids(a, b)),
            _ => 0,
        }),
{
    if let (Some(a), Some(b)) = (parse_i64_spec(num1), parse_i64_spec(num2)) {
        let n = num2.len();
        lemma_parse_bound(num2);
        assert forall|x: int| rep_ids(a, b, n).contains(x) <==> invalid_ids(a, b).contains(x) by {
            if invalid_ids(a, b).contains(x) {
                let k = choose|k: nat| k >= 2 && #[trigger] is_rep_of(x, k);
                let c = choose|c: nat| c >= 1 && #[trigger] rep_value(c, k) == x;
                lemma_rep_lower(c, k);
                if k > n {
                    lemma_pow10(n, (k - 1) as nat);
                }
                assert(2 <= k <= n);
            }
        }
        assert(rep_ids(a, b, n) =~= invalid_ids(a, b));
    }
}

/// The ids in `a..=b` whose digits are one block written twice.
pub open spec fn doubled_ids(a: int, b: int) -> Set<int> {
    Set::new(|x: int| a <= x <= b && is_rep_of(x, 2))
}

/// The doubled blocks in `a..=b` whose block is at least `c` (and at least 1).
pub open spec fn walk_set(c: int, a: int, b: int) -> Set<int> {
    Set::new(|x: int| a <= x <= b && exists|d: nat| d >= c && d >= 1 && #[trigger] rep_value(d, 2) == x)
}

proof fn lemma_rep_one(c: nat)
    ensures
        rep_value(c, 1) == c,
{
    lemma_nat_str(c);
    assert(repeat_chars(nat_str(c), 0) =~= Seq::<char>::empty());
    assert(repeat_chars(nat_str(c), 1) =~= nat_str(c));
}

proof fn lemma_walk_set_finite(c: int, a: int, b: int)
    ensures
        walk_set(c, a, b).finite(),
{
    let w = walk_set(c, a, b);
    if a <= b + 1 {
        vstd::set_lib::lemma_int_range(a, b + 1);
        assert(w.subset_of(vstd::set_lib::set_int_range(a, b + 1)));
        vstd::set_lib::lemma_len_subset(w, vstd::set_lib::set_int_range(a, b + 1));
    } else {
        assert(w =~= Set::empty());
    }
}

/// Walking the blocks upward from `c` adds up exactly the doubled blocks of the range
/// that the walk can reach.
proof fn lemma_walk(c: int, a: int, b: int)
    requires
        c >= 0,
        a >= 0,
        b <= i64::MAX,
    ensures
        doubled_sum(c, a, b) == set_sum(walk_set(c, a, b)),
    decreases b + 1 - c,
{
    lemma_doubled(c);
    lemma_walk_set_finite(c, a, b);
    lemma_walk_set_finite(c + 1, a, b);
    let n = c as nat;
    let v = rep_value(n, 2);
    let here = walk_set(c, a, b);
    let next = walk_set(c + 1, a, b);
    if doubled(c) is Some && v <= b {
        lemma_walk(c + 1, a, b);
        if c >= 1 && v >= a {
            assert(!next.contains(v)) by {
                if next.contains(v) {
                    let d = choose|d: nat| d >= c + 1 && d >= 1 && #[trigger] rep_value(d, 2) == v;
                    lemma_rep_increasing(n, d, 2);
                }
            }
            assert(here =~= next.insert(v)) by {
                assert forall|x: int| here.contains(x) implies next.insert(v).contains(x) by {
                    let d = choose|d: nat| d >= c && d >= 1 && #[trigger] rep_value(d, 2) == x;
                    if d > c {
                        assert(next.contains(x));
                    }
                }
                assert forall|x: int| next.insert(v).contains(x) implies here.contains(x) by {
                    if x != v {
                        let d = choose|d: nat| d >= c + 1 && d >= 1 && #[trigger] rep_value(d, 2) == x;
                        assert(here.contains(x));
                    }
                }
            }
            lemma_set_sum_insert(next, v);
            assert(doubled_sum(c, a, b) == v + doubled_sum(c + 1, a, b));
        } else {
            if c == 0 {
                assert(v == 0) by {
                    lemma_rep_step(0, 2);
                    lemma_rep_step(0, 1);
                    assert(repeat_chars(nat_str(0), 0) =~= Seq::<char>::empty());
                }
            }
            assert(doubled_sum(c, a, b) == doubled_sum(c + 1, a, b));
            assert(here =~= next) by {
                assert forall|x: int| here.contains(x) implies next.contains(x) by {
                    let d = choose|d: nat| d >= c && d >= 1 && #[trigger] rep_value(d, 2) == x;
                    if d == c {
                        if c == 0 {
                            assert(false);
                        } else {
                            assert(x == v);
                        }
                    }
                }
            }
        }
    } else {
        assert(v > b);
        assert(doubled_sum(c, a, b) == 0);
        assert(here =~= Set::empty()) by {
            assert forall|x: int| !here.contains(x) by {
                if here.contains(x) {
                    let d = choose|d: nat| d >= c && d >= 1 && #[trigger] rep_value(d, 2) == x;
                    if n == 0 {
                        assert(v == 0) by {
                            lemma_rep_step(0, 2);
                            lemma_rep_step(0, 1);
                            assert(repeat_chars(nat_str(0), 0) =~= Seq::<char>::empty());
                        }
                    } else if d > n {
                        lemma_rep_increasing(n, d, 2);
                    }
                }
            }
        }
        lemma_set_sum_empty();
    }
}

/// The counter the walk starts from never skips a doubled block of the range: every
/// smaller block doubles to less than `a`.
proof fn lemma_start(s1: Seq<char>)
    requires
        parse_i64_spec(s1) is Some,
        parse_i64_spec(s1).unwrap() >= 0,
        parse_i64_spec(half_of(s1)) is Some,
    ensures
        parse_i64_spec(half_of(s1)).unwrap() >= 0,
        forall|c: nat|
            1 <= c < parse_i64_spec(half_of(s1)).unwrap() ==> #[trigger] rep_value(c, 2) < parse_i64_spec(
                s1,
            ).unwrap(),
{
    let a = parse_i64_spec(s1).unwrap();
    let h = half_of(s1);
    let c0 = parse_i64_spec(h).unwrap();
    if s1.len() <= 1 {
        assert(h == seq!['1']);
        assert(h.drop_last().len() == 0);
        assert(digits_value(h.drop_last()) == 0);
        assert(c0 == 1);
    } else {
        if s1[0] == '-' {
            let rest = s1.drop_first();
            let m = (s1.len() / 2) as int - 1;
            lemma_digits_value_nonneg(rest);
            assert(h[0] == '-');
            assert(h.drop_first() =~= rest.subrange(0, m));
            assert(all_digits(h.drop_first()));
            lemma_digits_value_prefix_le(rest, m);
            lemma_digits_value_nonneg(h.drop_first());
            assert(c0 == 0);
        } else {
            let signed = s1[0] == '+';
            let d = if signed {
                s1.drop_first()
            } else {
                s1
            };
            let m: int = if signed {
                (s1.len() / 2) as int - 1
            } else {
                (s1.len() / 2) as int
            };
            let big_l = d.len() as int;
            assert(all_digits(d));
            assert(a == digits_value(d));
            if signed {
                assert(h[0] == '+');
                assert(h.drop_first() =~= d.take(m));
                if m == 0 {
                    assert(h.drop_first().len() == 0);
                    assert(false);
                }
            } else {
                assert(h =~= d.take(m));
                assert(is_digit(h[0]));
            }
            assert(1 <= m);
            assert(m <= big_l - m);
            let p = d.take(m);
            let q = d.skip(m);
            assert(p + q =~= d);
            assert(all_digits(p)) by {
                assert forall|i: int| 0 <= i < p.len() implies is_digit(#[trigger] p[i]) by {
                    assert(p[i] == d[i]);
                }
            }
            assert(all_digits(q)) by {
                assert forall|i: int| 0 <= i < q.len() implies is_digit(#[trigger] q[i]) by {
                    assert(q[i] == d[i + m]);
                }
            }
            assert(c0 == digits_value(p));
            lemma_digits_value_concat(p, q);
            lemma_digits_value_nonneg(p);
            lemma_digits_value_nonneg(q);
            let e = pow10((big_l - m) as nat);
            lemma_pow10(0, (big_l - m) as nat);
            assert(a >= c0 * e) by (nonlinear_arith)
                requires
                    a == c0 * e + digits_value(q),
                    digits_value(q) >= 0,
            ;
            assert forall|c: nat| 1 <= c < c0 implies #[trigger] rep_value(c, 2) < a by {
                let k = nat_str(c).len();
                lemma_nat_str_lead(c);
                lemma_rep_step(c, 2);
                lemma_rep_one(c);
                if k > m {
                    lemma_pow10(m as nat, (k - 1) as nat);
                }
                assert(k <= m);
                lemma_pow10(k, (big_l - m) as nat);
                let pk = pow10(k);
                assert(rep_value(c, 2) == c * pk + c);
                assert(c * pk + c < (c + 1) * pk) by (nonlinear_arith)
                    requires
                        c < pk,
                ;
                assert((c + 1) * pk <= c0 * pk) by (nonlinear_arith)
                    requires
                        c + 1 <= c0,
                        pk >= 1,
                ;
                assert(c0 * pk <= c0 * e) by (nonlinear_arith)
                    requires
                        pk <= e,
                        c0 >= 0,
                ;
            }
        }
    }
}

/// For a range that starts at 0 or more, `check1` sums exactly the ids of the range whose
/// digits are one block written twice.
pub proof fn check1_sums_doubled_ids(num1: Seq<char>, num2: Seq<char>)
    requires
        parse_i64_spec(num1) is Some,
        parse_i64_spec(half_of(num1)) is Some,
        parse_i64_spec(num1).unwrap() >= 0,
        parse_i64_spec(num2) is Some,
    ensures
        check1_spec(num1, num2) == set_sum(doubled_ids(parse_i64_spec(num1).unwrap(), parse_i64_spec(num2).unwrap())),
{
    let a = parse_i64_spec(num1).unwrap();
    let b = parse_i64_spec(num2).unwrap();
    let c0 = parse_i64_spec(half_of(num1)).unwrap();
    lemma_start(num1);
    lemma_walk(c0, a, b);
    assert(walk_set(c0, a, b) =~= doubled_ids(a, b)) by {
        assert forall|x: int| doubled_ids(a, b).contains(x) implies walk_set(c0, a, b).contains(x) by {
            let d = choose|d: nat| d >= 1 && #[trigger] rep_value(d, 2) == x;
            if d < c0 {
                assert(rep_value(d, 2) < a);
            }
        }
    }
}

/// For a range that starts at 0 or more, `check1` sums no more than `check2`: an id
/// made of one block written twice is one made of a block written at least twice.
pub proof fn check1_at_most_check2(num1: Seq<char>, num2: Seq<char>)
    requires
        parse_i64_spec(num1) is Some,
        parse_i64_spec(half_of(num1)) is Some,
        parse_i64_spec(num1).unwrap() >= 0,
        parse_i64_spec(num2) is Some,
    ensures
        check1_spec(num1, num2) <= check2_spec(num1, num2),
{
    let a = parse_i64_spec(num1).unwrap();
    let b = parse_i64_spec(num2).unwrap();
    check1_sums_doubled_ids(num1, num2);
    check2_sums_invalid_ids(num1, num2);
    let t = invalid_ids(a, b);
    if a <= b + 1 {
        let box_ = vstd::set_lib::set_int_range(a, b + 1);
        vstd::set_lib::lemma_int_range(a, b + 1);
        assert(t.subset_of(box_));
        vstd::set_lib::lemma_len_subset(t, box_);
    } else {
        assert(t =~= Set::empty());
    }
    assert(doubled_ids(a, b).subset_of(t)) by {
        assert forall|x: int| doubled_ids(a, b).contains(x) implies t.contains(x) by {
            assert(is_rep_of(x, 2));
        }
    }
    lemma_set_sum_subset(doubled_ids(a, b), t);
}

} // verus!
