//! Helpers shared by the puzzles.
use vstd::prelude::*;
use crate::decimal::{
    all_digits, dec_str, digits_value, int_to_chars, is_digit, lemma_digits_value_concat, lemma_digits_value_nonneg,
    lemma_digit_char, lemma_parse_dec_str, parse_i128, parse_in, parse_int, pow10, digit_char,
};

verus! {

/// The numbers written one after another, each as `Display` writes it.
pub open spec fn joined(nums: Seq<i32>) -> Seq<char>
    decreases nums.len(),
{
    if nums.len() == 0 {
        Seq::empty()
    } else {
        joined(nums.drop_last()) + dec_str(nums.last() as int)
    }
}

/// What the joined text reads back as an `i128`.
pub open spec fn big_of(nums: Seq<i32>) -> Option<int> {
    parse_in(joined(nums), i128::MIN as int, i128::MAX as int)
}

/// Why the joined text is no `i128`, told as `i128::from_str` tells it.
#[derive(PartialEq, Eq, Debug, Clone, Copy)]
pub enum BigNumError {
    /// There were no numbers, so the text is empty.
    Empty,
    /// A character that is not a digit comes before the value leaves the range
    /// (a `-` inside the text), or a sign stands alone.
    InvalidDigit,
    /// The digits read exceed `i128::MAX`.
    PosOverflow,
    /// The digits read after a `-` go below `i128::MIN`.
    NegOverflow,
}

/// The number of leading digits of `s`: all of `s` where it is all digits, else
/// the place of its first character that is not a digit.
pub open spec fn digit_run(s: Seq<char>) -> int {
    if all_digits(s) {
        s.len() as int
    } else {
        choose|k: int| 0 <= k < s.len() && !is_digit(s[k]) && all_digits(s.take(k))
    }
}

/// What `i128::from_str` reports for `s`, reading it from left to right: `None`
/// where it reads a value. After an optional sign it reads digits; it reports an
/// overflow as soon as the digits read leave the range, and a bad digit at the first
/// character that is not a digit.
pub open spec fn read_error(s: Seq<char>) -> Option<BigNumError> {
    if s.len() == 0 {
        Some(BigNumError::Empty)
    } else {
        let body = if s[0] == '+' || s[0] == '-' { s.drop_first() } else { s };
        if body.len() == 0 {
            Some(BigNumError::InvalidDigit)
        } else {
            let k = digit_run(body);
            let v = digits_value(body.take(k));
            if s[0] == '-' && v > 0x8000_0000_0000_0000_0000_0000_0000_0000 {
                Some(BigNumError::NegOverflow)
            } else if s[0] != '-' && v > 0x7fff_ffff_ffff_ffff_ffff_ffff_ffff_ffff {
                Some(BigNumError::PosOverflow)
            } else if k < body.len() {
                Some(BigNumError::InvalidDigit)
            } else {
                None
            }
        }
    }
}

/// Text that is not all digits has a first character that is not a digit.
proof fn lemma_first_non_digit(s: Seq<char>)
    requires
        !all_digits(s),
    ensures
        exists|k: int| 0 <= k < s.len() && !is_digit(s[k]) && all_digits(#[trigger] s.take(k)),
    decreases s.len(),
{
    let p = s.drop_last();
    if all_digits(p) {
        let k = s.len() - 1;
        assert(s.take(k) =~= p);
        let j = choose|j: int| 0 <= j < s.len() && !is_digit(#[trigger] s[j]);
        if j < k {
            assert(p[j] == s[j]);
        }
        assert(!is_digit(s[k]));
    } else {
        assert(!all_digits(p));
        lemma_first_non_digit(p);
        let k = choose|k: int| 0 <= k < p.len() && !is_digit(p[k]) && all_digits(#[trigger] p.take(k));
        assert(p.take(k) =~= s.take(k));
        assert(p[k] == s[k]);
    }
}

proof fn lemma_digit_run_at(s: Seq<char>, k: int)
    requires
        0 <= k <= s.len(),
        all_digits(s.take(k)),
        k == s.len() || !is_digit(s[k]),
    ensures
        digit_run(s) == k,
{
    if k == s.len() {
        assert(s.take(k) =~= s);
    } else {
        assert(!all_digits(s));
        let j = choose|j: int| 0 <= j < s.len() && !is_digit(s[j]) && all_digits(s.take(j));
        if j < k {
            assert(s.take(k)[j] == s[j]);
        }
        if k < j {
            assert(s.take(j)[k] == s[k]);
        }
    }
}

/// The reading fails exactly where `read_error` names a reason.
pub proof fn lemma_read_error_agrees(s: Seq<char>)
    ensures
        (read_error(s) is None) == (parse_in(s, i128::MIN as int, i128::MAX as int) is Some),
{
    if s.len() > 0 {
        let body = if s[0] == '+' || s[0] == '-' { s.drop_first() } else { s };
        if body.len() > 0 {
            if all_digits(body) {
                assert(body.take(body.len() as int) =~= body);
                assert(digit_run(body) == body.len());
                lemma_digits_value_nonneg(body);
                if s[0] == '+' || s[0] == '-' {
                    assert(parse_int(s) == Some(if s[0] == '-' { -digits_value(body) } else { digits_value(body) }));
                } else {
                    assert(parse_int(s) == Some(digits_value(body)));
                }
            } else {
                lemma_first_non_digit(body);
                assert(digit_run(body) < body.len());
                assert(parse_int(s) is None);
            }
        }
    }
}

/// Tells why `s` is no `i128`, as `read_error` does.
fn read_error_of(s: &[char]) -> (r: Option<BigNumError>)
    ensures
        r == read_error(s@),
{
    let n = s.len();
    if n == 0 {
        return Some(BigNumError::Empty);
    }
    let neg = s[0] == '-';
    let start: usize = if s[0] == '-' || s[0] == '+' {
        1
    } else {
        0
    };
    if start == n {
        proof {
            if start == 1 {
                assert(s@.drop_first().len() == 0);
            }
        }
        return Some(BigNumError::InvalidDigit);
    }
    let ghost body = if s@[0] == '+' || s@[0] == '-' { s@.drop_first() } else { s@ };
    proof {
        assert(start == 1 ==> body =~= s@.subrange(1, n as int));
        assert(start == 0 ==> body =~= s@.subrange(0, n as int));
    }
    let limit: u128 = 0x8000_0000_0000_0000_0000_0000_0000_0000;
    let mut mag: u128 = 0;
    let mut over = false;
    let mut i = start;
    while i < n && '0' <= s[i] && s[i] <= '9'
        invariant
            start <= i <= n,
            n == s@.len(),
            start <= 1,
            body.len() == n - start,
            forall|q: int| 0 <= q < body.len() ==> body[q] == s@[q + start],
            limit == 0x8000_0000_0000_0000_0000_0000_0000_0000u128,
            all_digits(body.take(i - start)),
            digits_value(body.take(i - start)) >= 0,
            over == (digits_value(body.take(i - start)) > limit),
            !over ==> mag == digits_value(body.take(i - start)),
        decreases n - i,
    {
        let d = (s[i] as u32 - '0' as u32) as u128;
        let ghost pre = body.take(i - start);
        let ghost post = body.take(i - start + 1);
        proof {
            assert(post.drop_last() =~= pre);
            assert(post.last() == s@[i as int]);
            assert(all_digits(post)) by {
                assert forall|q: int| 0 <= q < post.len() implies is_digit(#[trigger] post[q]) by {
                    if q < pre.len() {
                        assert(post[q] == pre[q]);
                    }
                }
            }
            assert(digits_value(post) == digits_value(pre) * 10 + d);
        }
        if !over {
            if mag > 17014118346046923173168730371588410572u128 {
                over = true;
            } else {
                mag = mag * 10 + d;
                if mag > limit {
                    over = true;
                }
            }
        }
        i = i + 1;
    }
    let ghost k = (i - start) as int;
    proof {
        lemma_digit_run_at(body, k);
    }
    if neg {
        if over {
            Some(BigNumError::NegOverflow)
        } else if i < n {
            Some(BigNumError::InvalidDigit)
        } else {
            None
        }
    } else {
        if over || mag == limit {
            Some(BigNumError::PosOverflow)
        } else if i < n {
            Some(BigNumError::InvalidDigit)
        } else {
            None
        }
    }
}

/// The joined text is empty exactly when there are no numbers.
pub proof fn lemma_joined_len(nums: Seq<i32>)
    ensures
        nums.len() > 0 ==> joined(nums).len() > 0,
        nums.len() == 0 ==> joined(nums).len() == 0,
{
    if nums.len() > 0 {
        lemma_parse_dec_str(nums.last() as int);
    }
}

/// The numbers are single digits.
pub open spec fn single_digits(d: Seq<i32>) -> bool {
    forall|i: int| 0 <= i < d.len() ==> 0 <= #[trigger] d[i] <= 9
}

proof fn lemma_joined_concat(a: Seq<i32>, b: Seq<i32>)
    ensures
        joined(a + b) == joined(a) + joined(b),
    decreases b.len(),
{
    if b.len() == 0 {
        assert(a + b =~= a);
        assert(joined(a) + joined(b) =~= joined(a));
    } else {
        lemma_joined_concat(a, b.drop_last());
        assert((a + b).drop_last() =~= a + b.drop_last());
        assert((a + b).last() == b.last());
        assert(joined(a) + joined(b) =~= joined(a) + joined(b.drop_last()) + dec_str(b.last() as int));
    }
}

proof fn lemma_joined_digits(d: Seq<i32>)
    requires
        single_digits(d),
    ensures
        joined(d).len() == d.len(),
        all_digits(joined(d)),
    decreases d.len(),
{
    if d.len() > 0 {
        let p = d.drop_last();
        assert(single_digits(p)) by {
            assert forall|i: int| 0 <= i < p.len() implies 0 <= #[trigger] p[i] <= 9 by {
                assert(p[i] == d[i]);
            }
        }
        lemma_joined_digits(p);
        let x = d.last() as int;
        assert(0 <= x <= 9);
        lemma_digit_char(x);
        assert(dec_str(x) == seq![digit_char(x)]);
        let j = joined(d);
        assert(j == joined(p) + seq![digit_char(x)]);
        assert forall|i: int| 0 <= i < j.len() implies is_digit(#[trigger] j[i]) by {
            if i < joined(p).len() {
                assert(j[i] == joined(p)[i]);
            }
        }
    }
}

proof fn lemma_pow10_mono(k: nat, m: nat)
    requires
        k <= m,
    ensures
        0 < pow10(k) <= pow10(m),
    decreases m,
{
    if k < m {
        lemma_pow10_mono(k, (m - 1) as nat);
    } else if k > 0 {
        lemma_pow10_mono((k - 1) as nat, (k - 1) as nat);
    }
}

/// A list of single digits, at most 38 of them, reads as the value of its digits.
proof fn lemma_big_of_digits(d: Seq<i32>)
    requires
        single_digits(d),
        0 < d.len() <= 38,
    ensures
        big_of(d) == Some(digits_value(joined(d))),
        all_digits(joined(d)),
        joined(d).len() == d.len(),
{
    lemma_joined_digits(d);
    lemma_digits_value_nonneg(joined(d));
    lemma_pow10_mono(d.len(), 38);
    assert(pow10(38) == 100000000000000000000000000000000000000) by {
        reveal_with_fuel(pow10, 39);
    }
    let j = joined(d);
    assert(!(j[0] == '+' || j[0] == '-')) by {
        assert(is_digit(j[0]));
    }
}

/// Joining two lists of single digits, at most 38 digits in all, reads as the first
/// number shifted left by the digits of the second, plus the second number.
pub proof fn lemma_big_of_concat(a: Seq<i32>, b: Seq<i32>)
    requires
        single_digits(a),
        single_digits(b),
        a.len() > 0,
        b.len() > 0,
        a.len() + b.len() <= 38,
    ensures
        big_of(a) is Some,
        big_of(b) is Some,
        big_of(a + b) == Some(big_of(a)->0 * pow10(b.len()) + big_of(b)->0),
{
    assert(single_digits(a + b)) by {
        assert forall|i: int| 0 <= i < (a + b).len() implies 0 <= #[trigger] (a + b)[i] <= 9 by {
            if i < a.len() {
                assert((a + b)[i] == a[i]);
            } else {
                assert((a + b)[i] == b[i - a.len()]);
            }
        }
    }
    lemma_big_of_digits(a);
    lemma_big_of_digits(b);
    lemma_big_of_digits(a + b);
    lemma_joined_concat(a, b);
    lemma_digits_value_concat(joined(a), joined(b));
}

/// Writes the numbers one after another and reads the text back as one `i128`.
pub fn num_list_to_big_num(nums: &[i32]) -> (r: Result<i128, BigNumError>)
    ensures
        match r {
            Ok(v) => big_of(nums@) == Some(v as int),
            Err(e) => read_error(joined(nums@)) == Some(e),
        },
        r is Ok <==> big_of(nums@) is Some,
        (r == Err::<i128, BigNumError>(BigNumError::Empty)) <==> nums@.len() == 0,
{
    let mut text: Vec<char> = Vec::new();
    let mut i: usize = 0;
    while i < nums.len()
        invariant
            i <= nums.len(),
            text@ == joined(nums@.take(i as int)),
        decreases nums.len() - i,
    {
        let d = int_to_chars(nums[i] as i128);
        let mut j: usize = 0;
        let ghost before = text@;
        while j < d.len()
            invariant
                j <= d.len(),
                text@ == before + d@.take(j as int),
            decreases d.len() - j,
        {
            text.push(d[j]);
            j += 1;
            assert(text@ =~= before + d@.take(j as int));
        }
        proof {
            assert(d@.take(d.len() as int) =~= d@);
            assert(nums@.take(i + 1).drop_last() =~= nums@.take(i as int));
        }
        i += 1;
    }
    assert(nums@.take(nums.len() as int) =~= nums@);
    proof {
        lemma_joined_len(nums@);
    }
    match parse_i128(text.as_slice()) {
        Some(v) => Ok(v),
        None => {
            proof {
                lemma_read_error_agrees(text@);
            }
            match read_error_of(text.as_slice()) {
                Some(e) => Err(e),
                None => Err(BigNumError::InvalidDigit),
            }
        },
    }
}

} // verus!
