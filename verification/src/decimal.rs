//! Decimal text: the digits of an integer, and reading an integer back from text
//! the way Rust's `FromStr` for integers reads it (an optional `+` or `-`, then one
//! or more ASCII digits, and the value within the type's range).
use vstd::prelude::*;

verus! {

pub open spec fn is_digit(c: char) -> bool {
    '0' <= c && c <= '9'
}

pub open spec fn digit_value(c: char) -> int {
    (c as int) - ('0' as int)
}

pub open spec fn all_digits(s: Seq<char>) -> bool {
    forall|i: int| 0 <= i < s.len() ==> is_digit(#[trigger] s[i])
}

/// The value of a string of decimal digits, most significant first.
pub open spec fn digits_value(s: Seq<char>) -> int
    decreases s.len(),
{
    if s.len() == 0 {
        0
    } else {
        digits_value(s.drop_last()) * 10 + digit_value(s.last())
    }
}

pub open spec fn pow10(k: nat) -> int
    decreases k,
{
    if k == 0 {
        1
    } else {
        10 * pow10((k - 1) as nat)
    }
}

/// What an integer `FromStr` reads from `s`, before its range is checked.
pub open spec fn parse_int(s: Seq<char>) -> Option<int> {
    if s.len() > 0 && (s[0] == '+' || s[0] == '-') {
        let rest = s.drop_first();
        if rest.len() > 0 && all_digits(rest) {
            Some(
                if s[0] == '-' {
                    -digits_value(rest)
                } else {
                    digits_value(rest)
                },
            )
        } else {
            None
        }
    } else if s.len() > 0 && all_digits(s) {
        Some(digits_value(s))
    } else {
        None
    }
}

/// What an integer type with range `lo..=hi` reads from `s`.
pub open spec fn parse_in(s: Seq<char>, lo: int, hi: int) -> Option<int> {
    match parse_int(s) {
        Some(v) => if lo <= v <= hi {
            Some(v)
        } else {
            None
        },
        None => None,
    }
}

/// What an unsigned integer type with maximum `hi` reads from `s` (no `-` sign).
pub open spec fn parse_unsigned(s: Seq<char>, hi: int) -> Option<int> {
    if s.len() > 0 && s[0] == '-' {
        None
    } else {
        parse_in(s, 0, hi)
    }
}

pub open spec fn digit_char(d: int) -> char {
    (('0' as int) + d) as char
}

/// The decimal digits of a natural number, without leading zeros.
pub open spec fn nat_str(n: nat) -> Seq<char>
    decreases n,
{
    if n < 10 {
        seq![digit_char(n as int)]
    } else {
        nat_str(n / 10).push(digit_char((n % 10) as int))
    }
}

/// How an integer is written by `Display`.
pub open spec fn dec_str(n: int) -> Seq<char> {
    if n < 0 {
        seq!['-'] + nat_str((-n) as nat)
    } else {
        nat_str(n as nat)
    }
}

/// The character of a digit is a decimal digit, and has that value.
pub proof fn lemma_digit_char(d: int)
    requires
        0 <= d < 10,
    ensures
        is_digit(digit_char(d)),
        digit_value(digit_char(d)) == d,
{
}

/// The text of a natural number is a non-empty string of digits with its value.
pub proof fn lemma_nat_str(n: nat)
    ensures
        nat_str(n).len() >= 1,
        all_digits(nat_str(n)),
        digits_value(nat_str(n)) == n,
        nat_str(n)[0] != '-' && nat_str(n)[0] != '+',
        n >= 10 ==> nat_str(n)[0] != '0',
    decreases n,
{
    if n < 10 {
        lemma_digit_char(n as int);
        assert(nat_str(n).drop_last() =~= Seq::<char>::empty());
        assert(nat_str(n).last() == digit_char(n as int));
        assert(digits_value(Seq::<char>::empty()) == 0);
        assert(digits_value(nat_str(n)) == digits_value(nat_str(n).drop_last()) * 10 + digit_value(nat_str(n).last()));
    } else {
        lemma_nat_str(n / 10);
        lemma_digit_char((n % 10) as int);
        let s = nat_str(n);
        assert(s.drop_last() =~= nat_str(n / 10));
        assert(all_digits(s)) by {
            assert forall|i: int| 0 <= i < s.len() implies is_digit(#[trigger] s[i]) by {
                if i < s.len() - 1 {
                    assert(s[i] == nat_str(n / 10)[i]);
                }
            }
        }
        assert(s.last() == digit_char((n % 10) as int));
        assert(n == (n / 10) * 10 + n % 10);
        assert(digits_value(s) == digits_value(nat_str(n / 10)) * 10 + (n % 10));
        assert(s[0] == nat_str(n / 10)[0]);
        if n / 10 < 10 {
            lemma_digit_char((n / 10) as int);
        }
    }
}

/// The text of an integer reads back as the integer.
pub proof fn lemma_parse_dec_str(n: int)
    ensures
        parse_int(dec_str(n)) == Some(n),
        dec_str(n).len() >= 1,
{
    if n < 0 {
        lemma_nat_str((-n) as nat);
        let s = dec_str(n);
        assert(s.drop_first() =~= nat_str((-n) as nat));
    } else {
        lemma_nat_str(n as nat);
    }
}

/// A string of `k` digits has a value in `0..10^k`.
pub proof fn lemma_digits_value_nonneg(s: Seq<char>)
    requires
        all_digits(s),
    ensures
        digits_value(s) >= 0,
        digits_value(s) < pow10(s.len()),
    decreases s.len(),
{
    if s.len() > 0 {
        assert(all_digits(s.drop_last())) by {
            assert forall|i: int| 0 <= i < s.drop_last().len() implies is_digit(
                #[trigger] s.drop_last()[i],
            ) by {
                assert(s.drop_last()[i] == s[i]);
            }
        }
        lemma_digits_value_nonneg(s.drop_last());
        assert(is_digit(s[s.len() - 1]));
    }
}

/// Reading digits `s + t` is reading `s`, shifted by the length of `t`, plus `t`.
pub proof fn lemma_digits_value_concat(s: Seq<char>, t: Seq<char>)
    ensures
        digits_value(s + t) == digits_value(s) * pow10(t.len()) + digits_value(t),
    decreases t.len(),
{
    if t.len() == 0 {
        assert(s + t =~= s);
    } else {
        assert((s + t).drop_last() =~= s + t.drop_last());
        assert((s + t).last() == t.last());
        lemma_digits_value_concat(s, t.drop_last());
        assert(pow10(t.len()) == 10 * pow10(t.drop_last().len()));
        assert(digits_value(s) * pow10(t.len()) == digits_value(s) * pow10(t.drop_last().len())
            * 10) by (nonlinear_arith)
            requires
                pow10(t.len()) == 10 * pow10(t.drop_last().len()),
        ;
    }
}

/// Appending a digit never makes the value smaller.
pub proof fn lemma_digits_value_prefix_le(s: Seq<char>, j: int)
    requires
        all_digits(s),
        0 <= j <= s.len(),
    ensures
        digits_value(s.subrange(0, j)) <= digits_value(s),
    decreases s.len() - j,
{
    if j < s.len() {
        let p = s.subrange(0, j + 1);
        assert(p.drop_last() =~= s.subrange(0, j));
        assert(is_digit(s[j]));
        assert(all_digits(s.subrange(0, j))) by {
            assert forall|i: int| 0 <= i < j implies is_digit(#[trigger] s.subrange(0, j)[i]) by {
                assert(s.subrange(0, j)[i] == s[i]);
            }
        }
        lemma_digits_value_nonneg(s.subrange(0, j));
        lemma_digits_value_prefix_le(s, j + 1);
    } else {
        assert(s.subrange(0, j) =~= s);
    }
}

/// Reads an integer from `s` as `i128::from_str` does; `None` where it fails.
pub fn parse_i128(s: &[char]) -> (r: Option<i128>)
    ensures
        r == (match parse_in(s@, i128::MIN as int, i128::MAX as int) {
            Some(v) => Some(v as i128),
            None => None,
        }),
{
    let n = s.len();
    if n == 0 {
        return None;
    }
    let neg = s[0] == '-';
    let start: usize = if s[0] == '-' || s[0] == '+' {
        1
    } else {
        0
    };
    if start == n {
        return None;
    }
    let ghost body = s@.subrange(start as int, n as int);
    assert(start == 1 ==> body =~= s@.drop_first());
    assert(start == 0 ==> body =~= s@);
    let limit: u128 = 0x8000_0000_0000_0000_0000_0000_0000_0000;
    let mut mag: u128 = 0;
    let mut i = start;
    while i < n
        invariant
            start <= i <= n,
            n == s.len(),
            body == s@.subrange(start as int, n as int),
            n > 0,
            start == 1 ==> body == s@.drop_first(),
            start == 0 ==> body == s@,
            (start == 1) == (s@[0] == '+' || s@[0] == '-'),
            start <= 1,
            neg == (s@[0] == '-'),
            all_digits(s@.subrange(start as int, i as int)),
            mag == digits_value(s@.subrange(start as int, i as int)),
            mag <= limit,
            limit == 0x8000_0000_0000_0000_0000_0000_0000_0000u128,
        decreases n - i,
    {
        let c = s[i];
        if !('0' <= c && c <= '9') {
            assert(!all_digits(body)) by {
                assert(body[i - start] == c);
                assert(!is_digit(body[i - start]));
            }
            return None;
        }
        let d = (c as u32 - '0' as u32) as u128;
        let ghost pre = s@.subrange(start as int, i as int);
        let ghost post = s@.subrange(start as int, i + 1);
        assert(post.drop_last() =~= pre);
        assert(post.last() == c);
        assert(all_digits(post)) by {
            assert forall|k: int| 0 <= k < post.len() implies is_digit(#[trigger] post[k]) by {
                if k < pre.len() {
                    assert(post[k] == pre[k]);
                }
            }
        }
        if mag > 17014118346046923173168730371588410572u128 {
            assert(parse_in(s@, i128::MIN as int, i128::MAX as int) is None) by {
                assert(digits_value(post) == mag * 10 + d);
                if all_digits(body) {
                    assert(body.subrange(0, i + 1 - start) =~= post);
                    lemma_digits_value_prefix_le(body, i + 1 - start);
                }
            }
            return None;
        }
        mag = mag * 10 + d;
        i = i + 1;
        if mag > limit {
            assert(parse_in(s@, i128::MIN as int, i128::MAX as int) is None) by {
                if all_digits(body) {
                    assert(body.subrange(0, i - start) =~= post);
                    lemma_digits_value_prefix_le(body, i - start);
                }
            }
            return None;
        }
    }
    assert(s@.subrange(start as int, n as int) =~= body);
    if neg {
        if mag == limit {
            Some(i128::MIN)
        } else {
            Some(-(mag as i128))
        }
    } else {
        if mag < limit {
            Some(mag as i128)
        } else {
            None
        }
    }
}

/// Reads an `i64` from `s` as `i64::from_str` does.
pub fn parse_i64(s: &[char]) -> (r: Option<i64>)
    ensures
        r == (match parse_in(s@, i64::MIN as int, i64::MAX as int) {
            Some(v) => Some(v as i64),
            None => None,
        }),
{
    match parse_i128(s) {
        Some(v) => if i64::MIN as i128 <= v && v <= i64::MAX as i128 {
            Some(v as i64)
        } else {
            None
        },
        None => None,
    }
}

/// Reads an `i32` from `s` as `i32::from_str` does.
pub fn parse_i32(s: &[char]) -> (r: Option<i32>)
    ensures
        r == (match parse_in(s@, i32::MIN as int, i32::MAX as int) {
            Some(v) => Some(v as i32),
            None => None,
        }),
{
    match parse_i128(s) {
        Some(v) => if i32::MIN as i128 <= v && v <= i32::MAX as i128 {
            Some(v as i32)
        } else {
            None
        },
        None => None,
    }
}

/// Reads a `usize` from `s` as `usize::from_str` does.
pub fn parse_usize(s: &[char]) -> (r: Option<usize>)
    ensures
        r == (match parse_unsigned(s@, usize::MAX as int) {
            Some(v) => Some(v as usize),
            None => None,
        }),
{
    if s.len() > 0 && s[0] == '-' {
        return None;
    }
    match parse_i128(s) {
        Some(v) => if 0 <= v && v <= usize::MAX as i128 {
            Some(v as usize)
        } else {
            None
        },
        None => None,
    }
}

/// The decimal digits of `n`, as `Display` writes them.
pub fn int_to_chars(n: i128) -> (r: Vec<char>)
    ensures
        r@ == dec_str(n as int),
{
    let mut out: Vec<char> = Vec::new();
    if n < 0 {
        out.push('-');
        let m: u128 = if n == i128::MIN {
            0x8000_0000_0000_0000_0000_0000_0000_0000u128
        } else {
            (-n) as u128
        };
        push_nat_digits(m, &mut out);
    } else {
        push_nat_digits(n as u128, &mut out);
    }
    out
}

fn push_nat_digits(m: u128, out: &mut Vec<char>)
    ensures
        final(out)@ == old(out)@ + nat_str(m as nat),
    decreases m,
{
    if m >= 10 {
        push_nat_digits(m / 10, out);
    }
    out.push(char_of_digit((m % 10) as u32));
}

fn char_of_digit(d: u32) -> (c: char)
    requires
        d < 10,
    ensures
        c == digit_char(d as int),
{
    match d {
        0 => '0',
        1 => '1',
        2 => '2',
        3 => '3',
        4 => '4',
        5 => '5',
        6 => '6',
        7 => '7',
        8 => '8',
        _ => '9',
    }
}

} // verus!
