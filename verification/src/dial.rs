//! The safe's dial: positions `0..=99`, turned left or right by a number of clicks;
//! the password counts the clicks that leave the dial pointing at `0`.
use vstd::prelude::*;
use crate::decimal::{parse_in, parse_i32};
use crate::text::chars_of;

verus! {

/// A rotation line: `L` or another ASCII letter, then an `i32`. `None` where the line
/// has no ASCII first character or the rest is no `i32`.
pub open spec fn rotation_of(s: Seq<char>) -> Option<(bool, i32)> {
    if s.len() >= 1 && (s[0] as u32) < 128 {
        match parse_in(s.skip(1), i32::MIN as int, i32::MAX as int) {
            Some(n) => Some((s[0] == 'L', n as i32)),
            None => None,
        }
    } else {
        None
    }
}

/// Reads a rotation line: whether it turns left, and the number of clicks.
pub fn parse_rotation(line: &str) -> (r: Option<(bool, i32)>)
    ensures
        r == rotation_of(line@),
{
    let cs = chars_of(line);
    if cs.len() == 0 || (cs[0] as u32) >= 128 {
        return None;
    }
    let rest = vstd::slice::slice_subrange(cs.as_slice(), 1, cs.len());
    assert(rest@ =~= cs@.skip(1));
    match parse_i32(rest) {
        Some(n) => Some((cs[0] == 'L', n)),
        None => None,
    }
}

/// What one rotation does to the dial and the count.
#[derive(PartialEq, Eq, Debug, Clone, Copy)]
pub struct Turn {
    /// Where the dial points afterwards, in `0..=99`.
    pub pos: i32,
    /// The count of zeros so far.
    pub zeros: i32,
    /// Whole turns of the dial, each passing `0` once.
    pub whole: i32,
    /// Whether the rest of the clicks reached or passed `0`.
    pub counted: bool,
}

/// `a` divided by 100, rounded toward zero (Rust's `/`).
pub open spec fn div100(a: int) -> int {
    if a >= 0 {
        a / 100
    } else {
        -((-a) / 100)
    }
}

/// The remainder of `a` by 100 with the sign of `a` (Rust's `%`).
pub open spec fn rem100(a: int) -> int {
    a - 100 * div100(a)
}

/// The arithmetic of one rotation, as integers.
pub open spec fn turn_spec(pos: int, zeros: int, left: bool, num: int) -> (int, int, int, bool) {
    let inc = div100(num);
    let num2 = num - 100 * inc;
    let x = if left {
        pos - num2
    } else {
        pos + num2
    };
    let m = rem100(rem100(x) + 100);
    let counted = pos != 0 && (x < 0 || x > 100 || m == 0);
    (m, zeros + (if counted {
        1int
    } else {
        0
    }) + inc, inc, counted)
}

/// The rotation does not overflow an `i32`.
pub open spec fn turn_ok(pos: int, zeros: int, left: bool, num: int) -> bool {
    let inc = div100(num);
    let num2 = num - 100 * inc;
    &&& i32::MIN <= (if left {
        pos - num2
    } else {
        pos + num2
    }) <= i32::MAX
    &&& i32::MIN <= turn_spec(pos, zeros, left, num).1 <= i32::MAX
    &&& i32::MIN <= zeros + (if turn_spec(pos, zeros, left, num).3 {
        1int
    } else {
        0
    }) <= i32::MAX
}

/// Turns the dial at `pos` by `num` clicks, left or right, and counts the zeros.
pub fn turn(pos: i32, zeros: i32, left: bool, num: i32) -> (r: Turn)
    requires
        turn_ok(pos as int, zeros as int, left, num as int),
    ensures
        (r.pos as int, r.zeros as int, r.whole as int, r.counted) == turn_spec(
            pos as int,
            zeros as int,
            left,
            num as int,
        ),
{
    let inc = num / 100;
    let num2 = num - 100 * inc;
    let tmp = pos;
    let x = if left {
        pos - num2
    } else {
        pos + num2
    };
    let mut n = zeros;
    let mut counted = false;
    let m = ((x % 100) + 100) % 100;
    if tmp != 0 {
        if x < 0 || x > 100 || m == 0 {
            n += 1;
            counted = true;
        }
    }
    n += inc;
    Turn { pos: m, zeros: n, whole: inc, counted }
}

/// How many of the first `k` clicks from `pos` leave the dial at `0`
/// (`d` is `-1` for left, `1` for right).
pub open spec fn zero_hits(pos: int, d: int, k: nat) -> nat
    decreases k,
{
    if k == 0 {
        0
    } else {
        zero_hits(pos, d, (k - 1) as nat) + if (pos + d * k) % 100 == 0 {
            1nat
        } else {
            0nat
        }
    }
}

/// The click in `1..=100` that first reaches `0` from `pos`.
pub open spec fn first_hit(pos: int, d: int) -> int {
    if pos == 0 {
        100
    } else if d == 1 {
        100 - pos
    } else {
        pos
    }
}

proof fn lemma_hits_first_turn(pos: int, d: int, k: nat)
    requires
        0 <= pos <= 99,
        d == 1 || d == -1,
        k <= 100,
    ensures
        zero_hits(pos, d, k) == (if first_hit(pos, d) <= k {
            1nat
        } else {
            0nat
        }),
    decreases k,
{
    if k > 0 {
        lemma_hits_first_turn(pos, d, (k - 1) as nat);
        if d == 1 {
            assert((pos + k) % 100 == 0 <==> k == first_hit(pos, d));
        } else {
            assert((pos - k) % 100 == 0 <==> k == first_hit(pos, d));
        }
    }
}

proof fn lemma_hits_periodic(pos: int, d: int, k: nat)
    requires
        d == 1 || d == -1,
    ensures
        zero_hits(pos, d, k + 100) == zero_hits(pos, d, k) + zero_hits(pos, d, 100),
    decreases k,
{
    if k > 0 {
        lemma_hits_periodic(pos, d, (k - 1) as nat);
        let a = pos + d * k;
        assert(pos + d * (k + 100) == a + 100 * d) by (nonlinear_arith)
            requires
                a == pos + d * k,
        ;
        assert((a + 100 * d) % 100 == a % 100) by {
            if d == 1 {
                assert((a + 100) % 100 == a % 100);
            } else {
                assert((a - 100) % 100 == a % 100);
            }
        }
        assert(((k + 100) - 1) as nat == ((k - 1) as nat) + 100);
    }
}

proof fn lemma_hits_whole_turns(pos: int, d: int, inc: nat, rest: nat)
    requires
        0 <= pos <= 99,
        d == 1 || d == -1,
    ensures
        zero_hits(pos, d, inc * 100 + rest) == inc + zero_hits(pos, d, rest),
    decreases inc,
{
    if inc > 0 {
        lemma_hits_whole_turns(pos, d, (inc - 1) as nat, rest);
        let k = ((inc - 1) * 100 + rest) as nat;
        assert(inc * 100 + rest == k + 100) by (nonlinear_arith)
            requires
                k == (inc - 1) * 100 + rest,
        ;
        lemma_hits_periodic(pos, d, k);
        lemma_hits_first_turn(pos, d, 100);
    }
}

/// From a position on the dial and a number of clicks that is not negative, `turn`
/// adds to the count exactly the clicks that leave the dial at `0`, and leaves the
/// dial where the clicks end.
pub proof fn turn_counts_zero_clicks(pos: int, zeros: int, left: bool, num: int)
    requires
        0 <= pos <= 99,
        num >= 0,
    ensures
        turn_spec(pos, zeros, left, num).1 == zeros + zero_hits(
            pos,
            if left {
                -1
            } else {
                1
            },
            num as nat,
        ),
        turn_spec(pos, zeros, left, num).0 == (pos + (if left {
            -1
        } else {
            1
        }) * num) % 100,
{
    let d: int = if left {
        -1
    } else {
        1
    };
    let inc = num / 100;
    let num2 = num % 100;
    assert(div100(num) == inc);
    assert(num == inc * 100 + num2);
    lemma_hits_whole_turns(pos, d, inc as nat, num2 as nat);
    lemma_hits_first_turn(pos, d, num2 as nat);
    let x = pos + d * num2;
    assert(d * num == d * num2 + 100 * (d * inc)) by (nonlinear_arith)
        requires
            num == inc * 100 + num2,
    ;
    let e = d * inc;
    assert((x + 100 * e) % 100 == x % 100) by {
        vstd::arithmetic::div_mod::lemma_mod_multiples_vanish(e, x, 100);
        assert(100 * e + x == x + 100 * e);
    }
    assert(rem100(rem100(x) + 100) == x % 100);
}

} // verus!
