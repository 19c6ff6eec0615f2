//! The factory's machines, as the input lists them, and the totals over all machines
//! of the fewest presses for the lights and for the joltage counters.
use vstd::prelude::*;
use std::collections::HashMap;
use crate::decimal::{parse_in, parse_i32};
use crate::machines::{
    joltage_pick,
    dot, ints, is_min_plan, is_press_plan, occ, seq_sum, wire_count, wires_in_range, Button,
};
use crate::presses::{press_all, all_off, keys_apart, light_key, shortest_lights};
use crate::text::{ascii_words, chars_of, split_ascii_words, split_char, split_on};

verus! {

/// The lights of the first word: `.` off, `#` on, other characters skipped.
pub open spec fn leds_of(w: Seq<char>) -> Seq<bool>
    decreases w.len(),
{
    if w.len() == 0 {
        Seq::empty()
    } else {
        let rest = leds_of(w.drop_last());
        if w.last() == '.' {
            rest.push(false)
        } else if w.last() == '#' {
            rest.push(true)
        } else {
            rest
        }
    }
}

/// `s` without the characters `a` and `b`.
pub open spec fn without(s: Seq<char>, a: char, b: char) -> Seq<char>
    decreases s.len(),
{
    if s.len() == 0 {
        Seq::empty()
    } else {
        let rest = without(s.drop_last(), a, b);
        if s.last() == a || s.last() == b {
            rest
        } else {
            rest.push(s.last())
        }
    }
}

/// The numbers of a comma-separated list: each piece, without the brackets `a` and
/// `b`, kept when it reads as an `i32`.
pub open spec fn nums_of(pieces: Seq<Seq<char>>, a: char, b: char) -> Seq<i32>
    decreases pieces.len(),
{
    if pieces.len() == 0 {
        Seq::empty()
    } else {
        let rest = nums_of(pieces.drop_last(), a, b);
        match parse_in(without(pieces.last(), a, b), i32::MIN as int, i32::MAX as int) {
            Some(v) => rest.push(v as i32),
            None => rest,
        }
    }
}

/// A machine line `[.##.] (3) (1,3) ... {3,5,4,7}`: the lights, each button's wiring,
/// and the joltage targets. `None` when the line has fewer than two words.
pub open spec fn button_line(line: Seq<char>) -> Option<(Seq<bool>, Seq<Seq<i32>>, Seq<i32>)> {
    let ws = ascii_words(line);
    if ws.len() < 2 {
        None
    } else {
        Some(
            (
                leds_of(ws[0]),
                Seq::new((ws.len() - 2) as nat, |i: int| nums_of(split_on(ws[i + 1], ','), '(', ')')),
                nums_of(split_on(ws.last(), ','), '{', '}'),
            ),
        )
    }
}

fn leds_from(w: &[char]) -> (r: Vec<bool>)
    ensures
        r@ == leds_of(w@),
{
    let mut out: Vec<bool> = Vec::new();
    let mut i: usize = 0;
    while i < w.len()
        invariant
            i <= w.len(),
            out@ == leds_of(w@.take(i as int)),
        decreases w.len() - i,
    {
        assert(w@.take(i + 1).drop_last() =~= w@.take(i as int));
        if w[i] == '.' {
            out.push(false);
        } else if w[i] == '#' {
            out.push(true);
        }
        i += 1;
    }
    assert(w@.take(w.len() as int) =~= w@);
    out
}

fn strip(s: &[char], a: char, b: char) -> (r: Vec<char>)
    ensures
        r@ == without(s@, a, b),
{
    let mut out: Vec<char> = Vec::new();
    let mut i: usize = 0;
    while i < s.len()
        invariant
            i <= s.len(),
            out@ == without(s@.take(i as int), a, b),
        decreases s.len() - i,
    {
        assert(s@.take(i + 1).drop_last() =~= s@.take(i as int));
        if s[i] != a && s[i] != b {
            out.push(s[i]);
        }
        i += 1;
    }
    assert(s@.take(s.len() as int) =~= s@);
    out
}

fn numbers(w: &[char], a: char, b: char) -> (r: Vec<i32>)
    ensures
        r@ == nums_of(split_on(w@, ','), a, b),
{
    let pieces = split_char(w, ',');
    let ghost ps = split_on(w@, ',');
    let mut out: Vec<i32> = Vec::new();
    let mut i: usize = 0;
    while i < pieces.len()
        invariant
            i <= pieces.len(),
            ps == split_on(w@, ','),
            pieces@.len() == ps.len(),
            forall|k: int| 0 <= k < pieces@.len() ==> #[trigger] pieces@[k]@ == ps[k],
            out@ == nums_of(ps.take(i as int), a, b),
        decreases pieces.len() - i,
    {
        assert(ps.take(i + 1).drop_last() =~= ps.take(i as int));
        assert(pieces@[i as int]@ == ps[i as int]);
        let cleaned = strip(pieces[i].as_slice(), a, b);
        match parse_i32(cleaned.as_slice()) {
            Some(v) => {
                out.push(v);
            },
            None => {},
        }
        i += 1;
    }
    assert(ps.take(pieces.len() as int) =~= ps);
    out
}

/// Reads a machine line.
pub fn parse_button_line(line: &str) -> (r: Option<Button>)
    ensures
        r is None <==> button_line(line@) is None,
        r matches Some(b) ==> {
            let t = button_line(line@)->0;
            &&& b.target_leds@ == t.0
            &&& b.wirings@.len() == t.1.len()
            &&& forall|i: int| 0 <= i < b.wirings@.len() ==> (#[trigger] b.wirings@[i])@ == t.1[i]
            &&& b.joltage@ == t.2
            &&& b.hash_vault@ == Map::<u64, usize>::empty()
        },
{
    let cs = chars_of(line);
    let ws = split_ascii_words(cs.as_slice());
    if ws.len() < 2 {
        return None;
    }
    let ghost wv = ascii_words(line@);
    assert(ws@[0]@ == wv[0]);
    let target_leds = leds_from(ws[0].as_slice());
    let last = ws.len() - 1;
    assert(ws@[last as int]@ == wv.last());
    let joltage = numbers(ws[last].as_slice(), '{', '}');
    let mut wirings: Vec<Vec<i32>> = Vec::new();
    let mut i: usize = 1;
    while i < last
        invariant
            1 <= i <= last,
            last == ws@.len() - 1,
            wv == ascii_words(line@),
            ws@.len() == wv.len(),
            forall|k: int| 0 <= k < ws@.len() ==> #[trigger] ws@[k]@ == wv[k],
            wirings@.len() == i - 1,
            forall|k: int| 0 <= k < i - 1 ==> (#[trigger] wirings@[k])@ == nums_of(split_on(wv[k + 1], ','), '(', ')'),
        decreases last - i,
    {
        assert(ws@[i as int]@ == wv[i as int]);
        wirings.push(numbers(ws[i].as_slice(), '(', ')'));
        i += 1;
    }
    let b = Button { target_leds, wirings, joltage, hash_vault: HashMap::new() };
    Some(b)
}

/// What the light search found for a machine: nothing, or presses that light the target.
pub open spec fn lights_found(b: Button, steps: Seq<usize>) -> bool {
    &&& steps.len() > 0 ==> press_all(b.wirings@, all_off(b.target_leds@.len()), steps) == b.target_leds@
    &&& forall|k: int| 0 <= k < steps.len() ==> #[trigger] steps[k] < b.wirings@.len()
}

pub open spec fn lens_total(r: Seq<Vec<usize>>, k: int) -> int
    decreases k,
{
    if k <= 0 {
        0
    } else {
        lens_total(r, k - 1) + r[k - 1]@.len()
    }
}

/// Searches the light presses of every machine. Returns them with their total
/// number, or `None` for the total where it does not fit in a `usize`.
pub fn one(buttons: Vec<Button>) -> (r: (Vec<Vec<usize>>, Option<usize>))
    requires
        forall|i: int|
            0 <= i < buttons@.len() ==> wires_in_range(
                (#[trigger] buttons@[i]).wirings@,
                buttons@[i].target_leds@.len() as int,
            ),
    ensures
        r.0@.len() == buttons@.len(),
        forall|i: int| 0 <= i < buttons@.len() ==> lights_found(buttons@[i], #[trigger] r.0@[i]@),
        forall|i: int| 0 <= i < buttons@.len() && buttons@[i].hash_vault@.is_empty() && keys_apart(
            light_key,
            buttons@[i].wirings@,
            all_off(buttons@[i].target_leds@.len()),
        ) ==> shortest_lights(buttons@[i].wirings@, buttons@[i].target_leds@, #[trigger] r.0@[i]@),
        r.1 == (if lens_total(r.0@, r.0@.len() as int) <= usize::MAX {
            Some(lens_total(r.0@, r.0@.len() as int) as usize)
        } else {
            None::<usize>
        }),
{
    let ghost orig = buttons@;
    let mut buttons = buttons;
    let mut all: Vec<Vec<usize>> = Vec::new();
    let mut result: Option<usize> = Some(0);
    let mut i: usize = 0;
    while i < buttons.len()
        invariant
            i <= buttons.len(),
            buttons@.len() == orig.len(),
            forall|j: int| 0 <= j < orig.len() ==> wires_in_range((#[trigger] orig[j]).wirings@, orig[j].target_leds@.len() as int),
            forall|j: int| 0 <= j < orig.len() ==> (#[trigger] buttons@[j]).wirings@ == orig[j].wirings@
                && buttons@[j].target_leds@ == orig[j].target_leds@ && buttons@[j].joltage@ == orig[j].joltage@,
            all@.len() == i,
            forall|j: int| 0 <= j < i ==> lights_found(orig[j], #[trigger] all@[j]@),
            forall|j: int| 0 <= j < i && orig[j].hash_vault@.is_empty() && keys_apart(light_key, orig[j].wirings@, all_off(orig[j].target_leds@.len()))
                ==> shortest_lights(orig[j].wirings@, orig[j].target_leds@, #[trigger] all@[j]@),
            forall|j: int| i <= j < orig.len() ==> (#[trigger] buttons@[j]).hash_vault@ == orig[j].hash_vault@,
            result == (if lens_total(all@, i as int) <= usize::MAX {
                Some(lens_total(all@, i as int) as usize)
            } else {
                None::<usize>
            }),
            lens_total(all@, i as int) >= 0,
        decreases buttons.len() - i,
    {
        let ghost before = buttons@;
        assert(buttons@[i as int].wirings@ == orig[i as int].wirings@);
        let steps = buttons[i].solve_leds();
        assert forall|j: int| 0 <= j < orig.len() implies (#[trigger] buttons@[j]).wirings@ == orig[j].wirings@
            && buttons@[j].target_leds@ == orig[j].target_leds@ && buttons@[j].joltage@ == orig[j].joltage@ by {
            if j != i {
                assert(buttons@[j] == before[j]);
            }
        }
        assert forall|j: int| i + 1 <= j < orig.len() implies (#[trigger] buttons@[j]).hash_vault@ == orig[j].hash_vault@ by {
            assert(buttons@[j] == before[j]);
        }
        let n = steps.len();
        result = match result {
            Some(t) => t.checked_add(n),
            None => None,
        };
        let ghost a0 = all@;
        all.push(steps);
        proof {
            assert(lens_total(all@, i as int) == lens_total(a0, i as int)) by {
                lemma_lens_total_prefix(a0, all@, i as int);
            }
        }
        i += 1;
    }
    (all, result)
}

proof fn lemma_lens_total_prefix(a: Seq<Vec<usize>>, b: Seq<Vec<usize>>, k: int)
    requires
        0 <= k <= a.len(),
        k <= b.len(),
        forall|j: int| 0 <= j < k ==> a[j] == b[j],
    ensures
        lens_total(a, k) == lens_total(b, k),
        lens_total(a, k) >= 0,
    decreases k,
{
    if k > 0 {
        lemma_lens_total_prefix(a, b, k - 1);
    }
}

/// The fewest presses that bring the counters to `t`.
pub open spec fn min_presses(w: Seq<Vec<i32>>, t: Seq<int>) -> int {
    (choose|px: (int, Seq<int>)| is_min_plan(w, t, px.0, px.1)).0
}

/// The joltage search of the machine runs (its sizes and wiring are in range).
pub open spec fn solvable(b: Button) -> bool {
    &&& b.wirings@.len() < usize::BITS
    &&& (b.wirings@.len() as int) + seq_sum(ints(b.joltage@)) <= usize::MAX
    &&& wires_in_range(b.wirings@, b.joltage@.len() as int)
    &&& wire_count(b.wirings@) <= i32::MAX
}

pub open spec fn presses_total(bs: Seq<Button>, k: int) -> int
    decreases k,
{
    if k <= 0 {
        0
    } else {
        presses_total(bs, k - 1) + min_presses(bs[k - 1].wirings@, ints(bs[k - 1].joltage@))
    }
}

/// Every machine can reach its joltage, and the totals fit in an `i32`.
pub open spec fn two_ok(bs: Seq<Button>) -> bool {
    &&& forall|i: int| 0 <= i < bs.len() ==> solvable(#[trigger] bs[i])
    &&& forall|i: int|
        0 <= i < bs.len() ==> exists|x: Seq<int>| is_press_plan((#[trigger] bs[i]).wirings@, ints(bs[i].joltage@), x)
    &&& forall|k: int| 0 <= k <= bs.len() ==> 0 <= #[trigger] presses_total(bs, k) <= i32::MAX
}

proof fn lemma_min_presses(w: Seq<Vec<i32>>, t: Seq<int>, p: int, x: Seq<int>)
    requires
        is_min_plan(w, t, p, x),
    ensures
        min_presses(w, t) == p,
{
    assert(is_min_plan(w, t, (p, x).0, (p, x).1));
    let qy = choose|px: (int, Seq<int>)| is_min_plan(w, t, px.0, px.1);
    assert(is_press_plan(w, t, x));
    assert(is_press_plan(w, t, qy.1));
}

proof fn lemma_sum_prefix(x: Seq<int>, k: int)
    requires
        0 <= k <= x.len(),
        forall|i: int| 0 <= i < x.len() ==> x[i] >= 0,
    ensures
        0 <= seq_sum(x.take(k)) <= seq_sum(x),
    decreases x.len() - k,
{
    if k < x.len() {
        lemma_sum_prefix(x, k + 1);
        assert(x.take(k + 1).drop_last() =~= x.take(k));
    } else {
        assert(x.take(k) =~= x);
    }
    lemma_sum_nonneg(x.take(k));
}

proof fn lemma_sum_nonneg(x: Seq<int>)
    requires
        forall|i: int| 0 <= i < x.len() ==> x[i] >= 0,
    ensures
        seq_sum(x) >= 0,
    decreases x.len(),
{
    if x.len() > 0 {
        lemma_sum_nonneg(x.drop_last());
    }
}

proof fn lemma_occ_prefix(s: Seq<i32>, j: int, k: int)
    requires
        0 <= k <= s.len(),
    ensures
        0 <= occ(s.take(k), j) <= occ(s, j),
    decreases s.len() - k,
{
    if k < s.len() {
        lemma_occ_prefix(s, j, k + 1);
        assert(s.take(k + 1).drop_last() =~= s.take(k));
    } else {
        assert(s.take(k) =~= s);
    }
    lemma_occ_nonneg(s.take(k), j);
}

proof fn lemma_occ_nonneg(s: Seq<i32>, j: int)
    ensures
        occ(s, j) >= 0,
    decreases s.len(),
{
    if s.len() > 0 {
        lemma_occ_nonneg(s.drop_last(), j);
    }
}

proof fn lemma_dot_nonneg(w: Seq<Vec<i32>>, x: Seq<int>, j: int)
    requires
        forall|i: int| 0 <= i < x.len() ==> x[i] >= 0,
    ensures
        dot(w, x, j) >= 0,
    decreases x.len(),
{
    if x.len() > 0 {
        let d = x.drop_last();
        lemma_dot_nonneg(w, d, j);
        lemma_occ_nonneg(w[x.len() - 1]@, j);
        let a = x.last();
        let b = occ(w[x.len() - 1]@, j);
        assert(a * b >= 0) by (nonlinear_arith)
            requires
                a >= 0,
                b >= 0,
        ;
    }
}

proof fn lemma_dot_prefix(w: Seq<Vec<i32>>, x: Seq<int>, j: int, k: int)
    requires
        0 <= k <= x.len(),
        forall|i: int| 0 <= i < x.len() ==> x[i] >= 0,
    ensures
        0 <= dot(w, x.take(k), j) <= dot(w, x, j),
    decreases x.len() - k,
{
    if k < x.len() {
        lemma_dot_prefix(w, x, j, k + 1);
        let t = x.take(k + 1);
        assert(t.drop_last() =~= x.take(k));
        lemma_occ_nonneg(w[k]@, j);
        assert(x[k] * occ(w[k]@, j) >= 0) by (nonlinear_arith)
            requires
                x[k] >= 0,
                occ(w[k]@, j) >= 0,
        ;
    } else {
        assert(x.take(k) =~= x);
    }
    lemma_dot_nonneg(w, x.take(k), j);
}

/// How often each counter is raised by pressing each button `steps[i]` times.
fn press_counts(wirings: &Vec<Vec<i32>>, steps: &Vec<i32>, len: usize, Ghost(t): Ghost<Seq<int>>) -> (r: Vec<i32>)
    requires
        steps@.len() == wirings@.len(),
        wires_in_range(wirings@, len as int),
        t.len() == len,
        is_press_plan(wirings@, t, ints(steps@)),
        forall|j: int| 0 <= j < len ==> t[j] <= i32::MAX,
    ensures
        ints(r@) == t,
{
    let ghost x = ints(steps@);
    let ghost w = wirings@;
    let mut check: Vec<i32> = Vec::new();
    let mut z: usize = 0;
    while z < len
        invariant
            z <= len,
            check@ == Seq::new(z as nat, |j: int| 0i32),
        decreases len - z,
    {
        check.push(0);
        z += 1;
        assert(check@ =~= Seq::new(z as nat, |j: int| 0i32));
    }
    let mut i: usize = 0;
    while i < steps.len()
        invariant
            i <= steps.len(),
            steps@.len() == w.len(),
            w == wirings@,
            x == ints(steps@),
            wires_in_range(w, len as int),
            t.len() == len,
            is_press_plan(w, t, x),
            forall|j: int| 0 <= j < len ==> t[j] <= i32::MAX,
            check@.len() == len,
            forall|j: int| 0 <= j < len ==> #[trigger] check@[j] == dot(w, x.take(i as int), j),
        decreases steps.len() - i,
    {
        let count = steps[i];
        assert(x[i as int] == count);
        assert(count >= 0);
        let wiring = &wirings[i];
        let ghost s = wiring@;
        let ghost base = x.take(i as int);
        let mut k: usize = 0;
        while k < wiring.len()
            invariant
                k <= wiring.len(),
                i < steps.len(),
                s == wiring@,
                s == w[i as int]@,
                steps@.len() == w.len(),
                w == wirings@,
                x == ints(steps@),
                base == x.take(i as int),
                count == x[i as int],
                count >= 0,
                wires_in_range(w, len as int),
                t.len() == len,
                is_press_plan(w, t, x),
                forall|j: int| 0 <= j < len ==> t[j] <= i32::MAX,
                check@.len() == len,
                forall|j: int| 0 <= j < len ==> #[trigger] check@[j] == dot(w, base, j) + count * occ(s.take(k as int), j),
            decreases wiring.len() - k,
        {
            let jj = wiring[k];
            assert(0 <= jj < len);
            proof {
                assert(s.take(k + 1).drop_last() =~= s.take(k as int));
                lemma_occ_prefix(s, jj as int, k + 1);
                lemma_dot_prefix(w, x, jj as int, i + 1);
                let t1 = x.take(i + 1);
                assert(t1.drop_last() =~= base);
                assert(dot(w, t1, jj as int) == dot(w, base, jj as int) + count * occ(s, jj as int));
                let a = occ(s.take(k + 1), jj as int);
                let b = occ(s, jj as int);
                assert(count * a <= count * b) by (nonlinear_arith)
                    requires
                        0 <= a <= b,
                        count >= 0,
                ;
                assert(dot(w, x, jj as int) == t[jj as int]);
                assert(s[k as int] == jj);
                assert(occ(s.take(k + 1), jj as int) == occ(s.take(k as int), jj as int) + 1);
                let o = occ(s.take(k as int), jj as int);
                assert(count * (o + 1) == count * o + count) by (nonlinear_arith);
                lemma_dot_prefix(w, x, jj as int, i as int);
                lemma_occ_nonneg(s.take(k as int), jj as int);
                assert(count * o >= 0) by (nonlinear_arith)
                    requires
                        count >= 0,
                        o >= 0,
                ;
            }
            let ghost c0 = check@;
            check.set(jj as usize, check[jj as usize] + count);
            proof {
                assert forall|j: int| 0 <= j < len implies #[trigger] check@[j] == dot(w, base, j) + count * occ(s.take(k + 1), j) by {
                    assert(s.take(k + 1).drop_last() =~= s.take(k as int));
                    if j != jj {
                        assert(check@[j] == c0[j]);
                    } else {
                        assert(count * occ(s.take(k + 1), j) == count * occ(s.take(k as int), j) + count) by (nonlinear_arith)
                            requires
                                occ(s.take(k + 1), j) == occ(s.take(k as int), j) + 1,
                        ;
                    }
                }
            }
            k += 1;
        }
        proof {
            assert(s.take(wiring.len() as int) =~= s);
            let t1 = x.take(i + 1);
            assert(t1.drop_last() =~= base);
            assert forall|j: int| 0 <= j < len implies #[trigger] check@[j] == dot(w, x.take(i + 1), j) by {}
        }
        i += 1;
    }
    proof {
        assert(x.take(steps.len() as int) =~= x);
        assert(ints(check@) =~= t) by {
            assert forall|j: int| 0 <= j < len implies ints(check@)[j] == t[j] by {
                assert(check@[j] == dot(w, x, j));
            }
        }
    }
    check
}

/// Solves the joltage of every machine. For each: a plan with the fewest presses, its
/// number of presses, and the counters it reaches (which are the targets). Also the
/// total number of presses.
pub fn two_2(buttons: Vec<Button>) -> (r: (i32, Vec<(Vec<i32>, i32, Vec<i32>)>))
    requires
        two_ok(buttons@),
    ensures
        r.0 == presses_total(buttons@, buttons@.len() as int),
        r.1@.len() == buttons@.len(),
        forall|i: int|
            0 <= i < buttons@.len() ==> {
                let e = #[trigger] r.1@[i];
                &&& is_min_plan(buttons@[i].wirings@, ints(buttons@[i].joltage@), e.1 as int, ints(e.0@))
                &&& e.1 == min_presses(buttons@[i].wirings@, ints(buttons@[i].joltage@))
                &&& e.2@ == buttons@[i].joltage@
                &&& joltage_pick(buttons@[i].wirings@, buttons@[i].joltage@.len() as nat, ints(buttons@[i].joltage@))
                    matches Some(p) && ints(e.0@) == p.1
            },
{
    let ghost orig = buttons@;
    let mut buttons = buttons;
    let mut result: i32 = 0;
    let mut out: Vec<(Vec<i32>, i32, Vec<i32>)> = Vec::new();
    let mut i: usize = 0;
    while i < buttons.len()
        invariant
            i <= buttons.len(),
            buttons@.len() == orig.len(),
            two_ok(orig),
            forall|j: int| 0 <= j < orig.len() ==> (#[trigger] buttons@[j]).wirings@ == orig[j].wirings@
                && buttons@[j].joltage@ == orig[j].joltage@ && buttons@[j].target_leds@ == orig[j].target_leds@,
            result == presses_total(orig, i as int),
            out@.len() == i,
            forall|j: int|
                0 <= j < i ==> {
                    let e = #[trigger] out@[j];
                    &&& is_min_plan(orig[j].wirings@, ints(orig[j].joltage@), e.1 as int, ints(e.0@))
                    &&& e.1 == min_presses(orig[j].wirings@, ints(orig[j].joltage@))
                    &&& e.2@ == orig[j].joltage@
                    &&& joltage_pick(orig[j].wirings@, orig[j].joltage@.len() as nat, ints(orig[j].joltage@))
                        matches Some(p) && ints(e.0@) == p.1
                },
        decreases buttons.len() - i,
    {
        let ghost before = buttons@;
        let ghost w = orig[i as int].wirings@;
        let ghost t = ints(orig[i as int].joltage@);
        assert(solvable(orig[i as int]));
        assert(exists|x: Seq<int>| is_press_plan(w, t, x));
        let found = buttons[i].solve_joltage_optimized();
        proof {
            assert(before[i as int].wirings@ == w && before[i as int].joltage@ == orig[i as int].joltage@);
            assert(joltage_pick(w, orig[i as int].joltage@.len() as nat, t) matches Some(p) && ints(found->0@) == p.1);
        }
        let steps = found.unwrap();
        assert forall|j: int| 0 <= j < orig.len() implies (#[trigger] buttons@[j]).wirings@ == orig[j].wirings@
            && buttons@[j].joltage@ == orig[j].joltage@ && buttons@[j].target_leds@ == orig[j].target_leds@ by {
            if j != i {
                assert(buttons@[j] == before[j]);
            }
        }
        let ghost x = ints(steps@);
        proof {
            lemma_min_presses(w, t, seq_sum(x), x);
            assert(0 <= presses_total(orig, i + 1) <= i32::MAX);
            assert(0 <= presses_total(orig, i as int) <= i32::MAX);
        }
        let mut min_steps: i32 = 0;
        let mut k: usize = 0;
        while k < steps.len()
            invariant
                k <= steps.len(),
                x == ints(steps@),
                forall|q: int| 0 <= q < x.len() ==> x[q] >= 0,
                seq_sum(x) <= i32::MAX,
                min_steps == seq_sum(x.take(k as int)),
            decreases steps.len() - k,
        {
            proof {
                lemma_sum_prefix(x, k + 1);
                assert(x.take(k + 1).drop_last() =~= x.take(k as int));
            }
            min_steps = min_steps + steps[k];
            k += 1;
        }
        assert(x.take(steps.len() as int) =~= x);
        let check = press_counts(&buttons[i].wirings, &steps, buttons[i].joltage.len(), Ghost(t));
        assert(check@ =~= orig[i as int].joltage@) by {
            assert forall|j: int| 0 <= j < check@.len() implies check@[j] == orig[i as int].joltage@[j] by {
                assert(ints(check@)[j] == t[j]);
            }
        }
        result = result + min_steps;
        let ghost out0 = out@;
        out.push((steps, min_steps, check));
        proof {
            assert forall|j: int| 0 <= j < i + 1 implies {
                let e = #[trigger] out@[j];
                &&& is_min_plan(orig[j].wirings@, ints(orig[j].joltage@), e.1 as int, ints(e.0@))
                &&& e.1 == min_presses(orig[j].wirings@, ints(orig[j].joltage@))
                &&& e.2@ == orig[j].joltage@
                &&& joltage_pick(orig[j].wirings@, orig[j].joltage@.len() as nat, ints(orig[j].joltage@))
                    matches Some(p) && ints(e.0@) == p.1
            } by {
                if j < i {
                    assert(out@[j] == out0[j]);
                }
            }
        }
        i += 1;
    }
    (result, out)
}

} // verus!
