//! Factory machines: light toggling and joltage counters driven by buttons.
//!
//! Each button is wired to some counters (or lights). Pressing it toggles those
//! lights, or adds one to those counters. The joltage search finds a minimum
//! number of presses that brings every counter to its target, by splitting off
//! the presses that fix the parity and halving the rest.
use std::collections::HashMap;
use vstd::prelude::*;
use vstd::arithmetic::power2::{pow2, lemma_pow2_unfold, lemma_pow2_pos};
use vstd::string::StringExecFns;
use crate::text::{push_char, push_chars};
use crate::decimal::{dec_str, int_to_chars};

verus! {

/// A machine: the light pattern to reach, the wiring of each button (the lights
/// or counters it acts on), the joltage targets, and the best press counts seen
/// so far for each visited state (by its hash).
#[derive(Debug, Clone)]
pub struct Button {
    pub target_leds: Vec<bool>,
    pub wirings: Vec<Vec<i32>>,
    pub joltage: Vec<i32>,
    pub hash_vault: HashMap<u64, usize>,
}

impl Default for Button {
    /// A machine with no lights, buttons or counters.
    fn default() -> (r: Button)
        ensures
            r.target_leds@.len() == 0,
            r.wirings@.len() == 0,
            r.joltage@.len() == 0,
            r.hash_vault@ == Map::<u64, usize>::empty(),
    {
        Button { target_leds: Vec::new(), wirings: Vec::new(), joltage: Vec::new(), hash_vault: HashMap::new() }
    }
}

/// One way of pressing each button at most once.
#[derive(Debug, Clone)]
pub struct ComboObj {
    pub presses: usize,
    pub joltage: Vec<i32>,
    pub button_indices: Vec<usize>,
}

/// How often `j` occurs in `s`.
pub open spec fn occ(s: Seq<i32>, j: int) -> int
    decreases s.len(),
{
    if s.len() == 0 {
        0
    } else {
        occ(s.drop_last(), j) + if s.last() == j {
            1int
        } else {
            0int
        }
    }
}

/// The joltage at counter `j` after pressing button `i` `x[i]` times, for the
/// first `x.len()` buttons.
pub open spec fn dot(w: Seq<Vec<i32>>, x: Seq<int>, j: int) -> int
    decreases x.len(),
{
    if x.len() == 0 {
        0
    } else {
        dot(w, x.drop_last(), j) + x.last() * occ(w[x.len() - 1]@, j)
    }
}

pub open spec fn seq_sum(x: Seq<int>) -> int
    decreases x.len(),
{
    if x.len() == 0 {
        0
    } else {
        seq_sum(x.drop_last()) + x.last()
    }
}

pub open spec fn ints(s: Seq<i32>) -> Seq<int> {
    s.map_values(|v: i32| v as int)
}

/// The counters reached by the presses `x`, on `len` counters.
pub open spec fn jolt_of(w: Seq<Vec<i32>>, len: nat, x: Seq<int>) -> Seq<int> {
    Seq::new(len, |j: int| dot(w, x, j))
}

/// `x` presses each button a natural number of times and reaches exactly `t`.
pub open spec fn is_press_plan(w: Seq<Vec<i32>>, t: Seq<int>, x: Seq<int>) -> bool {
    &&& x.len() == w.len()
    &&& forall|i: int| 0 <= i < x.len() ==> x[i] >= 0
    &&& forall|j: int| 0 <= j < t.len() ==> #[trigger] dot(w, x, j) == t[j]
}

/// `(p, s)` is a press plan for `t` with the fewest presses, `p` in all.
pub open spec fn is_min_plan(w: Seq<Vec<i32>>, t: Seq<int>, p: int, s: Seq<int>) -> bool {
    &&& is_press_plan(w, t, s)
    &&& p == seq_sum(s)
    &&& forall|x: Seq<int>| #[trigger] is_press_plan(w, t, x) ==> p <= seq_sum(x)
}

/// The answer of the joltage search for target `t`: a plan with the fewest
/// presses, or `None` exactly where no plan reaches `t`.
pub open spec fn solves(w: Seq<Vec<i32>>, t: Seq<int>, r: Option<(usize, Vec<i32>)>) -> bool {
    match r {
        None => forall|x: Seq<int>| !#[trigger] is_press_plan(w, t, x),
        Some(pr) => is_min_plan(w, t, pr.0 as int, ints(pr.1@)),
    }
}

/// Every wire of every button names one of `len` counters (or lights).
pub open spec fn wires_in_range(w: Seq<Vec<i32>>, len: int) -> bool {
    forall|i: int, k: int| 0 <= i < w.len() && 0 <= k < w[i]@.len() ==> 0 <= #[trigger] w[i]@[k] < len
}

/// The number of wires over all buttons.
pub open spec fn wire_count(w: Seq<Vec<i32>>) -> int
    decreases w.len(),
{
    if w.len() == 0 {
        0
    } else {
        wire_count(w.drop_last()) + w.last()@.len()
    }
}

/// `'0'` for an even counter, `'1'` for an odd one.
pub open spec fn parity_pattern(v: Seq<int>) -> Seq<char> {
    Seq::new(v.len(), |j: int| if v[j] % 2 == 0 { '0' } else { '1' })
}

/// Bit `k` of `n`.
pub open spec fn bit(n: nat, k: nat) -> bool {
    (n / pow2(k)) % 2 == 1
}

/// The 0/1 presses that mask `n` selects among `m` buttons: button `i` is bit `m - 1 - i`.
pub open spec fn sel_vec(m: nat, n: nat) -> Seq<int> {
    Seq::new(m, |i: int| if bit(n, (m - 1 - i) as nat) { 1int } else { 0int })
}

/// The buttons below `upto` that mask `n` selects, in increasing order.
pub open spec fn chosen(m: nat, n: nat, upto: int) -> Seq<usize>
    decreases upto,
{
    if upto <= 0 {
        Seq::empty()
    } else if bit(n, (m - upto) as nat) {
        chosen(m, n, upto - 1).push((upto - 1) as usize)
    } else {
        chosen(m, n, upto - 1)
    }
}

/// The combination for mask `n`: presses, joltage, button indices.
pub open spec fn combo_spec(w: Seq<Vec<i32>>, len: nat, n: nat) -> (nat, Seq<int>, Seq<usize>) {
    let m = w.len();
    (chosen(m, n, m as int).len(), jolt_of(w, len, sel_vec(m, n)), chosen(m, n, m as int))
}

pub open spec fn cview(c: ComboObj) -> (nat, Seq<int>, Seq<usize>) {
    (c.presses as nat, ints(c.joltage@), c.button_indices@)
}

pub open spec fn tview(t: Seq<(String, Vec<ComboObj>)>) -> Seq<
    (Seq<char>, Seq<(nat, Seq<int>, Seq<usize>)>),
> {
    t.map_values(|e: (String, Vec<ComboObj>)| (e.0@, e.1@.map_values(|c: ComboObj| cview(c))))
}

pub open spec fn key_index(t: Seq<(Seq<char>, Seq<(nat, Seq<int>, Seq<usize>)>)>, key: Seq<char>) -> int {
    choose|e: int| 0 <= e < t.len() && t[e].0 == key
}

/// The grouped table after adding combination `c`: appended to the list under its
/// pattern, or under a new key at the end.
pub open spec fn table_insert(
    t: Seq<(Seq<char>, Seq<(nat, Seq<int>, Seq<usize>)>)>,
    c: (nat, Seq<int>, Seq<usize>),
) -> Seq<(Seq<char>, Seq<(nat, Seq<int>, Seq<usize>)>)> {
    let key = parity_pattern(c.1);
    if exists|e: int| 0 <= e < t.len() && t[e].0 == key {
        let e = key_index(t, key);
        t.update(e, (key, t[e].1.push(c)))
    } else {
        t.push((key, seq![c]))
    }
}

/// The combinations of the masks below `upto`, grouped by pattern.
pub open spec fn table_upto(w: Seq<Vec<i32>>, len: nat, upto: nat) -> Seq<
    (Seq<char>, Seq<(nat, Seq<int>, Seq<usize>)>),
>
    decreases upto,
{
    if upto == 0 {
        Seq::empty()
    } else {
        table_insert(table_upto(w, len, (upto - 1) as nat), combo_spec(w, len, (upto - 1) as nat))
    }
}

/// Keys are distinct, every combination sits under its own pattern and comes from
/// a mask below `upto`, and every such mask has its combination in the table.
pub open spec fn table_ok(
    w: Seq<Vec<i32>>,
    len: nat,
    upto: nat,
    t: Seq<(Seq<char>, Seq<(nat, Seq<int>, Seq<usize>)>)>,
) -> bool {
    &&& forall|a: int, b: int| 0 <= a < t.len() && 0 <= b < t.len() && a != b ==> t[a].0 != t[b].0
    &&& forall|e: int, k: int|
        #![trigger t[e].1[k]]
        0 <= e < t.len() && 0 <= k < t[e].1.len() ==> {
            &&& t[e].0 == parity_pattern(t[e].1[k].1)
            &&& exists|n: nat| n < upto && t[e].1[k] == combo_spec(w, len, n)
        }
    &&& forall|n: nat|
        #![trigger combo_spec(w, len, n)]
        n < upto ==> exists|e: int, k: int|
            0 <= e < t.len() && 0 <= k < t[e].1.len() && #[trigger] t[e].1[k] == combo_spec(
                w,
                len,
                n,
            )
}

#[verifier::rlimit(40)]
proof fn lemma_table_insert_ok(
    w: Seq<Vec<i32>>,
    len: nat,
    n: nat,
    t: Seq<(Seq<char>, Seq<(nat, Seq<int>, Seq<usize>)>)>,
)
    requires
        table_ok(w, len, n, t),
    ensures
        table_ok(w, len, n + 1, table_insert(t, combo_spec(w, len, n))),
{
    let c = combo_spec(w, len, n);
    let key = parity_pattern(c.1);
    let t2 = table_insert(t, c);
    if exists|e: int| 0 <= e < t.len() && t[e].0 == key {
        let e0 = key_index(t, key);
        assert(t2 == t.update(e0, (key, t[e0].1.push(c))));
        assert forall|a: int, b: int| 0 <= a < t2.len() && 0 <= b < t2.len() && a != b implies t2[a].0 != t2[b].0 by {
            assert(t2[a].0 == t[a].0);
            assert(t2[b].0 == t[b].0);
        }
        assert forall|e: int, k: int| #![trigger t2[e].1[k]] 0 <= e < t2.len() && 0 <= k < t2[e].1.len() implies {
            &&& t2[e].0 == parity_pattern(t2[e].1[k].1)
            &&& exists|m: nat| m < n + 1 && t2[e].1[k] == combo_spec(w, len, m)
        } by {
            if e == e0 && k == t[e0].1.len() {
                assert(t2[e].1[k] == c);
            } else {
                assert(t2[e].1[k] == t[e].1[k]);
                let m = choose|m: nat| m < n && t[e].1[k] == combo_spec(w, len, m);
            }
        }
        assert forall|m: nat| #![trigger combo_spec(w, len, m)] m < n + 1 implies exists|e: int, k: int|
            0 <= e < t2.len() && 0 <= k < t2[e].1.len() && #[trigger] t2[e].1[k] == combo_spec(
                w,
                len,
                m,
            ) by {
            if m == n {
                assert(t2[e0].1[t[e0].1.len() as int] == c);
            } else {
                let (e, k) = choose|e: int, k: int|
                    0 <= e < t.len() && 0 <= k < t[e].1.len() && #[trigger] t[e].1[k]
                        == combo_spec(w, len, m);
                assert(t2[e].1[k] == t[e].1[k]);
            }
        }
    } else {
        assert(t2 == t.push((key, seq![c])));
        assert forall|a: int, b: int| 0 <= a < t2.len() && 0 <= b < t2.len() && a != b implies t2[a].0 != t2[b].0 by {
            if a < t.len() && b < t.len() {
                assert(t2[a].0 == t[a].0);
                assert(t2[b].0 == t[b].0);
            } else if a < t.len() {
                assert(t2[a].0 == t[a].0);
            } else {
                assert(t2[b].0 == t[b].0);
            }
        }
        assert forall|e: int, k: int| #![trigger t2[e].1[k]] 0 <= e < t2.len() && 0 <= k < t2[e].1.len() implies {
            &&& t2[e].0 == parity_pattern(t2[e].1[k].1)
            &&& exists|m: nat| m < n + 1 && t2[e].1[k] == combo_spec(w, len, m)
        } by {
            if e == t.len() {
                assert(t2[e].1[k] == c);
            } else {
                assert(t2[e].1[k] == t[e].1[k]);
                let m = choose|m: nat| m < n && t[e].1[k] == combo_spec(w, len, m);
            }
        }
        assert forall|m: nat| #![trigger combo_spec(w, len, m)] m < n + 1 implies exists|e: int, k: int|
            0 <= e < t2.len() && 0 <= k < t2[e].1.len() && #[trigger] t2[e].1[k] == combo_spec(
                w,
                len,
                m,
            ) by {
            if m == n {
                assert(t2[t.len() as int].1[0] == c);
            } else {
                let (e, k) = choose|e: int, k: int|
                    0 <= e < t.len() && 0 <= k < t[e].1.len() && #[trigger] t[e].1[k]
                        == combo_spec(w, len, m);
                assert(t2[e].1[k] == t[e].1[k]);
            }
        }
    }
}

/// The table of all masks below `upto` is well formed.
pub proof fn lemma_table_upto_ok(w: Seq<Vec<i32>>, len: nat, upto: nat)
    ensures
        table_ok(w, len, upto, table_upto(w, len, upto)),
    decreases upto,
{
    if upto > 0 {
        lemma_table_upto_ok(w, len, (upto - 1) as nat);
        lemma_table_insert_ok(w, len, (upto - 1) as nat, table_upto(w, len, (upto - 1) as nat));
    }
}


pub open spec fn keys_distinct(t: Seq<(Seq<char>, Seq<(nat, Seq<int>, Seq<usize>)>)>) -> bool {
    forall|a: int, b: int| 0 <= a < t.len() && 0 <= b < t.len() && a != b ==> t[a].0 != t[b].0
}

proof fn lemma_shr_bit(n: usize, k: usize)
    requires
        k < usize::BITS,
    ensures
        ((n >> k) & 1 == 1) == bit(n as nat, k as nat),
{
    vstd::bits::lemma_usize_shr_is_div(n, k);
    let y = n >> k;
    assert(y & 1 == y % 2) by (bit_vector);
}

proof fn lemma_wire_count_take(w: Seq<Vec<i32>>, i: int)
    requires
        0 <= i < w.len(),
    ensures
        wire_count(w.take(i + 1)) == wire_count(w.take(i)) + w[i]@.len(),
        wire_count(w.take(i + 1)) <= wire_count(w),
    decreases w.len() - i,
{
    assert(w.take(i + 1).drop_last() =~= w.take(i));
    if i + 1 < w.len() {
        lemma_wire_count_take(w, i + 1);
    } else {
        assert(w.take(i + 1) =~= w);
    }
}

proof fn lemma_occ_bounds(s: Seq<i32>, j: int)
    ensures
        0 <= occ(s, j) <= s.len(),
    decreases s.len(),
{
    if s.len() > 0 {
        lemma_occ_bounds(s.drop_last(), j);
    }
}

proof fn lemma_occ_take(s: Seq<i32>, k: int, j: int)
    requires
        0 <= k < s.len(),
    ensures
        occ(s.take(k + 1), j) == occ(s.take(k), j) + if s[k] == j { 1int } else { 0int },
{
    assert(s.take(k + 1).drop_last() =~= s.take(k));
}

proof fn lemma_dot_take(w: Seq<Vec<i32>>, x: Seq<int>, i: int, j: int)
    requires
        0 <= i < x.len(),
    ensures
        dot(w, x.take(i + 1), j) == dot(w, x.take(i), j) + x[i] * occ(w[i]@, j),
{
    assert(x.take(i + 1).drop_last() =~= x.take(i));
}

/// With each button pressed at most once, a counter reaches at most the number of wires.
proof fn lemma_dot_01_bound(w: Seq<Vec<i32>>, x: Seq<int>, i: int, j: int)
    requires
        0 <= i <= x.len(),
        x.len() <= w.len(),
        forall|k: int| 0 <= k < x.len() ==> x[k] == 0 || x[k] == 1,
    ensures
        0 <= dot(w, x.take(i), j) <= wire_count(w.take(i)),
    decreases i,
{
    if i > 0 {
        lemma_dot_01_bound(w, x, i - 1, j);
        lemma_dot_take(w, x, i - 1, j);
        lemma_wire_count_take(w, i - 1);
        lemma_occ_bounds(w[i - 1]@, j);
    } else {
        assert(x.take(0) =~= Seq::<int>::empty());
        assert(w.take(0) =~= Seq::<Vec<i32>>::empty());
    }
}

proof fn lemma_chosen_step(m: nat, n: nat, i: int)
    requires
        0 <= i < m,
    ensures
        chosen(m, n, i + 1) == if bit(n, (m - 1 - i) as nat) {
            chosen(m, n, i).push(i as usize)
        } else {
            chosen(m, n, i)
        },
{
}

/// The index of the entry with key `key`, if there is one.
fn find_key(table: &Vec<(String, Vec<ComboObj>)>, key: &String) -> (r: Option<usize>)
    ensures
        match r {
            Some(e) => e < table@.len() && table@[e as int].0@ == key@,
            None => forall|a: int| 0 <= a < table@.len() ==> table@[a].0@ != key@,
        },
{
    let mut e: usize = 0;
    while e < table.len()
        invariant
            e <= table@.len(),
            forall|a: int| 0 <= a < e ==> table@[a].0@ != key@,
        decreases table.len() - e,
    {
        if table[e].0 == *key {
            return Some(e);
        }
        e = e + 1;
    }
    None
}

/// Adds the combination for mask `bitwise_combo` to the table, under its pattern.
pub fn fill_patterns_and_combos_with(
    bitwise_combo: usize,
    buttons: &Vec<Vec<i32>>,
    joltages_length: usize,
    combos_by_pattern: &mut Vec<(String, Vec<ComboObj>)>,
)
    requires
        buttons@.len() < usize::BITS,
        wires_in_range(buttons@, joltages_length as int),
        wire_count(buttons@) <= i32::MAX,
        keys_distinct(tview(old(combos_by_pattern)@)),
    ensures
        tview(final(combos_by_pattern)@) == table_insert(
            tview(old(combos_by_pattern)@),
            combo_spec(buttons@, joltages_length as nat, bitwise_combo as nat),
        ),
{
    let ghost w = buttons@;
    let m = buttons.len();
    let ghost sel = sel_vec(m as nat, bitwise_combo as nat);
    let mut presses: usize = 0;
    let mut joltage: Vec<i32> = Vec::new();
    let mut z: usize = 0;
    while z < joltages_length
        invariant
            z <= joltages_length,
            joltage@.len() == z,
            forall|j: int| 0 <= j < z ==> joltage@[j] == 0,
        decreases joltages_length - z,
    {
        joltage.push(0);
        z = z + 1;
    }
    let mut button_indices: Vec<usize> = Vec::new();
    let mut button_index: usize = 0;
    while button_index < m
        invariant
            m == buttons@.len(),
            w == buttons@,
            m < usize::BITS,
            sel == sel_vec(m as nat, bitwise_combo as nat),
            wires_in_range(w, joltages_length as int),
            wire_count(w) <= i32::MAX,
            button_index <= m,
            joltage@.len() == joltages_length,
            forall|j: int| 0 <= j < joltages_length ==> #[trigger] joltage@[j] == dot(w, sel.take(button_index as int), j),
            button_indices@ == chosen(m as nat, bitwise_combo as nat, button_index as int),
            presses == button_indices@.len(),
            presses <= button_index,
        decreases m - button_index,
    {
        let adjusted_button_index = m - 1 - button_index;
        let button_value_in_bitwise_combo = bitwise_combo >> adjusted_button_index;
        proof {
            lemma_shr_bit(bitwise_combo, adjusted_button_index);
            lemma_chosen_step(m as nat, bitwise_combo as nat, button_index as int);
            assert forall|j: int| 0 <= j < joltages_length implies #[trigger] dot(w, sel.take(button_index + 1), j)
                == dot(w, sel.take(button_index as int), j) + sel[button_index as int] * occ(w[button_index as int]@, j) by {
                lemma_dot_take(w, sel, button_index as int, j);
            }
        }
        if (button_value_in_bitwise_combo & 1) != 1 {
            proof {
                assert(sel[button_index as int] == 0);
                assert forall|j: int| 0 <= j < joltages_length implies #[trigger] joltage@[j] == dot(w, sel.take(button_index + 1), j) by {
                    assert(dot(w, sel.take(button_index + 1), j) == dot(w, sel.take(button_index as int), j) + sel[button_index as int] * occ(w[button_index as int]@, j));
                }
            }
            button_index = button_index + 1;
            continue;
        }
        presses = presses + 1;
        button_indices.push(button_index);
        let button = &buttons[button_index];
        let ghost base = joltage@;
        let mut k: usize = 0;
        while k < button.len()
            invariant
                button@ == w[button_index as int]@,
                wires_in_range(w, joltages_length as int),
                wire_count(w) <= i32::MAX,
                0 <= button_index < m,
                m == w.len(),
                sel == sel_vec(m as nat, bitwise_combo as nat),
                sel[button_index as int] == 1,
                k <= button.len(),
                joltage@.len() == joltages_length,
                base.len() == joltages_length,
                forall|j: int| 0 <= j < joltages_length ==> #[trigger] base[j] == dot(w, sel.take(button_index as int), j),
                forall|j: int| 0 <= j < joltages_length ==> #[trigger] joltage@[j] == base[j] + occ(button@.take(k as int), j),
            decreases button.len() - k,
        {
            let machine_index = button[k];
            proof {
                assert(0 <= machine_index < joltages_length);
                lemma_dot_01_bound(w, sel, button_index as int, machine_index as int);
                lemma_wire_count_take(w, button_index as int);
                lemma_occ_bounds(button@.take(k as int), machine_index as int);
                assert forall|j: int| 0 <= j < joltages_length implies occ(button@.take(k + 1), j)
                    == occ(button@.take(k as int), j) + if button@[k as int] == j { 1int } else { 0int } by {
                    lemma_occ_take(button@, k as int, j);
                }
            }
            joltage.set(machine_index as usize, joltage[machine_index as usize] + 1);
            k = k + 1;
        }
        proof {
            assert(button@.take(button@.len() as int) =~= button@);
        }
        button_index = button_index + 1;
    }
    let ghost c = combo_spec(w, joltages_length as nat, bitwise_combo as nat);
    proof {
        assert(sel.take(m as int) =~= sel);
        assert(ints(joltage@) =~= c.1);
        assert forall|j: int| 0 <= j < joltage@.len() implies joltage@[j] >= 0 || joltage@[j] % 2 == 0 by {
            lemma_dot_01_bound(w, sel, m as int, j);
        }
    }
    let pattern = pattern_from_joltage(&joltage);
    let combo = ComboObj { presses, joltage, button_indices };
    assert(cview(combo) == c);
    let ghost old_t = tview(combos_by_pattern@);
    let found = find_key(combos_by_pattern, &pattern);
    if let Some(e) = found {
        proof {
            assert(old_t[e as int].0 == pattern@);
            let k = key_index(old_t, pattern@);
            assert(k == e);
        }
        let ghost old_tab = combos_by_pattern@;
        combos_by_pattern[e].1.push(combo);
        proof {
            let nt = combos_by_pattern@;
            let expect = old_t.update(e as int, (pattern@, old_t[e as int].1.push(c)));
            assert(nt.len() == old_tab.len());
            assert forall|a: int| 0 <= a < nt.len() implies tview(nt)[a] == expect[a] by {
                if a == e {
                    assert(nt[a].1@ == old_tab[a].1@.push(combo));
                    assert(nt[a].1@.map_values(|c: ComboObj| cview(c)) =~= old_tab[a].1@.map_values(|c: ComboObj| cview(c)).push(c));
                } else {
                    assert(nt[a] == old_tab[a]);
                }
            }
            assert(tview(combos_by_pattern@) =~= expect);
        }
    } else {
        proof {
            assert(!exists|a: int| 0 <= a < old_t.len() && old_t[a].0 == pattern@);
        }
        let mut list: Vec<ComboObj> = Vec::new();
        list.push(combo);
        let ghost old_tab = combos_by_pattern@;
        let ghost pv = pattern@;
        combos_by_pattern.push((pattern, list));
        proof {
            let nt = combos_by_pattern@;
            assert(nt == old_tab.push(nt[old_tab.len() as int]));
            assert(nt[old_tab.len() as int].1@ =~= seq![combo]);
            assert(nt[old_tab.len() as int].1@.map_values(|c: ComboObj| cview(c)) =~= seq![c]);
            assert(tview(combos_by_pattern@) =~= old_t.push((pv, seq![c])));
        }
    }
}


/// `2^m` fits a `usize` when `m` is below its width.
proof fn lemma_pow2_fits_usize(m: nat)
    requires
        m < usize::BITS,
    ensures
        pow2(m) <= usize::MAX,
{
    vstd::arithmetic::power2::lemma2_to64();
    vstd::arithmetic::power2::lemma2_to64_rest();
    vstd::arithmetic::power2::lemma_pow2_strictly_increases(m, usize::BITS as nat);
}

/// `2^m`, for `m` below the width of `usize` (`usize::pow`).
fn two_to_the(m: usize) -> (r: usize)
    requires
        m < usize::BITS,
    ensures
        r == pow2(m as nat),
{
    let mut r: usize = 1;
    let mut i: usize = 0;
    proof {
        vstd::arithmetic::power2::lemma2_to64();
    }
    while i < m
        invariant
            i <= m,
            m < usize::BITS,
            r == pow2(i as nat),
        decreases m - i,
    {
        proof {
            lemma_pow2_unfold((i + 1) as nat);
            lemma_pow2_fits_usize((i + 1) as nat);
        }
        r = r * 2;
        i = i + 1;
    }
    r
}

/// Every combination of button presses (each button at most once), grouped by the
/// parity pattern of the joltage it produces.
pub fn fill_patterns_and_combos(buttons: &Vec<Vec<i32>>, joltages_length: usize) -> (r: Vec<
    (String, Vec<ComboObj>),
>)
    requires
        buttons@.len() < usize::BITS,
        wires_in_range(buttons@, joltages_length as int),
        wire_count(buttons@) <= i32::MAX,
    ensures
        tview(r@) == table_upto(buttons@, joltages_length as nat, pow2(buttons@.len())),
{
    let mut combos_by_pattern: Vec<(String, Vec<ComboObj>)> = Vec::new();
    let off = two_to_the(buttons.len());
    let mut n: usize = 0;
    proof {
        assert(tview(combos_by_pattern@) =~= table_upto(buttons@, joltages_length as nat, 0));
    }
    while n < off
        invariant
            n <= off,
            off == pow2(buttons@.len()),
            buttons@.len() < usize::BITS,
            wires_in_range(buttons@, joltages_length as int),
            wire_count(buttons@) <= i32::MAX,
            tview(combos_by_pattern@) == table_upto(buttons@, joltages_length as nat, n as nat),
        decreases off - n,
    {
        proof {
            lemma_table_upto_ok(buttons@, joltages_length as nat, n as nat);
        }
        fill_patterns_and_combos_with(n, buttons, joltages_length, &mut combos_by_pattern);
        n = n + 1;
    }
    combos_by_pattern
}


pub open spec fn par_of(x: Seq<int>) -> Seq<int> {
    Seq::new(x.len(), |i: int| x[i] % 2)
}

pub open spec fn half_of(x: Seq<int>) -> Seq<int> {
    Seq::new(x.len(), |i: int| x[i] / 2)
}

/// The mask whose bit `len - 1 - i` is `b[i]`.
pub open spec fn to_mask(b: Seq<int>) -> nat
    decreases b.len(),
{
    if b.len() == 0 {
        0
    } else {
        2 * to_mask(b.drop_last()) + if b.last() == 1 {
            1nat
        } else {
            0nat
        }
    }
}

proof fn lemma_to_mask(b: Seq<int>)
    requires
        forall|i: int| 0 <= i < b.len() ==> b[i] == 0 || b[i] == 1,
    ensures
        to_mask(b) < pow2(b.len()),
        forall|i: int| 0 <= i < b.len() ==> bit(to_mask(b), (b.len() - 1 - i) as nat) == (b[i] == 1),
    decreases b.len(),
{
    if b.len() > 0 {
        let b2 = b.drop_last();
        lemma_to_mask(b2);
        let mm = to_mask(b2);
        let mk = to_mask(b);
        lemma_pow2_unfold(b.len());
        lemma_pow2_pos(b2.len());
        assert forall|i: int| 0 <= i < b.len() implies bit(mk, (b.len() - 1 - i) as nat) == (b[i] == 1) by {
            let k = (b.len() - 1 - i) as nat;
            if k == 0 {
                assert(pow2(0) == 1) by {
                    vstd::arithmetic::power2::lemma2_to64();
                }
                assert(mk / 1 == mk);
            } else {
                lemma_pow2_unfold(k);
                lemma_pow2_pos((k - 1) as nat);
                vstd::arithmetic::div_mod::lemma_div_denominator(mk as int, 2, pow2((k - 1) as nat) as int);
                assert(mk as int / 2 == mm);
                assert(b2[i] == b[i]);
            }
        }
    } else {
        vstd::arithmetic::power2::lemma2_to64();
    }
}

proof fn lemma_sel_vec_of_mask(b: Seq<int>)
    requires
        forall|i: int| 0 <= i < b.len() ==> b[i] == 0 || b[i] == 1,
    ensures
        sel_vec(b.len(), to_mask(b)) == b,
        to_mask(b) < pow2(b.len()),
{
    lemma_to_mask(b);
    assert(sel_vec(b.len(), to_mask(b)) =~= b);
}

proof fn lemma_dot_split(w: Seq<Vec<i32>>, a: Seq<int>, b: Seq<int>, x: Seq<int>, k: int, j: int)
    requires
        a.len() == x.len(),
        b.len() == x.len(),
        0 <= k <= x.len(),
        forall|i: int| 0 <= i < x.len() ==> x[i] == a[i] + 2 * b[i],
    ensures
        dot(w, x.take(k), j) == dot(w, a.take(k), j) + 2 * dot(w, b.take(k), j),
        seq_sum(x.take(k)) == seq_sum(a.take(k)) + 2 * seq_sum(b.take(k)),
    decreases k,
{
    if k > 0 {
        lemma_dot_split(w, a, b, x, k - 1, j);
        lemma_dot_take(w, x, k - 1, j);
        lemma_dot_take(w, a, k - 1, j);
        lemma_dot_take(w, b, k - 1, j);
        assert(x.take(k).drop_last() =~= x.take(k - 1));
        assert(a.take(k).drop_last() =~= a.take(k - 1));
        assert(b.take(k).drop_last() =~= b.take(k - 1));
        let o = occ(w[k - 1]@, j);
        assert(x[k - 1] * o == a[k - 1] * o + 2 * (b[k - 1] * o)) by (nonlinear_arith)
            requires
                x[k - 1] == a[k - 1] + 2 * b[k - 1],
        ;
    } else {
        assert(x.take(0) =~= Seq::<int>::empty());
        assert(a.take(0) =~= Seq::<int>::empty());
        assert(b.take(0) =~= Seq::<int>::empty());
    }
}

/// Presses split into their parity and their halves: `x = par + 2 * half`.
proof fn lemma_parity_split(w: Seq<Vec<i32>>, x: Seq<int>, j: int)
    requires
        forall|i: int| 0 <= i < x.len() ==> x[i] >= 0,
    ensures
        dot(w, x, j) == dot(w, par_of(x), j) + 2 * dot(w, half_of(x), j),
        seq_sum(x) == seq_sum(par_of(x)) + 2 * seq_sum(half_of(x)),
{
    lemma_dot_split(w, par_of(x), half_of(x), x, x.len() as int, j);
    assert(x.take(x.len() as int) =~= x);
    assert(par_of(x).take(x.len() as int) =~= par_of(x));
    assert(half_of(x).take(x.len() as int) =~= half_of(x));
}

proof fn lemma_dot_nonneg(w: Seq<Vec<i32>>, x: Seq<int>, k: int, j: int)
    requires
        0 <= k <= x.len(),
        forall|i: int| 0 <= i < x.len() ==> x[i] >= 0,
    ensures
        dot(w, x.take(k), j) >= 0,
        seq_sum(x.take(k)) >= 0,
        forall|i: int| 0 <= i < k ==> dot(w, x.take(k), j) >= x[i] * occ(#[trigger] w[i]@, j),
        forall|i: int| 0 <= i < k ==> seq_sum(x.take(k)) >= #[trigger] x[i],
    decreases k,
{
    if k > 0 {
        lemma_dot_nonneg(w, x, k - 1, j);
        lemma_dot_take(w, x, k - 1, j);
        assert(x.take(k).drop_last() =~= x.take(k - 1));
        lemma_occ_bounds(w[k - 1]@, j);
        assert(x[k - 1] * occ(w[k - 1]@, j) >= 0) by (nonlinear_arith)
            requires
                x[k - 1] >= 0,
                occ(w[k - 1]@, j) >= 0,
        ;
    } else {
        assert(x.take(0) =~= Seq::<int>::empty());
    }
}

pub(crate) proof fn lemma_take_full<A>(x: Seq<A>)
    ensures
        x.take(x.len() as int) == x,
{
    assert(x.take(x.len() as int) =~= x);
}

proof fn lemma_zero_plan(w: Seq<Vec<i32>>, z: Seq<int>, k: int, j: int)
    requires
        0 <= k <= z.len(),
        forall|i: int| 0 <= i < z.len() ==> z[i] == 0,
    ensures
        dot(w, z.take(k), j) == 0,
        seq_sum(z.take(k)) == 0,
    decreases k,
{
    if k > 0 {
        lemma_zero_plan(w, z, k - 1, j);
        lemma_dot_take(w, z, k - 1, j);
        assert(z.take(k).drop_last() =~= z.take(k - 1));
    } else {
        assert(z.take(0) =~= Seq::<int>::empty());
    }
}

/// A wire of button `i` bounds how often it is pressed by that counter's target.
proof fn lemma_plan_entry_bound(w: Seq<Vec<i32>>, t: Seq<int>, x: Seq<int>, i: int)
    requires
        is_press_plan(w, t, x),
        wires_in_range(w, t.len() as int),
        0 <= i < x.len(),
        w[i]@.len() > 0,
    ensures
        x[i] <= t[w[i]@[0] as int],
{
    let j = w[i]@[0] as int;
    lemma_dot_nonneg(w, x, x.len() as int, j);
    lemma_take_full(x);
    assert(dot(w, x, j) >= x[i] * occ(w[i]@, j));
    assert(occ(w[i]@, j) >= 1) by {
        lemma_occ_take(w[i]@, 0, j);
        assert(w[i]@.take(0) =~= Seq::<i32>::empty());
        lemma_occ_prefix_le(w[i]@, 1, j);
    }
    assert(x[i] * occ(w[i]@, j) >= x[i]) by (nonlinear_arith)
        requires
            occ(w[i]@, j) >= 1,
            x[i] >= 0,
    ;
    assert(dot(w, x, j) == t[j]);
}

proof fn lemma_occ_prefix_le(s: Seq<i32>, k: int, j: int)
    requires
        0 <= k <= s.len(),
    ensures
        occ(s.take(k), j) <= occ(s, j),
    decreases s.len() - k,
{
    if k < s.len() {
        lemma_occ_take(s, k, j);
        lemma_occ_prefix_le(s, k + 1, j);
    } else {
        lemma_take_full(s);
    }
}

proof fn lemma_update_plan(w: Seq<Vec<i32>>, x: Seq<int>, i: int, v: int, k: int, j: int)
    requires
        0 <= i < x.len(),
        0 <= k <= x.len(),
    ensures
        dot(w, x.update(i, v).take(k), j) == dot(w, x.take(k), j) + if i < k {
            (v - x[i]) * occ(w[i]@, j)
        } else {
            0
        },
        seq_sum(x.update(i, v).take(k)) == seq_sum(x.take(k)) + if i < k {
            v - x[i]
        } else {
            0
        },
    decreases k,
{
    let y = x.update(i, v);
    if k > 0 {
        lemma_update_plan(w, x, i, v, k - 1, j);
        lemma_dot_take(w, x, k - 1, j);
        lemma_dot_take(w, y, k - 1, j);
        assert(x.take(k).drop_last() =~= x.take(k - 1));
        assert(y.take(k).drop_last() =~= y.take(k - 1));
        if k - 1 == i {
            assert(v * occ(w[i]@, j) == x[i] * occ(w[i]@, j) + (v - x[i]) * occ(w[i]@, j))
                by (nonlinear_arith);
        }
    } else {
        assert(x.take(0) =~= Seq::<int>::empty());
        assert(y.take(0) =~= Seq::<int>::empty());
    }
}

/// A plan with the fewest presses never presses a button without wires.
proof fn lemma_min_plan_skips_empty(w: Seq<Vec<i32>>, t: Seq<int>, p: int, s: Seq<int>, i: int)
    requires
        is_min_plan(w, t, p, s),
        0 <= i < s.len(),
        w[i]@.len() == 0,
    ensures
        s[i] == 0,
{
    if s[i] != 0 {
        let y = s.update(i, s[i] - 1);
        assert(occ(w[i]@, 0) == 0 || true);
        assert forall|j: int| 0 <= j < t.len() implies #[trigger] dot(w, y, j) == t[j] by {
            lemma_update_plan(w, s, i, s[i] - 1, s.len() as int, j);
            lemma_take_full(s);
            lemma_take_full(y);
            assert(w[i]@ =~= Seq::<i32>::empty());
        }
        lemma_update_plan(w, s, i, s[i] - 1, s.len() as int, 0);
        lemma_take_full(s);
        lemma_take_full(y);
        assert(is_press_plan(w, t, y));
    }
}

/// Entries of a fewest-presses plan are bounded by the largest target.
proof fn lemma_min_plan_bounds(w: Seq<Vec<i32>>, t: Seq<int>, p: int, s: Seq<int>, bound: int)
    requires
        is_min_plan(w, t, p, s),
        wires_in_range(w, t.len() as int),
        bound >= 0,
        forall|j: int| 0 <= j < t.len() ==> t[j] <= bound,
    ensures
        forall|i: int| 0 <= i < s.len() ==> 0 <= #[trigger] s[i] <= bound,
        0 <= p <= s.len() * bound,
{
    assert forall|i: int| 0 <= i < s.len() implies 0 <= #[trigger] s[i] <= bound by {
        if w[i]@.len() == 0 {
            lemma_min_plan_skips_empty(w, t, p, s, i);
        } else {
            lemma_plan_entry_bound(w, t, s, i);
        }
    }
    lemma_sum_bound(s, s.len() as int, bound);
    lemma_take_full(s);
}

/// The joltage summed over the first `n` counters.
spec fn dots_upto(w: Seq<Vec<i32>>, x: Seq<int>, n: int) -> int
    decreases n,
{
    if n <= 0 {
        0
    } else {
        dots_upto(w, x, n - 1) + dot(w, x, n - 1)
    }
}

/// How often `v` names any of the first `n` counters.
spec fn occs_upto(v: Seq<i32>, n: int) -> int
    decreases n,
{
    if n <= 0 {
        0
    } else {
        occs_upto(v, n - 1) + occ(v, n - 1)
    }
}

/// The presses `x`, each weighted by the number of wires of its button.
spec fn wire_weighted(w: Seq<Vec<i32>>, x: Seq<int>) -> int
    decreases x.len(),
{
    if x.len() == 0 {
        0
    } else {
        wire_weighted(w, x.drop_last()) + x.last() * w[x.len() - 1]@.len()
    }
}

proof fn lemma_dots_step(w: Seq<Vec<i32>>, x: Seq<int>, n: int)
    requires
        x.len() > 0,
    ensures
        dots_upto(w, x, n) == dots_upto(w, x.drop_last(), n) + x.last() * occs_upto(w[x.len() - 1]@, n),
    decreases n,
{
    if n > 0 {
        lemma_dots_step(w, x, n - 1);
        let c = x.last();
        let v = w[x.len() - 1]@;
        assert(dot(w, x, n - 1) == dot(w, x.drop_last(), n - 1) + c * occ(v, n - 1));
        let a = occs_upto(v, n - 1);
        let b = occ(v, n - 1);
        assert(c * (a + b) == c * a + c * b) by (nonlinear_arith);
    }
}

proof fn lemma_occs_step(v: Seq<i32>, n: int)
    requires
        v.len() > 0,
    ensures
        occs_upto(v, n) == occs_upto(v.drop_last(), n) + (if 0 <= v.last() < n { 1int } else { 0int }),
    decreases n,
{
    if n > 0 {
        lemma_occs_step(v, n - 1);
    }
}

proof fn lemma_occs_empty(v: Seq<i32>, n: int)
    requires
        v.len() == 0,
    ensures
        occs_upto(v, n) == 0,
    decreases n,
{
    if n > 0 {
        lemma_occs_empty(v, n - 1);
    }
}

proof fn lemma_occs_all(v: Seq<i32>, n: int)
    requires
        forall|k: int| 0 <= k < v.len() ==> 0 <= #[trigger] v[k] < n,
    ensures
        occs_upto(v, n) == v.len(),
    decreases v.len(),
{
    if v.len() > 0 {
        let d = v.drop_last();
        assert forall|k: int| 0 <= k < d.len() implies 0 <= #[trigger] d[k] < n by {
            assert(d[k] == v[k]);
        }
        lemma_occs_all(d, n);
        lemma_occs_step(v, n);
        assert(0 <= v[v.len() - 1] < n);
    } else {
        lemma_occs_empty(v, n);
    }
}

proof fn lemma_dots_empty(w: Seq<Vec<i32>>, x: Seq<int>, n: int)
    requires
        x.len() == 0,
    ensures
        dots_upto(w, x, n) == 0,
    decreases n,
{
    if n > 0 {
        lemma_dots_empty(w, x, n - 1);
    }
}

proof fn lemma_dots_weighted(w: Seq<Vec<i32>>, x: Seq<int>, n: int)
    requires
        x.len() <= w.len(),
        wires_in_range(w, n),
    ensures
        dots_upto(w, x, n) == wire_weighted(w, x),
    decreases x.len(),
{
    if x.len() == 0 {
        lemma_dots_empty(w, x, n);
    } else {
        lemma_dots_weighted(w, x.drop_last(), n);
        lemma_dots_step(w, x, n);
        let i = x.len() - 1;
        let v = w[i]@;
        assert forall|k: int| 0 <= k < v.len() implies 0 <= #[trigger] v[k] < n by {
            assert(0 <= w[i]@[k] < n);
        }
        lemma_occs_all(v, n);
    }
}

proof fn lemma_dots_target(w: Seq<Vec<i32>>, x: Seq<int>, t: Seq<int>, n: int)
    requires
        0 <= n <= t.len(),
        forall|j: int| 0 <= j < t.len() ==> #[trigger] dot(w, x, j) == t[j],
    ensures
        dots_upto(w, x, n) == seq_sum(t.take(n)),
    decreases n,
{
    if n > 0 {
        lemma_dots_target(w, x, t, n - 1);
        assert(t.take(n).drop_last() =~= t.take(n - 1));
        assert(dot(w, x, n - 1) == t[n - 1]);
    } else {
        assert(t.take(0) =~= Seq::<int>::empty());
    }
}

proof fn lemma_weighted_ge(w: Seq<Vec<i32>>, x: Seq<int>)
    requires
        x.len() <= w.len(),
        forall|i: int| 0 <= i < x.len() ==> #[trigger] x[i] >= 0 && (x[i] > 0 ==> w[i]@.len() >= 1),
    ensures
        wire_weighted(w, x) >= seq_sum(x),
    decreases x.len(),
{
    if x.len() > 0 {
        let d = x.drop_last();
        assert forall|i: int| 0 <= i < d.len() implies #[trigger] d[i] >= 0 && (d[i] > 0 ==> w[i]@.len() >= 1) by {
            assert(d[i] == x[i]);
        }
        lemma_weighted_ge(w, d);
        let c = x.last();
        let l = w[x.len() - 1]@.len() as int;
        assert(c >= 0 && (c > 0 ==> l >= 1));
        assert(c * l >= c) by (nonlinear_arith)
            requires
                c >= 0,
                c > 0 ==> l >= 1,
        ;
    }
}

/// A plan with the fewest presses presses no more often than its targets add up to:
/// it presses no button without wires, and each press adds to some counter.
proof fn lemma_min_plan_le_sum(w: Seq<Vec<i32>>, t: Seq<int>, p: int, s: Seq<int>)
    requires
        is_min_plan(w, t, p, s),
        wires_in_range(w, t.len() as int),
    ensures
        p <= seq_sum(t),
{
    assert forall|i: int| 0 <= i < s.len() implies #[trigger] s[i] >= 0 && (s[i] > 0 ==> w[i]@.len() >= 1) by {
        if w[i]@.len() == 0 {
            lemma_min_plan_skips_empty(w, t, p, s, i);
        }
    }
    lemma_weighted_ge(w, s);
    lemma_dots_weighted(w, s, t.len() as int);
    lemma_dots_target(w, s, t, t.len() as int);
    lemma_take_full(t);
}

/// Twice a sequence that is at most half of another, entry by entry, sums to at most it.
proof fn lemma_half_sum(a: Seq<int>, b: Seq<int>)
    requires
        a.len() == b.len(),
        forall|q: int| 0 <= q < a.len() ==> 0 <= 2 * #[trigger] a[q] <= b[q],
    ensures
        0 <= 2 * seq_sum(a) <= seq_sum(b),
        0 <= seq_sum(a),
    decreases a.len(),
{
    if a.len() > 0 {
        let da = a.drop_last();
        let db = b.drop_last();
        assert forall|q: int| 0 <= q < da.len() implies 0 <= 2 * #[trigger] da[q] <= db[q] by {
            assert(da[q] == a[q]);
            assert(db[q] == b[q]);
        }
        lemma_half_sum(da, db);
        assert(0 <= 2 * a[a.len() - 1] <= b[b.len() - 1]);
    }
}

proof fn lemma_sum_bound(x: Seq<int>, k: int, bound: int)
    requires
        0 <= k <= x.len(),
        forall|i: int| 0 <= i < x.len() ==> 0 <= #[trigger] x[i] <= bound,
    ensures
        0 <= seq_sum(x.take(k)) <= k * bound,
    decreases k,
{
    if k > 0 {
        lemma_sum_bound(x, k - 1, bound);
        assert(x.take(k).drop_last() =~= x.take(k - 1));
        assert((k - 1) * bound + bound == k * bound) by (nonlinear_arith);
    } else {
        assert(x.take(0) =~= Seq::<int>::empty());
    }
}

proof fn lemma_chosen_props(m: nat, n: nat, u: int)
    requires
        0 <= u <= m,
        m <= usize::MAX,
    ensures
        chosen(m, n, u).len() == seq_sum(sel_vec(m, n).take(u)),
        chosen(m, n, u).len() <= u,
        forall|a: int, b: int| 0 <= a < b < chosen(m, n, u).len() ==> chosen(m, n, u)[a] < chosen(m, n, u)[b],
        forall|a: int| 0 <= a < chosen(m, n, u).len() ==> chosen(m, n, u)[a] < u,
        forall|i: int| 0 <= i < u ==> (chosen(m, n, u).contains(i as usize) <==> sel_vec(m, n)[i] == 1),
    decreases u,
{
    if u > 0 {
        lemma_chosen_props(m, n, u - 1);
        let sv = sel_vec(m, n);
        assert(sv.take(u).drop_last() =~= sv.take(u - 1));
        let c0 = chosen(m, n, u - 1);
        let c1 = chosen(m, n, u);
        if bit(n, (m - u) as nat) {
            assert(c1 == c0.push((u - 1) as usize));
            assert(sv[u - 1] == 1);
        } else {
            assert(c1 == c0);
            assert(sv[u - 1] == 0);
        }
        assert forall|i: int| 0 <= i < u implies (c1.contains(i as usize) <==> sv[i] == 1) by {
            if bit(n, (m - u) as nat) {
                assert(c1 == c0.push((u - 1) as usize));
                if i < u - 1 {
                    if c1.contains(i as usize) {
                        let a = choose|a: int| 0 <= a < c1.len() && c1[a] == i as usize;
                        if a < c0.len() {
                            assert(c0[a] == i as usize);
                        }
                    }
                    if c0.contains(i as usize) {
                        let a = choose|a: int| 0 <= a < c0.len() && c0[a] == i as usize;
                        assert(c1[a] == i as usize);
                    }
                } else {
                    assert(c1[c0.len() as int] == i as usize);
                }
            } else {
                if i == u - 1 && c1.contains(i as usize) {
                    let a = choose|a: int| 0 <= a < c1.len() && c1[a] == i as usize;
                    assert(c0[a] < u - 1);
                }
            }
        }
    } else {
        assert(sel_vec(m, n).take(0) =~= Seq::<int>::empty());
    }
}


pub open spec fn presses_of(r: Option<(usize, Vec<i32>)>) -> int {
    match r {
        Some(b) => b.0 as int,
        None => 0,
    }
}

pub open spec fn cache_ok(w: Seq<Vec<i32>>, c: Seq<(Vec<i32>, Option<(usize, Vec<i32>)>)>) -> bool {
    forall|e: int| 0 <= e < c.len() ==> solves(w, ints(#[trigger] c[e].0@), c[e].1)
}

/// No counter is negative, and some counter is not zero.
pub open spec fn nonneg_nonzero(t: Seq<int>) -> bool {
    &&& forall|q: int| 0 <= q < t.len() ==> t[q] >= 0
    &&& exists|q: int| 0 <= q < t.len() && t[q] != 0
}

/// A plan for the halved remainder, with the presses of combination `c` added once.
pub open spec fn with_combo(m: nat, c: (nat, Seq<int>, Seq<usize>), sub: (int, Seq<int>)) -> (int, Seq<int>) {
    (
        c.0 + 2 * sub.0,
        Seq::new(m, |i: int| (if c.2.contains(i as usize) { 1int } else { 0int }) + 2 * sub.1[i]),
    )
}

/// The plan the search picks for target `t` with table `tt`: the zero plan for zero
/// counters, none for a negative counter or a pattern missing from the table, and
/// otherwise the first plan with the fewest presses over the combinations of the
/// target's pattern, in table order.
#[verifier::opaque]
pub open spec fn search(
    w: Seq<Vec<i32>>,
    tt: Seq<(Seq<char>, Seq<(nat, Seq<int>, Seq<usize>)>)>,
    t: Seq<int>,
) -> Option<(int, Seq<int>)>
    decreases seq_sum(t), 2int, 0int,
{
    if forall|q: int| 0 <= q < t.len() ==> t[q] == 0 {
        Some((0, Seq::new(w.len(), |i: int| 0int)))
    } else if exists|q: int| 0 <= q < t.len() && t[q] < 0 {
        None
    } else if exists|e: int| 0 <= e < tt.len() && tt[e].0 == parity_pattern(t) {
        let e = key_index(tt, parity_pattern(t));
        search_in(w, tt, t, e, tt[e].1.len() as int)
    } else {
        None
    }
}

/// The search's pick among the first `k` combinations of entry `e`.
#[verifier::opaque]
pub open spec fn search_in(
    w: Seq<Vec<i32>>,
    tt: Seq<(Seq<char>, Seq<(nat, Seq<int>, Seq<usize>)>)>,
    t: Seq<int>,
    e: int,
    k: int,
) -> Option<(int, Seq<int>)>
    decreases seq_sum(t), 1int, k,
{
    if k <= 0 || !(0 <= e < tt.len()) || k > tt[e].1.len() {
        None
    } else {
        let prev = search_in(w, tt, t, e, k - 1);
        match candidate(w, tt, t, tt[e].1[k - 1]) {
            Some(cand) => match prev {
                Some(pb) => if cand.0 < pb.0 {
                    Some(cand)
                } else {
                    prev
                },
                None => Some(cand),
            },
            None => prev,
        }
    }
}

/// The plan through combination `c`: its presses once, and twice the search's plan for
/// the halved remainder, where the remainder is even and not negative.
#[verifier::opaque]
pub open spec fn candidate(
    w: Seq<Vec<i32>>,
    tt: Seq<(Seq<char>, Seq<(nat, Seq<int>, Seq<usize>)>)>,
    t: Seq<int>,
    c: (nat, Seq<int>, Seq<usize>),
) -> Option<(int, Seq<int>)>
    decreases seq_sum(t), 0int, 0int,
{
    if nonneg_nonzero(t) && c.1.len() == t.len() && (forall|q: int| 0 <= q < t.len() ==> c.1[q] >= 0) && (forall|q: int|
        0 <= q < t.len() ==> t[q] - c.1[q] >= 0 && (t[q] - c.1[q]) % 2 == 0) {
        let h = Seq::new(t.len(), |q: int| (t[q] - c.1[q]) / 2);
        proof {
            lemma_halving_decreases(t, c.1, h);
        }
        match search(w, tt, h) {
            Some(sub) => Some(with_combo(w.len(), c, sub)),
            None => None,
        }
    } else {
        None
    }
}

/// The result `r` is the plan `s`.
pub open spec fn agrees(r: Option<(usize, Vec<i32>)>, s: Option<(int, Seq<int>)>) -> bool {
    match (r, s) {
        (None, None) => true,
        (Some(a), Some(b)) => a.0 == b.0 && ints(a.1@) == b.1,
        _ => false,
    }
}

/// Every cached answer is the search's pick for its target.
pub open spec fn cache_exact(
    w: Seq<Vec<i32>>,
    tt: Seq<(Seq<char>, Seq<(nat, Seq<int>, Seq<usize>)>)>,
    c: Seq<(Vec<i32>, Option<(usize, Vec<i32>)>)>,
) -> bool {
    forall|e: int| 0 <= e < c.len() ==> agrees(#[trigger] c[e].1, search(w, tt, ints(c[e].0@)))
}

/// The plan the joltage search picks for target `t` on `len` counters, from the table
/// of every combination of the buttons.
pub open spec fn joltage_pick(w: Seq<Vec<i32>>, len: nat, t: Seq<int>) -> Option<(int, Seq<int>)> {
    search(w, table_upto(w, len, pow2(w.len())), t)
}

/// For zero counters the search picks the zero plan.
proof fn lemma_search_zero(w: Seq<Vec<i32>>, tt: Seq<(Seq<char>, Seq<(nat, Seq<int>, Seq<usize>)>)>, t: Seq<int>)
    requires
        forall|q: int| 0 <= q < t.len() ==> t[q] == 0,
    ensures
        search(w, tt, t) == Some((0int, Seq::new(w.len(), |i: int| 0int))),
{
    reveal_with_fuel(search, 1);
}

/// With a negative counter, or a pattern the table lacks, the search picks nothing.
proof fn lemma_search_none(w: Seq<Vec<i32>>, tt: Seq<(Seq<char>, Seq<(nat, Seq<int>, Seq<usize>)>)>, t: Seq<int>)
    requires
        exists|q: int| 0 <= q < t.len() && t[q] != 0,
        (exists|q: int| 0 <= q < t.len() && t[q] < 0) || !(exists|e: int| 0 <= e < tt.len() && tt[e].0 == parity_pattern(t)),
    ensures
        search(w, tt, t) is None,
{
    reveal_with_fuel(search, 1);
}

/// Otherwise the search picks among the combinations of the target's pattern.
proof fn lemma_search_pick(
    w: Seq<Vec<i32>>,
    tt: Seq<(Seq<char>, Seq<(nat, Seq<int>, Seq<usize>)>)>,
    t: Seq<int>,
    e: int,
)
    requires
        nonneg_nonzero(t),
        0 <= e < tt.len(),
        tt[e].0 == parity_pattern(t),
        forall|a: int, b: int| 0 <= a < tt.len() && 0 <= b < tt.len() && a != b ==> tt[a].0 != tt[b].0,
    ensures
        search(w, tt, t) == search_in(w, tt, t, e, tt[e].1.len() as int),
{
    reveal_with_fuel(search, 1);
    reveal_with_fuel(search_in, 1);
    reveal_with_fuel(candidate, 1);
    let e2 = key_index(tt, parity_pattern(t));
    assert(exists|a: int| 0 <= a < tt.len() && tt[a].0 == parity_pattern(t));
    assert(0 <= e2 < tt.len() && tt[e2].0 == parity_pattern(t));
    assert(e2 == e);
    assert(!(forall|q: int| 0 <= q < t.len() ==> t[q] == 0));
    assert(!(exists|q: int| 0 <= q < t.len() && t[q] < 0));
    assert(search(w, tt, t) == search_in(w, tt, t, e2, tt[e2].1.len() as int));
}

/// Among no combinations there is no pick.
proof fn lemma_search_in_start(w: Seq<Vec<i32>>, tt: Seq<(Seq<char>, Seq<(nat, Seq<int>, Seq<usize>)>)>, t: Seq<int>, e: int)
    ensures
        search_in(w, tt, t, e, 0) is None,
{
    reveal_with_fuel(search_in, 1);
}

/// One more combination replaces the pick only with strictly fewer presses.
proof fn lemma_search_in_step(
    w: Seq<Vec<i32>>,
    tt: Seq<(Seq<char>, Seq<(nat, Seq<int>, Seq<usize>)>)>,
    t: Seq<int>,
    e: int,
    k: int,
)
    requires
        0 <= e < tt.len(),
        0 <= k < tt[e].1.len(),
    ensures
        search_in(w, tt, t, e, k + 1) == (match candidate(w, tt, t, tt[e].1[k]) {
            Some(cd) => match search_in(w, tt, t, e, k) {
                Some(pb) => if cd.0 < pb.0 {
                    Some(cd)
                } else {
                    search_in(w, tt, t, e, k)
                },
                None => Some(cd),
            },
            None => search_in(w, tt, t, e, k),
        }),
{
    reveal_with_fuel(search, 1);
    reveal_with_fuel(search_in, 1);
    reveal_with_fuel(candidate, 1);
}

/// The plan through a combination, unfolded.
proof fn lemma_candidate(
    w: Seq<Vec<i32>>,
    tt: Seq<(Seq<char>, Seq<(nat, Seq<int>, Seq<usize>)>)>,
    t: Seq<int>,
    c: (nat, Seq<int>, Seq<usize>),
)
    requires
        nonneg_nonzero(t),
        c.1.len() == t.len(),
        forall|q: int| 0 <= q < t.len() ==> c.1[q] >= 0,
    ensures
        (forall|q: int| 0 <= q < t.len() ==> t[q] - c.1[q] >= 0 && (t[q] - c.1[q]) % 2 == 0) ==> candidate(w, tt, t, c)
            == (match search(w, tt, Seq::new(t.len(), |q: int| (t[q] - c.1[q]) / 2)) {
            Some(sub) => Some(with_combo(w.len(), c, sub)),
            None => None,
        }),
        !(forall|q: int| 0 <= q < t.len() ==> t[q] - c.1[q] >= 0 && (t[q] - c.1[q]) % 2 == 0) ==> candidate(w, tt, t, c)
            is None,
{
    reveal_with_fuel(search, 1);
    reveal_with_fuel(search_in, 1);
    reveal_with_fuel(candidate, 1);
}

/// Any press plan has its parity combination in the table, under the target's pattern.
proof fn lemma_plan_has_combo(
    w: Seq<Vec<i32>>,
    len: nat,
    tt: Seq<(Seq<char>, Seq<(nat, Seq<int>, Seq<usize>)>)>,
    t: Seq<int>,
    x: Seq<int>,
)
    requires
        table_ok(w, len, pow2(w.len()), tt),
        is_press_plan(w, t, x),
        t.len() == len,
    ensures
        exists|e: int, k: int|
            0 <= e < tt.len() && 0 <= k < tt[e].1.len() && #[trigger] tt[e].1[k] == combo_spec(w, len, to_mask(par_of(x)))
                && tt[e].0 == parity_pattern(t),
{
    let p = par_of(x);
    lemma_sel_vec_of_mask(p);
    let n = to_mask(p);
    let c = combo_spec(w, len, n);
    assert(c == combo_spec(w, len, n));
    let (e, k) = choose|e: int, k: int|
        0 <= e < tt.len() && 0 <= k < tt[e].1.len() && #[trigger] tt[e].1[k] == combo_spec(w, len, n);
    assert(tt[e].0 == parity_pattern(tt[e].1[k].1));
    assert(parity_pattern(c.1) =~= parity_pattern(t)) by {
        assert forall|j: int| 0 <= j < len implies c.1[j] % 2 == t[j] % 2 by {
            lemma_parity_split(w, x, j);
            assert(sel_vec(w.len(), n) == p);
            assert(c.1[j] == dot(w, p, j));
            assert(t[j] == dot(w, x, j));
        }
    }
}

pub(crate) fn same_vec(a: &Vec<i32>, b: &Vec<i32>) -> (r: bool)
    ensures
        r == (a@ == b@),
{
    if a.len() != b.len() {
        return false;
    }
    let mut i: usize = 0;
    while i < a.len()
        invariant
            i <= a.len(),
            a@.len() == b@.len(),
            forall|k: int| 0 <= k < i ==> a@[k] == b@[k],
        decreases a.len() - i,
    {
        if a[i] != b[i] {
            return false;
        }
        i = i + 1;
    }
    assert(a@ =~= b@);
    true
}

pub(crate) fn copy_vec(a: &Vec<i32>) -> (r: Vec<i32>)
    ensures
        r@ == a@,
{
    let mut r: Vec<i32> = Vec::new();
    let mut i: usize = 0;
    while i < a.len()
        invariant
            i <= a.len(),
            r@ == a@.take(i as int),
        decreases a.len() - i,
    {
        r.push(a[i]);
        i = i + 1;
        proof {
            assert(r@ =~= a@.take(i as int));
        }
    }
    proof {
        lemma_take_full(a@);
    }
    r
}

/// The two results are the same: both none, or the same count and the same presses.
pub open spec fn same_result(a: Option<(usize, Vec<i32>)>, b: Option<(usize, Vec<i32>)>) -> bool {
    match (a, b) {
        (None, None) => true,
        (Some(x), Some(y)) => x.0 == y.0 && x.1@ == y.1@,
        _ => false,
    }
}

/// The memo `c` keeps every entry of `c0`, in place.
pub open spec fn extends_cache(
    c0: Seq<(Vec<i32>, Option<(usize, Vec<i32>)>)>,
    c: Seq<(Vec<i32>, Option<(usize, Vec<i32>)>)>,
) -> bool {
    c0.len() <= c.len() && forall|e: int| 0 <= e < c0.len() ==> #[trigger] c[e] == c0[e]
}

fn copy_result(r: &Option<(usize, Vec<i32>)>) -> (c: Option<(usize, Vec<i32>)>)
    ensures
        match (*r, c) {
            (None, None) => true,
            (Some(a), Some(b)) => a.0 == b.0 && a.1@ == b.1@,
            _ => false,
        },
{
    match r {
        None => None,
        Some(pr) => Some((pr.0, copy_vec(&pr.1))),
    }
}

fn zeros(n: usize) -> (r: Vec<i32>)
    ensures
        r@.len() == n,
        forall|i: int| 0 <= i < n ==> r@[i] == 0,
{
    let mut r: Vec<i32> = Vec::new();
    let mut i: usize = 0;
    while i < n
        invariant
            i <= n,
            r@.len() == i,
            forall|k: int| 0 <= k < i ==> r@[k] == 0,
        decreases n - i,
    {
        r.push(0);
        i = i + 1;
    }
    r
}

/// The first entry of the cache whose key is `key`, if any.
fn find_cached(cache: &Vec<(Vec<i32>, Option<(usize, Vec<i32>)>)>, key: &Vec<i32>) -> (r: Option<usize>)
    ensures
        match r {
            Some(e) => e < cache@.len() && cache@[e as int].0@ == key@
                && forall|j: int| 0 <= j < e ==> #[trigger] cache@[j].0@ != key@,
            None => forall|j: int| 0 <= j < cache@.len() ==> #[trigger] cache@[j].0@ != key@,
        },
{
    let mut e: usize = 0;
    while e < cache.len()
        invariant
            e <= cache@.len(),
            forall|j: int| 0 <= j < e ==> #[trigger] cache@[j].0@ != key@,
        decreases cache.len() - e,
    {
        if same_vec(&cache[e].0, key) {
            return Some(e);
        }
        e = e + 1;
    }
    None
}

/// What one combination contributes to the search: if `x` is a plan whose parity
/// combination is `c`, the halved remainder is reachable and gives at most `x`'s presses.
proof fn lemma_candidate_for_plan(
    w: Seq<Vec<i32>>,
    len: nat,
    t: Seq<int>,
    x: Seq<int>,
    n: nat,
)
    requires
        is_press_plan(w, t, x),
        t.len() == len,
        w.len() <= usize::MAX,
        n == to_mask(par_of(x)),
    ensures
        sel_vec(w.len(), n) == par_of(x),
        forall|j: int| 0 <= j < len ==> t[j] - combo_spec(w, len, n).1[j] == 2 * dot(w, half_of(x), j),
        is_press_plan(w, Seq::new(len, |j: int| (t[j] - combo_spec(w, len, n).1[j]) / 2), half_of(x)),
        combo_spec(w, len, n).0 + 2 * seq_sum(half_of(x)) == seq_sum(x),
{
    let p = par_of(x);
    lemma_sel_vec_of_mask(p);
    let h = Seq::new(len, |j: int| (t[j] - combo_spec(w, len, n).1[j]) / 2);
    assert forall|j: int| 0 <= j < len implies t[j] - combo_spec(w, len, n).1[j] == 2 * dot(w, half_of(x), j) by {
        lemma_parity_split(w, x, j);
    }
    assert forall|j: int| 0 <= j < h.len() implies #[trigger] dot(w, half_of(x), j) == h[j] by {
        lemma_parity_split(w, x, j);
    }
    lemma_parity_split(w, x, 0);
    lemma_chosen_props(w.len(), n, w.len() as int);
    lemma_take_full(sel_vec(w.len(), n));
}


/// Halving what is left after an even, non-negative part of a target that is not all
/// zero gives a smaller counter sum.
pub proof fn lemma_halving_decreases(t: Seq<int>, c: Seq<int>, h: Seq<int>)
    requires
        t.len() == c.len(),
        h.len() == t.len(),
        forall|q: int| 0 <= q < t.len() ==> t[q] >= 0 && 0 <= c[q] && t[q] - c[q] >= 0,
        forall|q: int| 0 <= q < t.len() ==> h[q] == (t[q] - c[q]) / 2,
        exists|q: int| 0 <= q < t.len() && t[q] != 0,
    ensures
        0 <= seq_sum(h) < seq_sum(t),
{
    lemma_halving_prefix(t, c, h, t.len() as int);
    lemma_take_full(t);
    lemma_take_full(h);
}

proof fn lemma_halving_prefix(t: Seq<int>, c: Seq<int>, h: Seq<int>, k: int)
    requires
        t.len() == c.len(),
        h.len() == t.len(),
        0 <= k <= t.len(),
        forall|q: int| 0 <= q < t.len() ==> t[q] >= 0 && 0 <= c[q] && t[q] - c[q] >= 0,
        forall|q: int| 0 <= q < t.len() ==> h[q] == (t[q] - c[q]) / 2,
    ensures
        0 <= seq_sum(h.take(k)) <= seq_sum(t.take(k)),
        (exists|q: int| 0 <= q < k && t[q] != 0) ==> seq_sum(h.take(k)) < seq_sum(t.take(k)),
    decreases k,
{
    if k > 0 {
        lemma_halving_prefix(t, c, h, k - 1);
        assert(t.take(k).drop_last() =~= t.take(k - 1));
        assert(h.take(k).drop_last() =~= h.take(k - 1));
        if exists|q: int| 0 <= q < k && t[q] != 0 {
            let q = choose|q: int| 0 <= q < k && t[q] != 0;
            if q < k - 1 {
            }
        }
    } else {
        assert(t.take(0) =~= Seq::<int>::empty());
        assert(h.take(0) =~= Seq::<int>::empty());
    }
}


/// `(target - c) / 2` where every difference is a natural even number, else `None`.
fn halve_remainder(target: &Vec<i32>, c: &Vec<i32>) -> (r: Option<Vec<i32>>)
    requires
        target@.len() == c@.len(),
        forall|q: int| 0 <= q < target@.len() ==> target@[q] >= 0 && c@[q] >= 0,
    ensures
        match r {
            Some(h) => {
                &&& h@.len() == target@.len()
                &&& forall|q: int| 0 <= q < target@.len() ==> #[trigger] target@[q] - c@[q] >= 0 && (target@[q] - c@[q]) % 2 == 0
                &&& forall|q: int| 0 <= q < target@.len() ==> #[trigger] h@[q] == (target@[q] - c@[q]) / 2
            },
            None => exists|q: int| 0 <= q < target@.len() && (target@[q] - c@[q] < 0 || (target@[q] - c@[q]) % 2 != 0),
        },
{
    let mut h: Vec<i32> = Vec::new();
    let mut j: usize = 0;
    while j < target.len()
        invariant
            j <= target@.len(),
            target@.len() == c@.len(),
            forall|q: int| 0 <= q < target@.len() ==> target@[q] >= 0 && c@[q] >= 0,
            h@.len() == j,
            forall|q: int| 0 <= q < j ==> #[trigger] target@[q] - c@[q] >= 0 && (target@[q] - c@[q]) % 2 == 0,
            forall|q: int| 0 <= q < j ==> #[trigger] h@[q] == (target@[q] - c@[q]) / 2,
        decreases target.len() - j,
    {
        let new_jolt = target[j] - c[j];
        if new_jolt < 0 || new_jolt % 2 != 0 {
            return None;
        }
        h.push(new_jolt / 2);
        j = j + 1;
    }
    Some(h)
}

/// Presses `indices` once each and `sub` twice.
fn combine_steps(m: usize, indices: &Vec<usize>, sub: &Vec<i32>) -> (r: Vec<i32>)
    requires
        sub@.len() == m,
        forall|p: int, q: int| 0 <= p < q < indices@.len() ==> indices@[p] < indices@[q],
        forall|p: int| 0 <= p < indices@.len() ==> indices@[p] < m,
        forall|i: int| 0 <= i < m ==> 0 <= #[trigger] sub@[i] <= 0x3fff_ffff,
    ensures
        r@.len() == m,
        forall|i: int| 0 <= i < m ==> #[trigger] r@[i] == (if indices@.contains(i as usize) { 1int } else { 0int }) + 2 * sub@[i],
{
    let mut steps = zeros(m);
    let mut a: usize = 0;
    while a < indices.len()
        invariant
            a <= indices@.len(),
            steps@.len() == m,
            forall|p: int, q: int| 0 <= p < q < indices@.len() ==> indices@[p] < indices@[q],
            forall|p: int| 0 <= p < indices@.len() ==> indices@[p] < m,
            forall|i: int| 0 <= i < m ==> #[trigger] steps@[i] == if indices@.take(a as int).contains(i as usize) { 1int } else { 0int },
        decreases indices.len() - a,
    {
        let b = indices[a];
        let ghost ch = indices@;
        proof {
            assert(!ch.take(a as int).contains(b)) by {
                if ch.take(a as int).contains(b) {
                    let q = choose|q: int| 0 <= q < a && #[trigger] ch.take(a as int)[q] == b;
                    assert(ch[q] < ch[a as int]);
                }
            }
        }
        let ghost old_steps = steps@;
        proof {
            assert(old_steps[b as int] == 0);
        }
        steps.set(b, steps[b] + 1);
        a = a + 1;
        proof {
            assert(ch.take(a as int) =~= ch.take(a - 1).push(b));
            assert forall|i: int| 0 <= i < m implies #[trigger] steps@[i] == if ch.take(a as int).contains(i as usize) { 1int } else { 0int } by {
                if i == b {
                    assert(ch.take(a as int)[a - 1] == b);
                } else {
                    assert(steps@[i] == old_steps[i]);
                    if ch.take(a as int).contains(i as usize) {
                        let q = choose|q: int| 0 <= q < a && #[trigger] ch.take(a as int)[q] == i as usize;
                        assert(ch.take(a - 1)[q] == i as usize);
                    }
                    if ch.take(a - 1).contains(i as usize) {
                        let q = choose|q: int| 0 <= q < a - 1 && #[trigger] ch.take(a - 1)[q] == i as usize;
                        assert(ch.take(a as int)[q] == i as usize);
                    }
                }
            }
        }
    }
    proof {
        lemma_take_full(indices@);
    }
    let mut ii: usize = 0;
    while ii < m
        invariant
            ii <= m,
            steps@.len() == m,
            sub@.len() == m,
            forall|i: int| 0 <= i < m ==> 0 <= #[trigger] sub@[i] <= 0x3fff_ffff,
            forall|i: int| 0 <= i < ii ==> #[trigger] steps@[i] == (if indices@.contains(i as usize) { 1int } else { 0int }) + 2 * sub@[i],
            forall|i: int| ii <= i < m ==> #[trigger] steps@[i] == if indices@.contains(i as usize) { 1int } else { 0int },
        decreases m - ii,
    {
        steps.set(ii, steps[ii] + 2 * sub[ii]);
        ii = ii + 1;
    }
    steps
}

impl Button {
    /// The presses that use `combo_obj` for the parity and the search's answer for
    /// the halved remainder, if the remainder is reachable.
    #[verifier::rlimit(60)]
    fn try_combo(
        &self,
        target: &Vec<i32>,
        combo_obj: &ComboObj,
        combos_by_pattern: &Vec<(String, Vec<ComboObj>)>,
        cache: &mut Vec<(Vec<i32>, Option<(usize, Vec<i32>)>)>,
    ) -> (r: Option<(usize, Vec<i32>)>)
        requires
            target@.len() == self.joltage@.len(),
            self.wirings@.len() < usize::BITS,
            (self.wirings@.len() as int) + seq_sum(ints(target@)) <= usize::MAX,
            wires_in_range(self.wirings@, self.joltage@.len() as int),
            table_ok(self.wirings@, self.joltage@.len() as nat, pow2(self.wirings@.len()), tview(combos_by_pattern@)),
            cache_ok(self.wirings@, old(cache)@),
            forall|q: int| 0 <= q < target@.len() ==> target@[q] >= 0,
            exists|q: int| 0 <= q < target@.len() && target@[q] != 0,
            exists|n: nat| n < pow2(self.wirings@.len()) && cview(*combo_obj) == combo_spec(self.wirings@, self.joltage@.len() as nat, n),
            cache_exact(self.wirings@, tview(combos_by_pattern@), old(cache)@),
        ensures
            agrees(r, candidate(self.wirings@, tview(combos_by_pattern@), ints(target@), cview(*combo_obj))),
            cache_exact(self.wirings@, tview(combos_by_pattern@), final(cache)@),
            r matches Some(b) ==> is_press_plan(self.wirings@, ints(target@), ints(b.1@)) && b.0 == seq_sum(ints(b.1@)),
            forall|x: Seq<int>|
                #[trigger] is_press_plan(self.wirings@, ints(target@), x) && cview(*combo_obj) == combo_spec(self.wirings@, self.joltage@.len() as nat, to_mask(par_of(x)))
                    ==> r is Some && presses_of(r) <= seq_sum(x),
            cache_ok(self.wirings@, final(cache)@),
            extends_cache(old(cache)@, final(cache)@),
        decreases seq_sum(ints(target@)), 0int,
    {
        let ghost w = self.wirings@;
        let ghost t = ints(target@);
        let ghost len = self.joltage@.len();
        let m = self.wirings.len();
        let jl = self.joltage.len();
        let ghost cs = cview(*combo_obj);
        let ghost n = choose|n: nat| n < pow2(m as nat) && cs == combo_spec(w, len as nat, n);
        proof {
            lemma_chosen_props(m as nat, n, m as int);
            lemma_take_full(sel_vec(m as nat, n));
            assert forall|j: int| 0 <= j < len implies 0 <= cs.1[j] by {
                lemma_dot_nonneg(w, sel_vec(m as nat, n), m as int, j);
            }
            assert forall|q: int| 0 <= q < t.len() implies t[q] >= 0 by {
                assert(t[q] == target@[q]);
            }
            assert(exists|q: int| 0 <= q < t.len() && t[q] != 0) by {
                let q = choose|q: int| 0 <= q < target@.len() && target@[q] != 0;
                assert(t[q] == target@[q]);
            }
        }
        proof {
            assert(ints(combo_obj.joltage@) == cs.1);
            assert forall|q: int| 0 <= q < target@.len() implies target@[q] >= 0 && combo_obj.joltage@[q] >= 0 by {
                assert(cs.1[q] == combo_obj.joltage@[q]);
            }
            assert(cs.1.len() == t.len());
            lemma_candidate(w, tview(combos_by_pattern@), t, cs);
        }
        let halved = halve_remainder(target, &combo_obj.joltage);
        let ghost ht = Seq::new(len as nat, |j: int| (t[j] - cs.1[j]) / 2);
        if halved.is_none() {
            proof {
                let bad = choose|q: int| 0 <= q < target@.len() && (target@[q] - combo_obj.joltage@[q] < 0 || (target@[q] - combo_obj.joltage@[q]) % 2 != 0);
                assert(t[bad] == target@[bad]);
                assert(cs.1[bad] == combo_obj.joltage@[bad]);
                assert forall|x: Seq<int>|
                    #[trigger] is_press_plan(w, t, x) && cs == combo_spec(w, len as nat, to_mask(par_of(x)))
                        implies false by {
                    lemma_candidate_for_plan(w, len as nat, t, x, to_mask(par_of(x)));
                    let hx = half_of(x);
                    assert forall|i: int| 0 <= i < hx.len() implies hx[i] >= 0 by {}
                    lemma_dot_nonneg(w, hx, hx.len() as int, bad);
                    lemma_take_full(hx);
                    assert(t[bad] - cs.1[bad] == 2 * dot(w, hx, bad));
                }
                assert(!(forall|q: int| 0 <= q < t.len() ==> t[q] - cs.1[q] >= 0 && (t[q] - cs.1[q]) % 2 == 0));
            }
            return None;
        }
        let half_target = halved.unwrap();
        proof {
            assert forall|q: int| 0 <= q < t.len() implies t[q] - cs.1[q] >= 0 && (t[q] - cs.1[q]) % 2 == 0
                && ints(half_target@)[q] == ht[q] by {
                assert(t[q] == target@[q]);
                assert(cs.1[q] == combo_obj.joltage@[q]);
                assert(half_target@[q] == (target@[q] - combo_obj.joltage@[q]) / 2);
            }
            assert(ints(half_target@) =~= ht);
            assert forall|q: int| 0 <= q < ht.len() implies 0 <= #[trigger] ht[q] <= 0x3fff_ffff by {
                assert(t[q] == target@[q]);
                assert(t[q] <= 0x7fff_ffff);
            }
            // the halved target has a smaller total
            lemma_halving_decreases(t, cs.1, ht);
            assert forall|q: int| 0 <= q < ht.len() implies 0 <= 2 * #[trigger] ht[q] <= t[q] by {
                assert(cs.1[q] >= 0);
            }
            lemma_half_sum(ht, t);
        }
        let sub = self.count_presses(&half_target, combos_by_pattern, cache);
        let ghost sub_r = sub;
        if let Some((sub_presses, sub_steps)) = sub {
            proof {
                lemma_min_plan_bounds(w, ht, sub_presses as int, ints(sub_steps@), 0x3fff_ffff);
                lemma_min_plan_le_sum(w, ht, sub_presses as int, ints(sub_steps@));
                assert(cs.0 <= m);
            }
            let total_presses = combo_obj.presses + 2 * sub_presses;
            let ghost ch = chosen(m as nat, n, m as int);
            let ghost sv = sel_vec(m as nat, n);
            proof {
                assert forall|i: int| 0 <= i < m implies (ch.contains(i as usize) <==> sv[i] == 1) by {}
            }
            proof {
                assert forall|i: int| 0 <= i < m implies 0 <= #[trigger] sub_steps@[i] <= 0x3fff_ffff by {
                    assert(ints(sub_steps@)[i] == sub_steps@[i]);
                }
            }
            let steps = combine_steps(m, &combo_obj.button_indices, &sub_steps);
            proof {
                assert forall|i: int| 0 <= i < m implies #[trigger] ints(steps@)[i] == sv[i] + 2 * ints(sub_steps@)[i] by {
                    if sv[i] == 1 {
                        assert(ch.contains(i as usize));
                    } else {
                        assert(!ch.contains(i as usize));
                    }
                }
            }
            proof {
                let xs = ints(steps@);
                lemma_dot_split(w, sv, ints(sub_steps@), xs, m as int, 0);
                lemma_take_full(xs);
                lemma_take_full(sv);
                lemma_take_full(ints(sub_steps@));
                assert forall|j: int| 0 <= j < t.len() implies #[trigger] dot(w, xs, j) == t[j] by {
                    lemma_dot_split(w, sv, ints(sub_steps@), xs, m as int, j);
                    assert(dot(w, ints(sub_steps@), j) == ht[j]);
                    assert(cs.1[j] == dot(w, sv, j));
                }
                assert forall|i: int| 0 <= i < xs.len() implies xs[i] >= 0 by {}
                assert(is_press_plan(w, t, xs));
                assert(total_presses == seq_sum(xs));
                assert(ht =~= Seq::new(t.len(), |q: int| (t[q] - cs.1[q]) / 2));
                assert(cs.2 == ch);
                assert(xs =~= with_combo(m as nat, cs, (sub_presses as int, ints(sub_steps@))).1);
            }
            proof {
                assert forall|x: Seq<int>|
                    #[trigger] is_press_plan(w, t, x) && cs == combo_spec(w, len as nat, to_mask(par_of(x)))
                        implies total_presses <= seq_sum(x) by {
                    lemma_candidate_for_plan(w, len as nat, t, x, to_mask(par_of(x)));
                    assert(ht =~= Seq::new(len as nat, |j: int| (t[j] - combo_spec(w, len as nat, to_mask(par_of(x))).1[j]) / 2));
                    assert(is_press_plan(w, ht, half_of(x)));
                }
            }
            Some((total_presses, steps))
        } else {
            proof {
                assert forall|x: Seq<int>|
                    #[trigger] is_press_plan(w, t, x) && cs == combo_spec(w, len as nat, to_mask(par_of(x)))
                        implies false by {
                    lemma_candidate_for_plan(w, len as nat, t, x, to_mask(par_of(x)));
                    assert(ht =~= Seq::new(len as nat, |j: int| (t[j] - combo_spec(w, len as nat, to_mask(par_of(x))).1[j]) / 2));
                    assert(is_press_plan(w, ht, half_of(x)));
                }
            }
            None
        }
    }

    /// The fewest presses (and how often each button is pressed) that bring every
    /// counter from zero to `target`, or `None` where no presses do.
    #[verifier::rlimit(60)]
    pub fn count_presses(
        &self,
        target: &Vec<i32>,
        combos_by_pattern: &Vec<(String, Vec<ComboObj>)>,
        cache: &mut Vec<(Vec<i32>, Option<(usize, Vec<i32>)>)>,
    ) -> (r: Option<(usize, Vec<i32>)>)
        requires
            target@.len() == self.joltage@.len(),
            self.wirings@.len() < usize::BITS,
            (self.wirings@.len() as int) + seq_sum(ints(target@)) <= usize::MAX,
            wires_in_range(self.wirings@, self.joltage@.len() as int),
            table_ok(self.wirings@, self.joltage@.len() as nat, pow2(self.wirings@.len()), tview(combos_by_pattern@)),
            cache_ok(self.wirings@, old(cache)@),
            cache_exact(self.wirings@, tview(combos_by_pattern@), old(cache)@),
        ensures
            solves(self.wirings@, ints(target@), r),
            cache_ok(self.wirings@, final(cache)@),
            agrees(r, search(self.wirings@, tview(combos_by_pattern@), ints(target@))),
            cache_exact(self.wirings@, tview(combos_by_pattern@), final(cache)@),
            extends_cache(old(cache)@, final(cache)@),
            exists|e: int| 0 <= e < final(cache)@.len() && (#[trigger] final(cache)@[e]).0@ == target@
                && same_result(final(cache)@[e].1, r),
        decreases seq_sum(ints(target@)), 1int,
    {
        let ghost w = self.wirings@;
        let ghost t = ints(target@);
        let ghost len = self.joltage@.len();
        let ghost tt0 = tview(combos_by_pattern@);
        let m = self.wirings.len();
        let jl = self.joltage.len();
        if let Some(e) = find_cached(cache, target) {
            proof {
                assert(ints(cache@[e as int].0@) == t);
                assert(agrees(cache@[e as int].1, search(w, tt0, t)));
            }
            let res = copy_result(&cache[e].1);
            proof {
                if cache@[e as int].1 is Some {
                    assert(ints((res->0).1@) == ints((cache@[e as int].1->0).1@));
                }
            }
            return res;
        }
        let mut only_zeros = true;
        let mut i: usize = 0;
        while i < target.len()
            invariant
                i <= target@.len(),
                only_zeros == (forall|k: int| 0 <= k < i ==> target@[k] == 0),
            decreases target.len() - i,
        {
            if target[i] != 0 {
                only_zeros = false;
            }
            i = i + 1;
        }
        if only_zeros {
            let empty_steps = zeros(m);
            proof {
                let z = ints(empty_steps@);
                assert forall|j: int| 0 <= j < t.len() implies #[trigger] dot(w, z, j) == t[j] by {
                    lemma_zero_plan(w, z, z.len() as int, j);
                    lemma_take_full(z);
                }
                lemma_zero_plan(w, z, z.len() as int, 0);
                lemma_take_full(z);
                assert forall|x: Seq<int>| #[trigger] is_press_plan(w, t, x) implies 0 <= seq_sum(x) by {
                    lemma_dot_nonneg(w, x, x.len() as int, 0);
                    lemma_take_full(x);
                }
            }
            proof {
                assert forall|q: int| 0 <= q < t.len() implies t[q] == 0 by {
                    assert(t[q] == target@[q]);
                }
                assert(ints(empty_steps@) =~= Seq::new(w.len(), |i: int| 0int));
            }
            let result = Some((0usize, empty_steps));
            proof {
                lemma_search_zero(w, tt0, t);
            }
            assert(agrees(result, search(w, tt0, t)));
            let key = copy_vec(target);
            let stored = copy_result(&result);
            cache.push((key, stored));
            proof {
                assert forall|e: int| 0 <= e < cache@.len() implies solves(w, ints(#[trigger] cache@[e].0@), cache@[e].1) by {
                    if e < cache@.len() - 1 {
                        assert(cache@[e] == old(cache)@[e]);
                    }
                }
                assert forall|e: int| 0 <= e < cache@.len() implies agrees(#[trigger] cache@[e].1, search(w, tt0, ints(cache@[e].0@))) by {
                    if e < cache@.len() - 1 {
                        assert(cache@[e] == old(cache)@[e]);
                    } else {
                        assert(ints(cache@[e].0@) == t);
                        assert(ints((stored->0).1@) == ints(empty_steps@));
                    }
                }
            }
            proof {
                let last = (cache@.len() - 1) as int;
                assert(cache@[last].0@ == target@ && same_result(cache@[last].1, result));
            }
            return result;
        }
        let mut negative = false;
        let mut i: usize = 0;
        while i < target.len()
            invariant
                i <= target@.len(),
                negative == (exists|k: int| 0 <= k < i && target@[k] < 0),
            decreases target.len() - i,
        {
            if target[i] < 0 {
                negative = true;
            }
            i = i + 1;
        }
        if negative {
            proof {
                let k = choose|k: int| 0 <= k < target@.len() && target@[k] < 0;
                assert forall|x: Seq<int>| !#[trigger] is_press_plan(w, t, x) by {
                    if is_press_plan(w, t, x) {
                        lemma_dot_nonneg(w, x, x.len() as int, k);
                        lemma_take_full(x);
                        assert(dot(w, x, k) == t[k]);
                    }
                }
            }
            proof {
                let k = choose|k: int| 0 <= k < target@.len() && target@[k] < 0;
                assert(t[k] == target@[k]);
                assert(exists|q: int| 0 <= q < t.len() && t[q] != 0);
                lemma_search_none(w, tt0, t);
            }
            let key = copy_vec(target);
            cache.push((key, None));
            proof {
                assert forall|e: int| 0 <= e < cache@.len() implies solves(w, ints(#[trigger] cache@[e].0@), cache@[e].1) by {
                    if e < cache@.len() - 1 {
                        assert(cache@[e] == old(cache)@[e]);
                    }
                }
                assert forall|e: int| 0 <= e < cache@.len() implies agrees(#[trigger] cache@[e].1, search(w, tt0, ints(cache@[e].0@))) by {
                    if e < cache@.len() - 1 {
                        assert(cache@[e] == old(cache)@[e]);
                    } else {
                        assert(ints(cache@[e].0@) == t);
                    }
                }
            }
            proof {
                let last = (cache@.len() - 1) as int;
                assert(cache@[last].0@ == target@ && same_result(cache@[last].1, None));
            }
            return None;
        }
        proof {
            assert(exists|q: int| 0 <= q < t.len() && t[q] != 0) by {
                let q = choose|q: int| 0 <= q < target@.len() && target@[q] != 0;
                assert(t[q] == target@[q]);
            }
            assert forall|q: int| 0 <= q < t.len() implies t[q] >= 0 by {
                assert(t[q] == target@[q]);
            }
        }
        let pattern = pattern_from_joltage(target);
        let ghost tt = tview(combos_by_pattern@);
        let found = find_key(combos_by_pattern, &pattern);
        let e = match found {
            Some(e) => e,
            None => {
                proof {
                    assert forall|x: Seq<int>| !#[trigger] is_press_plan(w, t, x) by {
                        if is_press_plan(w, t, x) {
                            lemma_plan_has_combo(w, len, tt, t, x);
                            let (e, k) = choose|e: int, k: int|
                                0 <= e < tt.len() && 0 <= k < tt[e].1.len() && #[trigger] tt[e].1[k]
                                    == combo_spec(w, len, to_mask(par_of(x))) && tt[e].0 == parity_pattern(t);
                            assert(combos_by_pattern@[e].0@ == tt[e].0);
                        }
                    }
                    assert(!exists|a: int| 0 <= a < tt.len() && tt[a].0 == parity_pattern(t)) by {
                        if exists|a: int| 0 <= a < tt.len() && tt[a].0 == parity_pattern(t) {
                            let a = choose|a: int| 0 <= a < tt.len() && tt[a].0 == parity_pattern(t);
                            assert(combos_by_pattern@[a].0@ == tt[a].0);
                        }
                    }
                    assert(exists|q: int| 0 <= q < t.len() && t[q] != 0) by {
                        let q = choose|q: int| 0 <= q < target@.len() && target@[q] != 0;
                        assert(t[q] == target@[q]);
                    }
                    lemma_search_none(w, tt0, t);
                }
                let key = copy_vec(target);
                cache.push((key, None));
                proof {
                    assert forall|e: int| 0 <= e < cache@.len() implies solves(w, ints(#[trigger] cache@[e].0@), cache@[e].1) by {
                        if e < cache@.len() - 1 {
                            assert(cache@[e] == old(cache)@[e]);
                        }
                    }
                    assert forall|e: int| 0 <= e < cache@.len() implies agrees(#[trigger] cache@[e].1, search(w, tt0, ints(cache@[e].0@))) by {
                        if e < cache@.len() - 1 {
                            assert(cache@[e] == old(cache)@[e]);
                        } else {
                            assert(ints(cache@[e].0@) == t);
                        }
                    }
                }
                proof {
                    let last = (cache@.len() - 1) as int;
                    assert(cache@[last].0@ == target@ && same_result(cache@[last].1, None));
                }
                return None;
            },
        };
        let combos = &combos_by_pattern[e].1;
        proof {
            assert(exists|q: int| 0 <= q < t.len() && t[q] != 0) by {
                let q = choose|q: int| 0 <= q < target@.len() && target@[q] != 0;
                assert(t[q] == target@[q]);
            }
            assert(tt[e as int].0 == parity_pattern(t));
            assert(tt[e as int].1 == combos@.map_values(|c: ComboObj| cview(c)));
        }
        let mut best_result: Option<(usize, Vec<i32>)> = None;
        let mut k: usize = 0;
        proof {
            lemma_search_in_start(w, tt, t, e as int);
        }
        while k < combos.len()
            invariant
                k <= combos@.len(),
                w == self.wirings@,
                m == w.len(),
                jl == len,
                len == self.joltage@.len(),
                t == ints(target@),
                t.len() == len,
                m < usize::BITS,
                (m as int) + seq_sum(t) <= usize::MAX,
                forall|q: int| 0 <= q < t.len() ==> t[q] >= 0,
                exists|q: int| 0 <= q < t.len() && t[q] != 0,
                wires_in_range(w, len as int),
                e < combos_by_pattern@.len(),
                tt == tview(combos_by_pattern@),
                table_ok(w, len as nat, pow2(m as nat), tt),
                tt[e as int].1 == combos@.map_values(|c: ComboObj| cview(c)),
                tt[e as int].0 == parity_pattern(t),
                cache_ok(w, cache@),
                cache_exact(w, tt, cache@),
                extends_cache(old(cache)@, cache@),
                agrees(best_result, search_in(w, tt, t, e as int, k as int)),
                best_result matches Some(b) ==> is_press_plan(w, t, ints(b.1@)) && b.0 == seq_sum(ints(b.1@)),
                forall|x: Seq<int>, kk: int|
                    #![trigger is_press_plan(w, t, x), combos@[kk]]
                    0 <= kk < k && is_press_plan(w, t, x) && cview(combos@[kk]) == combo_spec(w, len as nat, to_mask(par_of(x)))
                        ==> best_result is Some && presses_of(best_result) <= seq_sum(x),
            decreases combos.len() - k,
        {
            let combo_obj = &combos[k];
            proof {
                assert(tt[e as int].1[k as int] == cview(*combo_obj));
            }
            proof {
                assert forall|q: int| 0 <= q < target@.len() implies target@[q] >= 0 by {
                    assert(t[q] == target@[q]);
                }
                assert(exists|q: int| 0 <= q < target@.len() && target@[q] != 0) by {
                    let q = choose|q: int| 0 <= q < t.len() && t[q] != 0;
                    assert(t[q] == target@[q]);
                }
                let cs = cview(*combo_obj);
                assert(tt[e as int].1[k as int] == cs);
                let n = choose|n: nat| n < pow2(m as nat) && cs == combo_spec(w, len as nat, n);
            }
            let cand = self.try_combo(target, combo_obj, combos_by_pattern, cache);
            proof {
                assert(tt[e as int].1.len() == combos@.len());
                lemma_search_in_step(w, tt, t, e as int, k as int);
            }
            if let Some((total_presses, steps)) = cand {
                if best_result.is_none() || total_presses < best_result.as_ref().unwrap().0 {
                    best_result = Some((total_presses, steps));
                }
            }
            k = k + 1;
        }
        proof {
            match best_result {
                Some(ref b) => {
                    assert forall|x: Seq<int>| #[trigger] is_press_plan(w, t, x) implies b.0 <= seq_sum(x) by {
                        lemma_plan_has_combo(w, len as nat, tt, t, x);
                        let (e2, k2) = choose|e2: int, k2: int|
                            0 <= e2 < tt.len() && 0 <= k2 < tt[e2].1.len() && #[trigger] tt[e2].1[k2]
                                == combo_spec(w, len as nat, to_mask(par_of(x))) && tt[e2].0 == parity_pattern(t);
                        assert(e2 == e);
                        assert(cview(combos@[k2]) == tt[e as int].1[k2]);
                    }
                },
                None => {
                    assert forall|x: Seq<int>| !#[trigger] is_press_plan(w, t, x) by {
                        if is_press_plan(w, t, x) {
                            lemma_plan_has_combo(w, len as nat, tt, t, x);
                            let (e2, k2) = choose|e2: int, k2: int|
                                0 <= e2 < tt.len() && 0 <= k2 < tt[e2].1.len() && #[trigger] tt[e2].1[k2]
                                    == combo_spec(w, len as nat, to_mask(par_of(x))) && tt[e2].0 == parity_pattern(t);
                            assert(e2 == e);
                            assert(cview(combos@[k2]) == tt[e as int].1[k2]);
                        }
                    }
                },
            }
        }
        proof {
            assert(tt[e as int].1.len() == combos@.len());
            assert(nonneg_nonzero(t));
            lemma_search_pick(w, tt, t, e as int);
        }
        let key = copy_vec(target);
        let stored = copy_result(&best_result);
        let ghost before = cache@;
        cache.push((key, stored));
        proof {
            assert forall|i: int| 0 <= i < cache@.len() implies agrees(#[trigger] cache@[i].1, search(w, tt, ints(cache@[i].0@))) by {
                if i < cache@.len() - 1 {
                    assert(cache@[i] == before[i]);
                } else {
                    assert(ints(cache@[i].0@) == t);
                    if best_result is Some {
                        assert(ints((stored->0).1@) == ints((best_result->0).1@));
                    }
                }
            }
            let last = (cache@.len() - 1) as int;
            assert(cache@[last].0@ == target@ && same_result(cache@[last].1, best_result));
            assert forall|i: int| 0 <= i < old(cache)@.len() implies #[trigger] cache@[i] == old(cache)@[i] by {
                assert(cache@[i] == before[i]);
            }
        }
        best_result
    }
}


impl Button {
    /// Whether some counter already exceeds its target.
    pub fn quick_check(current: &Vec<i32>, joltage: &Vec<i32>) -> (r: bool)
        ensures
            r == exceeds(current@, joltage@),
    {
        let n = if current.len() < joltage.len() {
            current.len()
        } else {
            joltage.len()
        };
        let mut i: usize = 0;
        while i < n
            invariant
                i <= n,
                n == min_len(current@, joltage@),
                forall|k: int| 0 <= k < i ==> current@[k] <= joltage@[k],
            decreases n - i,
        {
            if current[i] > joltage[i] {
                return true;
            }
            i = i + 1;
        }
        false
    }

}

pub open spec fn min_len(a: Seq<i32>, b: Seq<i32>) -> int {
    if a.len() < b.len() {
        a.len() as int
    } else {
        b.len() as int
    }
}

/// Some counter (over the common length) is above its target.
pub open spec fn exceeds(current: Seq<i32>, joltage: Seq<i32>) -> bool {
    exists|k: int| 0 <= k < min_len(current, joltage) && current[k] > joltage[k]
}


/// `b[k] * a[0] == a[k] * b[0]` below `i`: the first `i` entries of `b` are
/// `b[0] / a[0]` times those of `a`.
pub open spec fn proportional_upto(a: Seq<i32>, b: Seq<i32>, i: int) -> bool {
    forall|k: int| 0 <= k < i ==> #[trigger] b[k] * a[0] == a[k] * b[0]
}

proof fn lemma_cancel(bi: int, ai: int, a0: int, b0: int, k: int)
    requires
        a0 != 0,
        bi * a0 == ai * b0,
        k * a0 == b0,
    ensures
        bi == k * ai,
{
    assert((bi - k * ai) * a0 == 0) by (nonlinear_arith)
        requires bi * a0 == ai * b0, k * a0 == b0;
    assert(bi - k * ai == 0) by (nonlinear_arith)
        requires (bi - k * ai) * a0 == 0, a0 != 0;
}

proof fn lemma_multiple_mag(x: int, d: int, q: int, xm: int, dm: int)
    requires
        d != 0,
        xm == if x < 0 { -x } else { x },
        dm == if d < 0 { -d } else { d },
        q * d == x,
    ensures
        xm % dm == 0,
{
    let qm = if q < 0 { -q } else { q };
    assert(qm * dm == xm) by (nonlinear_arith)
        requires
            q * d == x,
            qm == if q < 0 { -q } else { q },
            xm == if x < 0 { -x } else { x },
            dm == if d < 0 { -d } else { d },
    ;
    vstd::arithmetic::div_mod::lemma_mod_multiples_basic(qm, dm);
}

proof fn lemma_quotient_mag(x: int, d: int, xm: int, dm: int, km: int)
    requires
        d != 0,
        xm == if x < 0 { -x } else { x },
        dm == if d < 0 { -d } else { d },
        xm % dm == 0,
        km == xm / dm,
        i32::MIN <= x <= i32::MAX,
        !(x == i32::MIN && d == -1),
    ensures
        km * dm == xm,
        0 <= km <= 0x8000_0000,
        ((x < 0) != (d < 0)) ==> (-km) * d == x,
        ((x < 0) == (d < 0)) ==> km * d == x && km <= i32::MAX,
{
    vstd::arithmetic::div_mod::lemma_fundamental_div_mod(xm, dm);
    assert(km * dm == xm) by (nonlinear_arith)
        requires xm == dm * (xm / dm) + xm % dm, xm % dm == 0, km == xm / dm;
    assert(0 <= km <= xm) by (nonlinear_arith)
        requires km * dm == xm, dm >= 1, xm >= 0;
    if (x < 0) != (d < 0) {
        assert((-km) * d == x) by (nonlinear_arith)
            requires km * dm == xm, xm == if x < 0 { -x } else { x }, dm == if d < 0 { -d } else { d }, (x < 0) != (d < 0);
    } else {
        assert(km * d == x) by (nonlinear_arith)
            requires km * dm == xm, xm == if x < 0 { -x } else { x }, dm == if d < 0 { -d } else { d }, (x < 0) == (d < 0);
        if x < 0 {
            if dm == 1 {
                assert(km * 1 == km);
                assert(km == xm);
                assert(d == -1);
            } else {
                assert(km * 2 <= xm) by (nonlinear_arith)
                    requires km * dm == xm, dm >= 2, km >= 0;
            }
        }
    }
}

/// `joltage - current`, over the common length.
pub open spec fn rest_of(current: Seq<i32>, joltage: Seq<i32>) -> Seq<int> {
    Seq::new(min_len(current, joltage) as nat, |k: int| joltage[k] - current[k])
}

/// The first index (below `upto`) of the smallest positive entry of `r`.
pub open spec fn first_min_pos(r: Seq<int>, upto: int) -> Option<int>
    decreases upto,
{
    if upto <= 0 {
        None
    } else {
        let prev = first_min_pos(r, upto - 1);
        let i = upto - 1;
        if r[i] > 0 && (prev is None || r[i] < r[prev->0]) {
            Some(i)
        } else {
            prev
        }
    }
}

/// The counters after one press of a button with wires `wiring`.
pub open spec fn add_wires(current: Seq<i32>, wiring: Seq<i32>) -> Seq<int> {
    Seq::new(current.len(), |k: int| current[k] + occ(wiring, k))
}

/// The next states of the joltage search from `current`: one more press of each
/// button (below `upto`) wired to counter `target_idx`, unless it overshoots.
pub open spec fn next_states(
    w: Seq<Vec<i32>>,
    current: Seq<i32>,
    steps: Seq<i32>,
    joltage: Seq<i32>,
    target_idx: int,
    upto: int,
) -> Seq<(Seq<int>, Seq<int>)>
    decreases upto,
{
    if upto <= 0 {
        Seq::empty()
    } else {
        let prev = next_states(w, current, steps, joltage, target_idx, upto - 1);
        let i = upto - 1;
        let nc = add_wires(current, w[i]@);
        if occ(w[i]@, target_idx) > 0 && !(exists|k: int| 0 <= k < nc.len() && k < joltage.len() && nc[k] > joltage[k]) {
            prev.push((nc, ints(steps).update(i, steps[i] + 1)))
        } else {
            prev
        }
    }
}

/// The preconditions under which the next states can be computed without overflow.
pub open spec fn next_states_ok(w: Seq<Vec<i32>>, current: Seq<i32>, steps: Seq<i32>, target_idx: int) -> bool {
    forall|i: int| 0 <= i < w.len() && occ(#[trigger] w[i]@, target_idx) > 0 ==> {
        &&& i < steps.len()
        &&& steps[i] < i32::MAX
        &&& forall|k: int| 0 <= k < w[i]@.len() ==> 0 <= #[trigger] w[i]@[k] < current.len()
        &&& forall|k: int| 0 <= k < current.len() ==> #[trigger] current[k] + occ(w[i]@, k) <= i32::MAX
    }
}

proof fn lemma_occ_contains(s: Seq<i32>, j: int)
    ensures
        (occ(s, j) > 0) == (exists|k: int| 0 <= k < s.len() && s[k] == j),
    decreases s.len(),
{
    if s.len() > 0 {
        lemma_occ_contains(s.drop_last(), j);
        lemma_occ_bounds(s.drop_last(), j);
        if exists|k: int| 0 <= k < s.drop_last().len() && s.drop_last()[k] == j {
            let k = choose|k: int| 0 <= k < s.drop_last().len() && s.drop_last()[k] == j;
            assert(s[k] == j);
        }
        if exists|k: int| 0 <= k < s.len() && s[k] == j {
            let k = choose|k: int| 0 <= k < s.len() && s[k] == j;
            if k < s.len() - 1 {
                assert(s.drop_last()[k] == j);
            }
        }
    }
}

fn contains_i32(v: &Vec<i32>, x: i32) -> (r: bool)
    ensures
        r == (occ(v@, x as int) > 0),
{
    let mut k: usize = 0;
    while k < v.len()
        invariant
            k <= v@.len(),
            forall|q: int| 0 <= q < k ==> v@[q] != x,
        decreases v.len() - k,
    {
        if v[k] == x {
            proof {
                lemma_occ_contains(v@, x as int);
                assert(v@[k as int] == x);
            }
            return true;
        }
        k = k + 1;
    }
    proof {
        lemma_occ_contains(v@, x as int);
    }
    false
}

/// `current` with one press of `wiring` added.
fn add_wiring(current: &Vec<i32>, wiring: &Vec<i32>) -> (r: Vec<i32>)
    requires
        forall|k: int| 0 <= k < wiring@.len() ==> 0 <= #[trigger] wiring@[k] < current@.len(),
        forall|k: int| 0 <= k < current@.len() ==> #[trigger] current@[k] + occ(wiring@, k) <= i32::MAX,
    ensures
        ints(r@) == add_wires(current@, wiring@),
{
    let mut r = copy_vec(current);
    let mut k: usize = 0;
    while k < wiring.len()
        invariant
            k <= wiring@.len(),
            r@.len() == current@.len(),
            forall|q: int| 0 <= q < wiring@.len() ==> 0 <= #[trigger] wiring@[q] < current@.len(),
            forall|q: int| 0 <= q < current@.len() ==> #[trigger] current@[q] + occ(wiring@, q) <= i32::MAX,
            forall|q: int| 0 <= q < current@.len() ==> #[trigger] r@[q] == current@[q] + occ(wiring@.take(k as int), q),
        decreases wiring.len() - k,
    {
        let wv = wiring[k] as usize;
        proof {
            assert forall|q: int| 0 <= q < current@.len() implies occ(wiring@.take(k + 1), q)
                == occ(wiring@.take(k as int), q) + if wiring@[k as int] == q { 1int } else { 0int } by {
                lemma_occ_take(wiring@, k as int, q);
            }
            lemma_occ_prefix_le(wiring@, k + 1, wv as int);
            lemma_occ_take(wiring@, k as int, wv as int);
        }
        r.set(wv, r[wv] + 1);
        k = k + 1;
    }
    proof {
        lemma_take_full(wiring@);
        assert(ints(r@) =~= add_wires(current@, wiring@));
    }
    r
}

impl Button {
    /// The next states of the joltage search: from `current`, press once more each
    /// button wired to the counter with the smallest positive remaining joltage
    /// (the first such counter), keeping the states that do not overshoot.
    pub fn get_next_steps_smart(wirings: &Vec<Vec<i32>>, current: &Vec<i32>, steps: &Vec<i32>, joltage: &Vec<i32>) -> (r: Vec<(Vec<i32>, Vec<i32>)>)
        requires
            forall|k: int| 0 <= k < min_len(current@, joltage@) ==> i32::MIN <= #[trigger] joltage@[k] - current@[k] <= i32::MAX,
            first_min_pos(rest_of(current@, joltage@), min_len(current@, joltage@)) matches Some(mi) ==> next_states_ok(
                wirings@, current@, steps@, (mi as i32) as int),
        ensures
            r@.len() == match first_min_pos(rest_of(current@, joltage@), min_len(current@, joltage@)) {
                Some(mi) => next_states(wirings@, current@, steps@, joltage@, (mi as i32) as int, wirings@.len() as int).len(),
                None => 0,
            },
            first_min_pos(rest_of(current@, joltage@), min_len(current@, joltage@)) matches Some(mi) ==> forall|q: int| 0 <= q < r@.len() ==> (ints(#[trigger] r@[q].0@), ints(r@[q].1@))
                == next_states(wirings@, current@, steps@, joltage@, (mi as i32) as int, wirings@.len() as int)[q],
    {
        let mut result: Vec<(Vec<i32>, Vec<i32>)> = Vec::new();
        let n = if current.len() < joltage.len() {
            current.len()
        } else {
            joltage.len()
        };
        let ghost rs = rest_of(current@, joltage@);
        let mut min_index: Option<usize> = None;
        let mut i: usize = 0;
        while i < n
            invariant
                i <= n,
                n == min_len(current@, joltage@),
                rs == rest_of(current@, joltage@),
                forall|k: int| 0 <= k < min_len(current@, joltage@) ==> i32::MIN <= #[trigger] joltage@[k] - current@[k] <= i32::MAX,
                min_index matches Some(mi) ==> mi < i,
                (match min_index { Some(mi) => Some(mi as int), None => None }) == first_min_pos(rs, i as int),
            decreases n - i,
        {
            let v = joltage[i] - current[i];
            let better = match min_index {
                Some(mi) => v > 0 && v < joltage[mi] - current[mi],
                None => v > 0,
            };
            if better {
                min_index = Some(i);
            }
            i = i + 1;
        }
        if let Some(mi) = min_index {
            let minimum = mi as i32;
            let ghost ns = next_states(wirings@, current@, steps@, joltage@, minimum as int, wirings@.len() as int);
            let mut b: usize = 0;
            while b < wirings.len()
                invariant
                    b <= wirings@.len(),
                    next_states_ok(wirings@, current@, steps@, minimum as int),
                    result@.len() == next_states(wirings@, current@, steps@, joltage@, minimum as int, b as int).len(),
                    forall|q: int| 0 <= q < result@.len() ==> (ints(#[trigger] result@[q].0@), ints(result@[q].1@))
                        == next_states(wirings@, current@, steps@, joltage@, minimum as int, b as int)[q],
                decreases wirings.len() - b,
            {
                let wiring = &wirings[b];
                let ghost prev = next_states(wirings@, current@, steps@, joltage@, minimum as int, b as int);
                if contains_i32(wiring, minimum) {
                    let mut new_steps = copy_vec(steps);
                    new_steps.set(b, new_steps[b] + 1);
                    let new_curr = add_wiring(current, wiring);
                    if Self::quick_check(&new_curr, joltage) {
                        proof {
                            let k = choose|k: int| 0 <= k < min_len(new_curr@, joltage@) && new_curr@[k] > joltage@[k];
                            assert(ints(new_curr@)[k] == new_curr@[k]);
                        }
                        b = b + 1;
                        continue;
                    }
                    proof {
                        let nc = add_wires(current@, wiring@);
                        assert(!(exists|k: int| 0 <= k < nc.len() && k < joltage@.len() && nc[k] > joltage@[k])) by {
                            if exists|k: int| 0 <= k < nc.len() && k < joltage@.len() && nc[k] > joltage@[k] {
                                let k = choose|k: int| 0 <= k < nc.len() && k < joltage@.len() && nc[k] > joltage@[k];
                                assert(ints(new_curr@)[k] == new_curr@[k]);
                            }
                        }
                        assert(ints(new_steps@) =~= ints(steps@).update(b as int, steps@[b as int] + 1));
                    }
                    let ghost before = result@;
                    result.push((new_curr, new_steps));
                    proof {
                        assert forall|q: int| 0 <= q < result@.len() implies (ints(#[trigger] result@[q].0@), ints(result@[q].1@))
                            == next_states(wirings@, current@, steps@, joltage@, minimum as int, b + 1)[q] by {
                            if q < prev.len() {
                                assert(result@[q] == before[q]);
                            }
                        }
                    }
                }
                b = b + 1;
            }
        }
        result
    }

    /// The factor `k` with `b == k * a` elementwise, when `a` and `b` have the same
    /// non-zero length, `a[0] != 0`, and the factor is a whole number.
    pub fn same_multiplier(a: &[i32], b: &[i32]) -> (r: Option<i32>)
        requires
            a@.len() == b@.len() && a@.len() > 0 && a@[0] != 0 ==> {
                &&& forall|i: int| 0 <= i < a@.len() && proportional_upto(a@, b@, i)
                    ==> i32::MIN <= #[trigger] b@[i] * a@[0] <= i32::MAX && i32::MIN <= a@[i] * b@[0] <= i32::MAX
                &&& !(b@[0] == i32::MIN && a@[0] == -1)
            },
        ensures
            r is Some == (a@.len() == b@.len() && a@.len() > 0 && a@[0] != 0 && proportional_upto(a@, b@, a@.len() as int)
                && exists|q: int| #[trigger] (q * a@[0]) == b@[0]),
            r matches Some(k) ==> k * a@[0] == b@[0],
            r matches Some(k) ==> forall|i: int| 0 <= i < a@.len() ==> #[trigger] b@[i] == k * a@[i],
    {
        if a.len() != b.len() || a.len() == 0 {
            return None;
        }
        let num = b[0];
        let den = a[0];
        if den == 0 {
            return None;
        }
        let mut i: usize = 0;
        while i < a.len()
            invariant
                i <= a@.len(),
                a@.len() == b@.len(),
                num == b@[0],
                den == a@[0],
                den != 0,
                forall|q: int| 0 <= q < a@.len() && proportional_upto(a@, b@, q)
                    ==> i32::MIN <= #[trigger] b@[q] * a@[0] <= i32::MAX && i32::MIN <= a@[q] * b@[0] <= i32::MAX,
                proportional_upto(a@, b@, i as int),
            decreases a.len() - i,
        {
            proof {
                assert(i32::MIN <= b@[i as int] * a@[0] <= i32::MAX);
            }
            if b[i] * den != a[i] * num {
                return None;
            }
            i = i + 1;
        }
        // divisibility and quotient through magnitudes
        let num_mag: u32 = if num < 0 { (-(num as i64)) as u32 } else { num as u32 };
        let den_mag: u32 = if den < 0 { (-(den as i64)) as u32 } else { den as u32 };
        if num_mag % den_mag != 0 {
            proof {
                assert forall|q: int| #[trigger] (q * a@[0]) != b@[0] by {
                    if q * a@[0] == b@[0] {
                        lemma_multiple_mag(num as int, den as int, q, num_mag as int, den_mag as int);
                    }
                }
            }
            return None;
        }
        let k_mag = num_mag / den_mag;
        proof {
            lemma_quotient_mag(num as int, den as int, num_mag as int, den_mag as int, k_mag as int);
            let k = if (num < 0) != (den < 0) { -(k_mag as int) } else { k_mag as int };
            assert forall|i: int| 0 <= i < a@.len() implies #[trigger] b@[i] == k * a@[i] by {
                lemma_cancel(b@[i] as int, a@[i] as int, a@[0] as int, b@[0] as int, k);
            }
        }
        if (num < 0) != (den < 0) {
            Some(-(k_mag as i64) as i32)
        } else {
            Some(k_mag as i32)
        }
    }

}


/// `#` for a light that is on, `.` for one that is off.
pub open spec fn leds_str(l: Seq<bool>) -> Seq<char> {
    Seq::new(l.len(), |i: int| if l[i] { '#' } else { '.' })
}

/// The numbers of `v` in decimal, separated by `sep`.
pub open spec fn join_nums(v: Seq<i32>, sep: Seq<char>) -> Seq<char>
    decreases v.len(),
{
    if v.len() == 0 {
        Seq::empty()
    } else if v.len() == 1 {
        dec_str(v[0] as int)
    } else {
        join_nums(v.drop_last(), sep) + sep + dec_str(v.last() as int)
    }
}

/// Each wiring as `[a,b,c]`, separated by `"; "`.
pub open spec fn wirings_str(w: Seq<Vec<i32>>) -> Seq<char>
    decreases w.len(),
{
    if w.len() == 0 {
        Seq::empty()
    } else if w.len() == 1 {
        "["@ + join_nums(w[0]@, ","@) + "]"@
    } else {
        wirings_str(w.drop_last()) + "; "@ + "["@ + join_nums(w.last()@, ","@) + "]"@
    }
}

pub open spec fn button_str(b: Button) -> Seq<char> {
    "Button { target_leds: "@ + leds_str(b.target_leds@) + ", wirings: "@ + wirings_str(b.wirings@)
        + ", joltage: "@ + join_nums(b.joltage@, ","@) + " }"@
}

fn append_nums(s: &mut String, v: &Vec<i32>, sep: &str)
    ensures
        final(s)@ == old(s)@ + join_nums(v@, sep@),
{
    let mut i: usize = 0;
    while i < v.len()
        invariant
            i <= v@.len(),
            s@ == old(s)@ + join_nums(v@.take(i as int), sep@),
        decreases v.len() - i,
    {
        let ghost before = s@;
        if i > 0 {
            s.append(sep);
        }
        let digits = int_to_chars(v[i] as i128);
        push_chars(s, &digits);
        i = i + 1;
        proof {
            let t = v@.take(i as int);
            assert(t.drop_last() =~= v@.take(i - 1));
            assert(t.last() == v@[i - 1]);
            if i == 1 {
                assert(join_nums(v@.take(0), sep@) =~= Seq::<char>::empty());
                assert(s@ =~= old(s)@ + join_nums(t, sep@));
            } else {
                assert(s@ =~= old(s)@ + join_nums(t, sep@));
            }
        }
    }
    proof {
        lemma_take_full(v@);
    }
}

impl Button {
    /// The machine as text: `Button { target_leds: .##., wirings: [1,3]; [0], joltage: 3,5 }`.
    pub fn display_string(&self) -> (r: String)
        ensures
            r@ == button_str(*self),
    {
        let mut s = String::new();
        s.append("Button { target_leds: ");
        let mut i: usize = 0;
        let ghost base = s@;
        while i < self.target_leds.len()
            invariant
                i <= self.target_leds@.len(),
                s@ == base + leds_str(self.target_leds@).take(i as int),
            decreases self.target_leds.len() - i,
        {
            let c = if self.target_leds[i] {
                '#'
            } else {
                '.'
            };
            push_char(&mut s, c);
            i = i + 1;
            proof {
                assert(s@ =~= base + leds_str(self.target_leds@).take(i as int));
            }
        }
        proof {
            lemma_take_full(leds_str(self.target_leds@));
        }
        s.append(", wirings: ");
        let ghost base2 = s@;
        let mut k: usize = 0;
        while k < self.wirings.len()
            invariant
                k <= self.wirings@.len(),
                s@ == base2 + wirings_str(self.wirings@.take(k as int)),
            decreases self.wirings.len() - k,
        {
            if k > 0 {
                s.append("; ");
            }
            s.append("[");
            append_nums(&mut s, &self.wirings[k], ",");
            s.append("]");
            k = k + 1;
            proof {
                let t = self.wirings@.take(k as int);
                assert(t.drop_last() =~= self.wirings@.take(k - 1));
                assert(t.last() == self.wirings@[k - 1]);
                if k == 1 {
                    assert(wirings_str(self.wirings@.take(0)) =~= Seq::<char>::empty());
                }
                assert(s@ =~= base2 + wirings_str(t));
            }
        }
        proof {
            lemma_take_full(self.wirings@);
        }
        s.append(", joltage: ");
        append_nums(&mut s, &self.joltage, ",");
        s.append(" }");
        s
    }

    /// The fewest presses of each button that bring the counters from zero to the
    /// joltage targets, or `None` where no presses do.
    pub fn solve_joltage_optimized(&mut self) -> (r: Option<Vec<i32>>)
        requires
            old(self).wirings@.len() < usize::BITS,
            (old(self).wirings@.len() as int) + seq_sum(ints(old(self).joltage@)) <= usize::MAX,
            wires_in_range(old(self).wirings@, old(self).joltage@.len() as int),
            wire_count(old(self).wirings@) <= i32::MAX,
        ensures
            final(self).wirings@ == old(self).wirings@,
            final(self).joltage@ == old(self).joltage@,
            final(self).target_leds@ == old(self).target_leds@,
            final(self).hash_vault@ == old(self).hash_vault@,
            r is None <==> forall|x: Seq<int>| !#[trigger] is_press_plan(old(self).wirings@, ints(old(self).joltage@), x),
            r matches Some(s) ==> is_min_plan(old(self).wirings@, ints(old(self).joltage@), seq_sum(ints(s@)), ints(s@)),
            match (r, joltage_pick(old(self).wirings@, old(self).joltage@.len() as nat, ints(old(self).joltage@))) {
                (Some(s), Some(p)) => ints(s@) == p.1,
                (None, None) => true,
                _ => false,
            },
    {
        let combos_by_pattern = fill_patterns_and_combos(&self.wirings, self.joltage.len());
        proof {
            lemma_table_upto_ok(self.wirings@, self.joltage@.len() as nat, pow2(self.wirings@.len()));
        }
        let mut cache: Vec<(Vec<i32>, Option<(usize, Vec<i32>)>)> = Vec::new();
        let target = copy_vec(&self.joltage);
        let found = self.count_presses(&target, &combos_by_pattern, &mut cache);
        proof {
            assert(tview(combos_by_pattern@) == table_upto(self.wirings@, self.joltage@.len() as nat, pow2(self.wirings@.len())));
            assert(ints(target@) == ints(self.joltage@));
        }
        match found {
            Some((_total_presses, steps)) => Some(steps),
            None => None,
        }
    }
}

/// The parity pattern of a counter vector (`'0'` even, `'1'` odd).
pub fn pattern_from_joltage(joltage: &Vec<i32>) -> (r: String)
    requires
        forall|j: int| 0 <= j < joltage@.len() ==> joltage@[j] >= 0 || joltage@[j] % 2 == 0,
    ensures
        r@ == parity_pattern(ints(joltage@)),
{
    let mut s = String::new();
    let mut i: usize = 0;
    while i < joltage.len()
        invariant
            i <= joltage.len(),
            forall|j: int| 0 <= j < joltage@.len() ==> joltage@[j] >= 0 || joltage@[j] % 2 == 0,
            s@ == parity_pattern(ints(joltage@)).take(i as int),
        decreases joltage.len() - i,
    {
        let jolt = joltage[i];
        let c = if jolt < 0 {
            '0'
        } else {
            ((jolt % 2) as u8 + 48u8) as char
        };
        proof {
            if jolt >= 0 {
                assert(jolt % 2 == 0 || jolt % 2 == 1);
            }
            assert(c == parity_pattern(ints(joltage@))[i as int]);
        }
        push_char(&mut s, c);
        i = i + 1;
        proof {
            assert(s@ =~= parity_pattern(ints(joltage@)).take(i as int));
        }
    }
    proof {
        assert(parity_pattern(ints(joltage@)).take(joltage@.len() as int) =~= parity_pattern(
            ints(joltage@),
        ));
    }
    s
}

} // verus!
