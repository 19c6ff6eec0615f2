//! The searches over machine states that remember visited states by hash: the
//! light search (toggling) and the checks of the joltage search.
use std::collections::HashMap;
use std::collections::hash_map::DefaultHasher;
use std::hash::{Hash, Hasher};
use vstd::prelude::*;
use vstd::std_specs::hash::DefaultHasherAdditionalSpecFns;
use crate::machines::{Button, wires_in_range, seq_sum, ints, exceeds, same_vec, lemma_take_full};

verus! {

broadcast use vstd::std_specs::hash::group_hash_axioms;

/// The lights after toggling each light that `wiring` lists, in order.
pub open spec fn toggle(cur: Seq<bool>, wiring: Seq<i32>) -> Seq<bool>
    decreases wiring.len(),
{
    if wiring.len() == 0 {
        cur
    } else {
        let c = toggle(cur, wiring.drop_last());
        c.update(wiring.last() as int, !c[wiring.last() as int])
    }
}

/// The lights after pressing the buttons `steps` in order.
pub open spec fn press_all(w: Seq<Vec<i32>>, cur: Seq<bool>, steps: Seq<usize>) -> Seq<bool>
    decreases steps.len(),
{
    if steps.len() == 0 {
        cur
    } else {
        toggle(press_all(w, cur, steps.drop_last()), w[steps.last() as int]@)
    }
}

/// Feeds the lights to the hasher (`Hash::hash` for `Vec<bool>`).
#[verifier::external_body]
fn hash_lights(state: &Vec<bool>, hasher: &mut DefaultHasher) {
    state.hash(hasher);
}

/// Feeds the counters to the hasher (`Hash::hash` for `Vec<i32>`).
#[verifier::external_body]
fn hash_counters(state: &Vec<i32>, hasher: &mut DefaultHasher) {
    state.hash(hasher);
}

fn copy_bools(a: &Vec<bool>) -> (r: Vec<bool>)
    ensures
        r@ == a@,
{
    let mut r: Vec<bool> = Vec::new();
    let mut i: usize = 0;
    while i < a.len()
        invariant
            i <= a.len(),
            r@ == a@.take(i as int),
        decreases a.len() - i,
    {
        r.push(a[i]);
        i = i + 1;
        proof {
            assert(r@ =~= a@.take(i as int));
        }
    }
    proof {
        lemma_take_full(a@);
    }
    r
}

fn copy_indices(a: &Vec<usize>) -> (r: Vec<usize>)
    ensures
        r@ == a@,
{
    let mut r: Vec<usize> = Vec::new();
    let mut i: usize = 0;
    while i < a.len()
        invariant
            i <= a.len(),
            r@ == a@.take(i as int),
        decreases a.len() - i,
    {
        r.push(a[i]);
        i = i + 1;
        proof {
            assert(r@ =~= a@.take(i as int));
        }
    }
    proof {
        lemma_take_full(a@);
    }
    r
}

fn same_bools(a: &Vec<bool>, b: &Vec<bool>) -> (r: bool)
    ensures
        r == (a@ == b@),
{
    if a.len() != b.len() {
        return false;
    }
    let mut i: usize = 0;
    while i < a.len()
        invariant
            i <= a.len(),
            a@.len() == b@.len(),
            forall|k: int| 0 <= k < i ==> a@[k] == b@[k],
        decreases a.len() - i,
    {
        if a[i] != b[i] {
            return false;
        }
        i = i + 1;
    }
    assert(a@ =~= b@);
    true
}

/// Toggles the lights that `wiring` lists.
fn apply_wiring(cur: &mut Vec<bool>, wiring: &Vec<i32>)
    requires
        forall|k: int| 0 <= k < wiring@.len() ==> 0 <= #[trigger] wiring@[k] < old(cur)@.len(),
    ensures
        final(cur)@ == toggle(old(cur)@, wiring@),
{
    let mut k: usize = 0;
    while k < wiring.len()
        invariant
            k <= wiring@.len(),
            forall|q: int| 0 <= q < wiring@.len() ==> 0 <= #[trigger] wiring@[q] < old(cur)@.len(),
            cur@ == toggle(old(cur)@, wiring@.take(k as int)),
            cur@.len() == old(cur)@.len(),
        decreases wiring.len() - k,
    {
        let wv = wiring[k] as usize;
        proof {
            assert(wiring@.take(k + 1).drop_last() =~= wiring@.take(k as int));
            assert forall|q: int| 0 <= q < wiring@.take(k as int).len() implies 0 <= #[trigger] wiring@.take(k as int)[q] < old(cur)@.len() by {
                assert(wiring@.take(k as int)[q] == wiring@[q]);
            }
            lemma_toggle_len(old(cur)@, wiring@.take(k as int));
        }
        let flipped = !cur[wv];
        cur.set(wv, flipped);
        k = k + 1;
    }
    proof {
        lemma_take_full(wiring@);
    }
}

proof fn lemma_toggle_len(cur: Seq<bool>, wiring: Seq<i32>)
    requires
        forall|k: int| 0 <= k < wiring.len() ==> 0 <= #[trigger] wiring[k] < cur.len(),
    ensures
        toggle(cur, wiring).len() == cur.len(),
    decreases wiring.len(),
{
    if wiring.len() > 0 {
        assert forall|k: int| 0 <= k < wiring.drop_last().len() implies 0 <= #[trigger] wiring.drop_last()[k] < cur.len() by {
            assert(wiring.drop_last()[k] == wiring[k]);
        }
        lemma_toggle_len(cur, wiring.drop_last());
        assert(0 <= wiring.last() < cur.len());
    }
}

proof fn lemma_press_all_push(w: Seq<Vec<i32>>, cur: Seq<bool>, steps: Seq<usize>, i: usize)
    ensures
        press_all(w, cur, steps.push(i)) == toggle(press_all(w, cur, steps), w[i as int]@),
{
    assert(steps.push(i).drop_last() =~= steps);
}

/// Pressing a button first, then the rest.
proof fn lemma_press_all_prepend(w: Seq<Vec<i32>>, cur: Seq<bool>, i: usize, rest: Seq<usize>)
    ensures
        press_all(w, cur, seq![i] + rest) == press_all(w, toggle(cur, w[i as int]@), rest),
    decreases rest.len(),
{
    let s = seq![i] + rest;
    if rest.len() == 0 {
        assert(s =~= seq![i]);
        assert(s.drop_last() =~= Seq::<usize>::empty());
        assert(s.last() == i);
        assert(press_all(w, cur, s) == toggle(press_all(w, cur, s.drop_last()), w[s.last() as int]@));
        assert(press_all(w, cur, Seq::<usize>::empty()) == cur);
    } else {
        lemma_press_all_prepend(w, cur, i, rest.drop_last());
        assert(s.drop_last() =~= seq![i] + rest.drop_last());
        assert(s.last() == rest.last());
        assert(press_all(w, cur, s) == toggle(press_all(w, cur, s.drop_last()), w[s.last() as int]@));
    }
}

/// Whether `key`, called on lights, returns `hf` of them.
pub open spec fn keyed_by<F: Fn(&Vec<bool>) -> u64>(key: F, hf: spec_fn(Seq<bool>) -> u64) -> bool {
    forall|v: &Vec<bool>, h: u64| #[trigger] key.ensures((v,), h) ==> h == hf(v@)
}

/// Pressing buttons, each one of `w`, turns the lights `root` into `s`.
pub open spec fn reachable(w: Seq<Vec<i32>>, root: Seq<bool>, s: Seq<bool>) -> bool {
    exists|q: Seq<usize>| (forall|i: int| 0 <= i < q.len() ==> q[i] < w.len()) && #[trigger] press_all(w, root, q) == s
}

/// `hf` tells apart any two light states that buttons of `w` reach from `root`.
pub open spec fn separates(hf: spec_fn(Seq<bool>) -> u64, w: Seq<Vec<i32>>, root: Seq<bool>) -> bool {
    forall|a: Seq<bool>, b: Seq<bool>| reachable(w, root, a) && reachable(w, root, b) && #[trigger] hf(a) == #[trigger] hf(b)
        ==> a == b
}

proof fn lemma_reachable_root(w: Seq<Vec<i32>>, root: Seq<bool>)
    ensures
        reachable(w, root, root),
{
    let q = Seq::<usize>::empty();
    assert(press_all(w, root, q) == root);
}

proof fn lemma_reachable_step(w: Seq<Vec<i32>>, root: Seq<bool>, s: Seq<bool>, i: usize)
    requires
        reachable(w, root, s),
        i < w.len(),
    ensures
        reachable(w, root, toggle(s, w[i as int]@)),
{
    let q = choose|q: Seq<usize>| (forall|k: int| 0 <= k < q.len() ==> q[k] < w.len()) && #[trigger] press_all(w, root, q) == s;
    lemma_press_all_push(w, root, q, i);
    let q2 = q.push(i);
    assert forall|k: int| 0 <= k < q2.len() implies q2[k] < w.len() by {
        if k < q.len() {
            assert(q2[k] == q[k]);
        }
    }
    assert(press_all(w, root, q2) == toggle(s, w[i as int]@));
}

/// What the search keyed by `hf` leaves, from the lights `current` after `depth`
/// presses, for the states reached from `root`: the lights one press away are
/// recorded with at most `depth + 1` presses; every state but the target whose record
/// improved has the states one press away recorded with at most one press more; a
/// returned sequence is no shorter than the target's record; and where the target
/// is reached from `root` and its record improved, a sequence comes back, as long as
/// that record.
pub open spec fn keyed_search(
    w: Seq<Vec<i32>>,
    tl: Seq<bool>,
    hf: spec_fn(Seq<bool>) -> u64,
    root: Seq<bool>,
    v0: Map<u64, usize>,
    v1: Map<u64, usize>,
    current: Seq<bool>,
    depth: nat,
    r: Option<Vec<usize>>,
) -> bool {
    &&& first_recorded(w, hf, v1, current, w.len() as int, depth + 1int)
    &&& forall|s: Seq<bool>| reachable(w, root, s) && s != tl && #[trigger] improved(v0, v1, hf(s))
        ==> closed_at(w, hf, v1, s)
    &&& r matches Some(s) ==> v1.contains_key(hf(tl)) && v1[hf(tl)] <= s@.len()
    &&& reachable(w, root, tl) && improved(v0, v1, hf(tl)) ==> (r matches Some(s) && s@.len() == v1[hf(tl)])
}

/// Every button pressed on the lights `s` leads to lights whose key is recorded in
/// `v` with at most one press more than the key of `s`.
pub open spec fn closed_at(w: Seq<Vec<i32>>, hf: spec_fn(Seq<bool>) -> u64, v: Map<u64, usize>, s: Seq<bool>) -> bool {
    forall|i: int| 0 <= i < w.len() ==> #[trigger] v.contains_key(hf(toggle(s, w[i]@)))
        && v[hf(toggle(s, w[i]@))] <= v[hf(s)] + 1
}

/// The lights one press of each of the first `i` buttons away from `cur` are
/// recorded in `v` with at most `d` presses.
pub open spec fn first_recorded(
    w: Seq<Vec<i32>>,
    hf: spec_fn(Seq<bool>) -> u64,
    v: Map<u64, usize>,
    cur: Seq<bool>,
    i: int,
    d: int,
) -> bool {
    forall|j: int| 0 <= j < i ==> #[trigger] v.contains_key(hf(toggle(cur, w[j]@)))
        && v[hf(toggle(cur, w[j]@))] <= d
}

proof fn lemma_closed_from_first(w: Seq<Vec<i32>>, hf: spec_fn(Seq<bool>) -> u64, v: Map<u64, usize>, cur: Seq<bool>, d: int)
    requires
        first_recorded(w, hf, v, cur, w.len() as int, d),
        v.contains_key(hf(cur)),
        d <= v[hf(cur)] + 1,
    ensures
        closed_at(w, hf, v, cur),
{
    assert forall|i: int| 0 <= i < w.len() implies #[trigger] v.contains_key(hf(toggle(cur, w[i]@)))
        && v[hf(toggle(cur, w[i]@))] <= v[hf(cur)] + 1 by {
        assert(v.contains_key(hf(toggle(cur, w[i]@))));
    }
}

proof fn lemma_first_recorded_step(
    w: Seq<Vec<i32>>,
    hf: spec_fn(Seq<bool>) -> u64,
    v: Map<u64, usize>,
    v2: Map<u64, usize>,
    cur: Seq<bool>,
    i: int,
    d: int,
)
    requires
        first_recorded(w, hf, v, cur, i, d),
        forall|x: u64| #[trigger] v.contains_key(x) ==> v2.contains_key(x) && v2[x] <= v[x],
        v2.contains_key(hf(toggle(cur, w[i]@))),
        v2[hf(toggle(cur, w[i]@))] <= d,
    ensures
        first_recorded(w, hf, v2, cur, i + 1, d),
{
    assert forall|j: int| 0 <= j < i + 1 implies #[trigger] v2.contains_key(hf(toggle(cur, w[j]@)))
        && v2[hf(toggle(cur, w[j]@))] <= d by {
        if j < i {
            assert(v.contains_key(hf(toggle(cur, w[j]@))));
        }
    }
}

/// `h` is recorded in `v`, and was not in `v0` or was with more presses.
pub open spec fn improved(v0: Map<u64, usize>, v: Map<u64, usize>, h: u64) -> bool {
    v.contains_key(h) && (!v0.contains_key(h) || v[h] < v0[h])
}

/// The keys recorded with at most `d` presses.
pub open spec fn settled(v: Map<u64, usize>, d: int) -> Set<u64> {
    Set::new(|h: u64| v.contains_key(h) && v[h] <= d)
}

/// The lights all off, `n` of them.
pub open spec fn all_off(n: nat) -> Seq<bool> {
    Seq::new(n, |i: int| false)
}

/// The std hash of the lights (`Hash` for `Vec<bool>` fed to a new `DefaultHasher`):
/// what `finish` gives for the bytes written. Which bytes `Hash` writes is not fixed
/// here (the length prefix is a native `usize`, so it differs between machines).
pub fn light_key(lights: &Vec<bool>) -> (r: u64)
    ensures
        exists|written: Seq<Seq<u8>>| r == DefaultHasher::spec_finish(written),
{
    let mut hasher = DefaultHasher::new();
    hash_lights(lights, &mut hasher);
    hasher.finish()
}

/// Whether `key`, called on counters, returns `hf` of them.
pub open spec fn counters_keyed_by<F: Fn(&Vec<i32>) -> u64>(key: F, hf: spec_fn(Seq<i32>) -> u64) -> bool {
    forall|v: &Vec<i32>, h: u64| #[trigger] key.ensures((v,), h) ==> h == hf(v@)
}

/// The std hash of the counters (`Hash` for `Vec<i32>` fed to a new `DefaultHasher`):
/// what `finish` gives for the bytes written. Which bytes `Hash` writes is not fixed
/// here (a native `usize` length prefix and native-endian counters).
pub fn counter_key(counters: &Vec<i32>) -> (r: u64)
    ensures
        exists|written: Seq<Seq<u8>>| r == DefaultHasher::spec_finish(written),
{
    let mut hasher = DefaultHasher::new();
    hash_counters(counters, &mut hasher);
    hasher.finish()
}

/// `n` lights, all off.
fn lights_off(n: usize) -> (r: Vec<bool>)
    ensures
        r@ == all_off(n as nat),
{
    let mut curr: Vec<bool> = Vec::new();
    let mut i: usize = 0;
    while i < n
        invariant
            i <= n,
            curr@ =~= Seq::new(i as nat, |k: int| false),
        decreases n - i,
    {
        curr.push(false);
        i = i + 1;
    }
    curr
}

/// `q` is a non-empty sequence of buttons that lights `target` from all lights off.
pub open spec fn lights_target(w: Seq<Vec<i32>>, target: Seq<bool>, q: Seq<usize>) -> bool {
    &&& q.len() > 0
    &&& forall|i: int| 0 <= i < q.len() ==> q[i] < w.len()
    &&& press_all(w, all_off(target.len()), q) == target
}

/// Some function of the lights that tells apart any two light states that buttons of
/// `w` reach from `root` is what `key` computes.
pub open spec fn keys_apart<F: Fn(&Vec<bool>) -> u64>(key: F, w: Seq<Vec<i32>>, root: Seq<bool>) -> bool {
    exists|hf: spec_fn(Seq<bool>) -> u64| keyed_by(key, hf) && separates(hf, w, root)
}

/// `r` is a shortest non-empty button sequence that lights `target` from all lights
/// off, or empty exactly when there is none.
pub open spec fn shortest_lights(w: Seq<Vec<i32>>, target: Seq<bool>, r: Seq<usize>) -> bool {
    &&& r.len() > 0 <==> exists|q: Seq<usize>| lights_target(w, target, q)
    &&& forall|q: Seq<usize>| lights_target(w, target, q) ==> r.len() <= q.len()
}

proof fn lemma_u64_set_len(s: Set<u64>)
    requires
        s.finite(),
    ensures
        s.len() <= 0x1_0000_0000_0000_0000,
{
    let f = |x: u64| x as int;
    let si = s.map(f);
    assert(vstd::relations::injective_on(f, s));
    vstd::set_lib::lemma_map_size(s, si, f);
    let full = vstd::set_lib::set_int_range(0, 0x1_0000_0000_0000_0000);
    vstd::set_lib::lemma_int_range(0, 0x1_0000_0000_0000_0000);
    assert(si.subset_of(full)) by {
        assert forall|v: int| si.contains(v) implies full.contains(v) by {
            let x = choose|x: u64| s.contains(x) && f(x) == v;
        }
    }
    vstd::set_lib::lemma_len_subset(si, full);
}

/// Recording `h` with at most `k + 1` presses, in a vault that only improved on
/// `v0`, grows the keys settled within one press more.
proof fn lemma_settled_grows(v0: Map<u64, usize>, v: Map<u64, usize>, k: int, h: u64)
    requires
        v.dom().finite(),
        forall|x: u64| #[trigger] v0.contains_key(x) ==> v.contains_key(x) && v[x] <= v0[x],
        v.contains_key(h),
        v[h] <= k + 1,
        !(v0.contains_key(h) && v0[h] <= k),
    ensures
        settled(v0, k).len() < settled(v, k + 1).len(),
        settled(v, k + 1).len() <= 0x1_0000_0000_0000_0000,
{
    let a = settled(v0, k);
    let b = settled(v, k + 1);
    vstd::set_lib::lemma_len_subset(b, v.dom());
    assert(a.subset_of(b.remove(h)));
    vstd::set_lib::lemma_len_subset(a, b.remove(h));
    lemma_u64_set_len(b);
}

proof fn lemma_closed_lower(
    w: Seq<Vec<i32>>,
    hf: spec_fn(Seq<bool>) -> u64,
    v: Map<u64, usize>,
    v2: Map<u64, usize>,
    s: Seq<bool>,
)
    requires
        closed_at(w, hf, v, s),
        forall|x: u64| #[trigger] v.contains_key(x) ==> v2.contains_key(x) && v2[x] <= v[x],
        v2[hf(s)] == v[hf(s)],
    ensures
        closed_at(w, hf, v2, s),
{
    assert forall|i: int| 0 <= i < w.len() implies #[trigger] v2.contains_key(hf(toggle(s, w[i]@)))
        && v2[hf(toggle(s, w[i]@))] <= v2[hf(s)] + 1 by {
        assert(v.contains_key(hf(toggle(s, w[i]@))));
    }
}

proof fn lemma_press_all_len(w: Seq<Vec<i32>>, cur: Seq<bool>, steps: Seq<usize>)
    requires
        wires_in_range(w, cur.len() as int),
        forall|i: int| 0 <= i < steps.len() ==> steps[i] < w.len(),
    ensures
        press_all(w, cur, steps).len() == cur.len(),
    decreases steps.len(),
{
    if steps.len() > 0 {
        lemma_press_all_len(w, cur, steps.drop_last());
        let b = steps.last() as int;
        assert forall|k: int| 0 <= k < w[b]@.len() implies 0 <= #[trigger] w[b]@[k] < press_all(w, cur, steps.drop_last()).len() by {}
        lemma_toggle_len(press_all(w, cur, steps.drop_last()), w[b]@);
    }
}

/// Along a sequence of presses from all lights off, in a vault where the first
/// presses are recorded with one press and every recorded state but the target is
/// closed, the target is recorded with fewer than `j` presses or the state after
/// `j` presses with at most `j`.
proof fn lemma_path_recorded(
    w: Seq<Vec<i32>>,
    hf: spec_fn(Seq<bool>) -> u64,
    v: Map<u64, usize>,
    target: Seq<bool>,
    q: Seq<usize>,
    j: int,
)
    requires
        wires_in_range(w, target.len() as int),
        forall|i: int| 0 <= i < q.len() ==> q[i] < w.len(),
        1 <= j <= q.len(),
        forall|i: int| 0 <= i < w.len() ==> #[trigger] v.contains_key(hf(toggle(all_off(target.len()), w[i]@)))
            && v[hf(toggle(all_off(target.len()), w[i]@))] <= 1,
        forall|s: Seq<bool>| reachable(w, all_off(target.len()), s) && s != target && #[trigger] v.contains_key(hf(s))
            ==> closed_at(w, hf, v, s),
    ensures
        (v.contains_key(hf(target)) && v[hf(target)] < j) || (v.contains_key(hf(press_all(w, all_off(target.len()), q.take(j))))
            && v[hf(press_all(w, all_off(target.len()), q.take(j)))] <= j),
    decreases j,
{
    let start = all_off(target.len());
    if j == 1 {
        assert(q.take(1).drop_last() =~= Seq::<usize>::empty());
        assert(q.take(1).last() == q[0]);
        assert(press_all(w, start, Seq::<usize>::empty()) == start);
        assert(press_all(w, start, q.take(1)) == toggle(press_all(w, start, q.take(1).drop_last()),
            w[q.take(1).last() as int]@));
        assert(press_all(w, start, q.take(1)) == toggle(start, w[q[0] as int]@));
        assert(v.contains_key(hf(toggle(start, w[q[0] as int]@))));
    } else {
        lemma_path_recorded(w, hf, v, target, q, j - 1);
        let sp = press_all(w, start, q.take(j - 1));
        assert(q.take(j).drop_last() =~= q.take(j - 1));
        assert(q.take(j).last() == q[j - 1]);
        assert(press_all(w, start, q.take(j)) == toggle(sp, w[q[j - 1] as int]@));
        if !(v.contains_key(hf(target)) && v[hf(target)] < j - 1) && sp != target {
            lemma_press_all_len(w, start, q.take(j - 1));
            let p = q.take(j - 1);
            assert forall|k: int| 0 <= k < p.len() implies p[k] < w.len() by {
                assert(p[k] == q[k]);
            }
            assert(reachable(w, start, sp));
            assert(closed_at(w, hf, v, sp));
            assert(v.contains_key(hf(toggle(sp, w[q[j - 1] as int]@))));
        }
    }
}

impl Button {
    /// Depth-first search, from the lights `current` after the presses `old_steps`,
    /// for button presses that light the target: lights whose key (`key` of them)
    /// is recorded with no more presses are skipped, others are recorded with their
    /// number of presses. Returns the shortest sequence found (the first such),
    /// extending `old_steps`.
    ///
    /// Where `key` computes `hf`, `hf` tells apart the light states the buttons reach
    /// from `root`, and `current` is one of them, what it leaves is `keyed_search`.
    #[verifier::spinoff_prover]
    pub fn search_leds<F: Fn(&Vec<bool>) -> u64>(
        &mut self,
        current: Vec<bool>,
        old_steps: Vec<usize>,
        key: &F,
        Ghost(hf): Ghost<spec_fn(Seq<bool>) -> u64>,
        Ghost(root): Ghost<Seq<bool>>,
    ) -> (r: Option<Vec<usize>>)
        requires
            wires_in_range(old(self).wirings@, old(self).target_leds@.len() as int),
            current@.len() == old(self).target_leds@.len(),
            forall|v: &Vec<bool>| #[trigger] key.requires((v,)),
        ensures
            final(self).wirings@ == old(self).wirings@,
            final(self).target_leds@ == old(self).target_leds@,
            final(self).joltage@ == old(self).joltage@,
            forall|k: u64| #[trigger] old(self).hash_vault@.contains_key(k) ==> final(self).hash_vault@.contains_key(k)
                && final(self).hash_vault@[k] <= old(self).hash_vault@[k],
            forall|k: u64| #[trigger] final(self).hash_vault@.contains_key(k) ==> (old(self).hash_vault@.contains_key(k)
                && final(self).hash_vault@[k] == old(self).hash_vault@[k]) || final(self).hash_vault@[k] > old_steps@.len(),
            old(self).wirings@.len() > 0 ==> exists|h: u64| #[trigger] final(self).hash_vault@.contains_key(h)
                && final(self).hash_vault@[h] <= old_steps@.len() + 1,
            (old(self).wirings@.len() > 0 && toggle(current@, old(self).wirings@[0]@) == old(self).target_leds@
                && forall|k: u64| #[trigger] old(self).hash_vault@.contains_key(k) ==> old(self).hash_vault@[k]
                > old_steps@.len() + 1) ==> (r matches Some(s) && s@ == old_steps@.push(0)),
            r matches Some(s) ==> {
                &&& s@.len() > old_steps@.len()
                &&& s@.take(old_steps@.len() as int) == old_steps@
                &&& forall|i: int| old_steps@.len() <= i < s@.len() ==> s@[i] < old(self).wirings@.len()
                &&& press_all(old(self).wirings@, current@, s@.skip(old_steps@.len() as int)) == old(self).target_leds@
            },
            keyed_by(*key, hf) && separates(hf, old(self).wirings@, root) && reachable(old(self).wirings@, root, current@)
                ==> keyed_search(old(self).wirings@, old(self).target_leds@, hf, root, old(self).hash_vault@,
                final(self).hash_vault@, current@, old_steps@.len(), r),
        decreases 0x1_0000_0000_0000_0000 - settled(old(self).hash_vault@, old_steps@.len() as int).len(),
    {
        let ghost w = self.wirings@;
        let ghost tl = self.target_leds@;
        let ghost jv = self.joltage@;
        let ghost vault0 = self.hash_vault@;
        let ghost depth = old_steps@.len();
        let ghost exact = keyed_by(*key, hf) && separates(hf, w, root) && reachable(w, root, current@);
        let m = self.wirings.len();
        let ghost first = m > 0 && toggle(current@, w[0]@) == tl && forall|k: u64| #[trigger] vault0.contains_key(k)
            ==> vault0[k] > depth + 1;
        let mut best: Option<Vec<usize>> = None;
        let mut i: usize = 0;
        while i < m
            invariant
                i <= m,
                m == w.len(),
                self.wirings@ == w,
                self.target_leds@ == tl,
                self.joltage@ == jv,
                wires_in_range(w, tl.len() as int),
                current@.len() == tl.len(),
                depth == old_steps@.len(),
                vault0 == old(self).hash_vault@,
                forall|v: &Vec<bool>| #[trigger] key.requires((v,)),
                exact == (keyed_by(*key, hf) && separates(hf, w, root) && reachable(w, root, current@)),
                forall|k: u64| #[trigger] vault0.contains_key(k) ==> self.hash_vault@.contains_key(k)
                    && self.hash_vault@[k] <= vault0[k],
                i == 0 ==> self.hash_vault@ == vault0 && best is None,
                forall|k: u64| #[trigger] self.hash_vault@.contains_key(k) ==> (vault0.contains_key(k)
                    && self.hash_vault@[k] == vault0[k]) || self.hash_vault@[k] > depth,
                i > 0 ==> exists|h: u64| #[trigger] self.hash_vault@.contains_key(h) && self.hash_vault@[h] <= depth + 1,
                first == (m > 0 && toggle(current@, w[0]@) == tl && forall|k: u64| #[trigger] vault0.contains_key(k)
                    ==> vault0[k] > depth + 1),
                first && i > 0 ==> (best matches Some(b) && b@ == old_steps@.push(0)),
                best matches Some(s) ==> {
                    &&& s@.len() > old_steps@.len()
                    &&& s@.take(old_steps@.len() as int) == old_steps@
                    &&& forall|q: int| old_steps@.len() <= q < s@.len() ==> s@[q] < m
                    &&& press_all(w, current@, s@.skip(old_steps@.len() as int)) == tl
                },
                exact ==> first_recorded(w, hf, self.hash_vault@, current@, i as int, depth + 1int),
                exact ==> forall|s: Seq<bool>| reachable(w, root, s) && s != tl
                    && #[trigger] improved(vault0, self.hash_vault@, hf(s)) ==> closed_at(w, hf, self.hash_vault@, s),
                exact ==> (best matches Some(b) ==> self.hash_vault@.contains_key(hf(tl))
                    && self.hash_vault@[hf(tl)] <= b@.len()),
                exact ==> (reachable(w, root, tl) && improved(vault0, self.hash_vault@, hf(tl)) ==> (best matches Some(b)
                    && b@.len() == self.hash_vault@[hf(tl)])),
            decreases m - i,
        {
            let mut steps = copy_indices(&old_steps);
            steps.push(i);
            let mut curr = copy_bools(&current);
            proof {
                assert forall|k: int| 0 <= k < w[i as int]@.len() implies 0 <= #[trigger] w[i as int]@[k] < curr@.len() by {}
            }
            apply_wiring(&mut curr, &self.wirings[i]);
            proof {
                assert forall|k: int| 0 <= k < w[i as int]@.len() implies 0 <= #[trigger] w[i as int]@[k] < current@.len() by {}
                lemma_toggle_len(current@, w[i as int]@);
            }
            let ghost cv = curr@;
            let hash = key(&curr);
            proof {
                if exact {
                    assert(hash == hf(cv));
                    lemma_reachable_step(w, root, current@, i);
                    assert(reachable(w, root, cv));
                }
            }
            let known = self.hash_vault.get(&hash);
            let skip = match known {
                Some(best_len) => *best_len <= steps.len(),
                None => false,
            };
            proof {
                if known is Some {
                    assert(self.hash_vault@.contains_key(hash));
                    assert(*known->0 == self.hash_vault@[hash]);
                }
                if i == 0 && first {
                    assert(!skip);
                }
                assert(steps@.len() == depth + 1);
                if skip && exact {
                    assert(cv == toggle(current@, w[i as int]@));
                    assert(self.hash_vault@.contains_key(hf(toggle(current@, w[i as int]@))));
                    assert(self.hash_vault@[hf(toggle(current@, w[i as int]@))] <= depth + 1);
                }
            }
            if skip {
                proof {
                    if exact {
                        lemma_first_recorded_step(w, hf, self.hash_vault@, self.hash_vault@, current@, i as int, depth + 1int);
                    }
                }
                i = i + 1;
                continue;
            }
            let ghost before = self.hash_vault@;
            proof {
                if before.contains_key(hash) {
                    assert(known == Some(&before[hash]));
                    assert(before[hash] > steps@.len());
                }
            }
            self.hash_vault.insert(hash, steps.len());
            let ghost after_insert = self.hash_vault@;
            proof {
                assert forall|k: u64| #[trigger] vault0.contains_key(k) implies after_insert.contains_key(k)
                    && after_insert[k] <= vault0[k] by {
                    assert(before.contains_key(k) && before[k] <= vault0[k]);
                }
                assert forall|k: u64| #[trigger] after_insert.contains_key(k) implies (vault0.contains_key(k)
                    && after_insert[k] == vault0[k]) || after_insert[k] > depth by {
                    if k != hash {
                        assert(before.contains_key(k));
                    }
                }
                assert(after_insert.contains_key(hash) && after_insert[hash] <= depth + 1);
            }
            let ghost seg = seq![i];
            proof {
                assert(steps@ == old_steps@.push(i));
                assert(steps@.skip(depth as int) =~= seg);
            }
            if same_bools(&curr, &self.target_leds) {
                proof {
                    lemma_press_all_push(w, current@, Seq::<usize>::empty(), i);
                    assert(Seq::<usize>::empty().push(i) =~= seg);
                    assert(steps@.take(depth as int) =~= old_steps@);
                }
                let c = copy_indices(&steps);
                let better = match &best {
                    Some(b) => c.len() < b.len(),
                    None => true,
                };
                proof {
                    if exact {
                        if best is Some {
                            assert(before.contains_key(hf(tl)));
                            assert(better);
                        }
                    }
                }
                if better {
                    best = Some(c);
                }
                proof {
                    if exact {
                        let v2 = self.hash_vault@;
                        assert forall|s: Seq<bool>| reachable(w, root, s) && s != tl
                            && #[trigger] improved(vault0, v2, hf(s)) implies closed_at(w, hf, v2, s) by {
                            if hf(s) == hash {
                                assert(s == cv);
                            } else {
                                assert(improved(vault0, before, hf(s)));
                                lemma_closed_lower(w, hf, before, v2, s);
                            }
                        }
                    }
                }
            } else {
                let steps2 = copy_indices(&steps);
                proof {
                    assert(self.hash_vault@.dom().finite());
                    lemma_settled_grows(vault0, after_insert, depth as int, hash);
                    assert(steps2@.len() == depth + 1);
                    assert(settled(self.hash_vault@, steps2@.len() as int).len() > settled(vault0, depth as int).len());
                }
                let res = self.search_leds(curr, steps2, key, Ghost(hf), Ghost(root));
                let ghost v2 = self.hash_vault@;
                proof {
                    if let Some(ref rs) = res {
                        let tail = rs@.skip(steps@.len() as int);
                        assert(rs@.skip(depth as int) =~= seq![i] + tail);
                        lemma_press_all_prepend(w, current@, i, tail);
                        assert(rs@.take(depth as int) =~= rs@.take(steps@.len() as int).take(depth as int));
                        assert(steps@.take(depth as int) =~= old_steps@);
                        assert forall|q: int| depth <= q < rs@.len() implies rs@[q] < m by {
                            if q == depth {
                                assert(rs@.take(steps@.len() as int)[q] == rs@[q]);
                            }
                        }
                    }
                    if exact && best is Some && res is Some && reachable(w, root, tl) {
                        if improved(after_insert, v2, hf(tl)) {
                            assert(hf(tl) != hash);
                        }
                    }
                }
                match res {
                    Some(c) => {
                        let better = match &best {
                            Some(b) => c.len() < b.len(),
                            None => true,
                        };
                        if better {
                            best = Some(c);
                        }
                    },
                    None => {},
                }
                proof {
                    if exact {
                        assert forall|x: u64| #[trigger] before.contains_key(x) implies v2.contains_key(x)
                            && v2[x] <= before[x] by {
                            assert(after_insert.contains_key(x));
                        }
                        assert forall|s: Seq<bool>| reachable(w, root, s) && s != tl
                            && #[trigger] improved(vault0, v2, hf(s)) implies closed_at(w, hf, v2, s) by {
                            if improved(after_insert, v2, hf(s)) {
                                assert(keyed_search(w, tl, hf, root, after_insert, v2, cv, steps@.len(), res));
                                assert(closed_at(w, hf, v2, s));
                            } else {
                                if hf(s) == hash {
                                    assert(s == cv);
                                    assert(keyed_search(w, tl, hf, root, after_insert, v2, cv, steps@.len(), res));
                                    assert(v2.contains_key(hash) && v2[hash] <= after_insert[hash]);
                                    lemma_closed_from_first(w, hf, v2, cv, depth + 2int);
                                } else {
                                    assert(improved(vault0, before, hf(s)));
                                    lemma_closed_lower(w, hf, before, v2, s);
                                }
                            }
                        }
                    }
                }
            }
            proof {
                let v2 = self.hash_vault@;
                assert forall|k: u64| #[trigger] vault0.contains_key(k) implies v2.contains_key(k)
                    && v2[k] <= vault0[k] by {
                    assert(after_insert.contains_key(k));
                }
                assert forall|k: u64| #[trigger] v2.contains_key(k) implies (vault0.contains_key(k)
                    && v2[k] == vault0[k]) || v2[k] > depth by {
                    if !(after_insert.contains_key(k) && v2[k] == after_insert[k]) {
                        assert(v2[k] > depth + 1);
                    }
                }
                assert(v2.contains_key(hash) && v2[hash] <= depth + 1);
                if exact {
                    assert(hash == hf(toggle(current@, w[i as int]@)));
                    assert forall|x: u64| #[trigger] before.contains_key(x) implies v2.contains_key(x)
                        && v2[x] <= before[x] by {
                        assert(after_insert.contains_key(x));
                    }
                    lemma_first_recorded_step(w, hf, before, v2, current@, i as int, depth + 1int);
                }
            }
            i = i + 1;
        }
        best
    }

    /// Depth-first search for button presses that turn `current` into the target
    /// lights, skipping states already reached in as few presses (by the hash of
    /// the lights). Returns the shortest sequence found (the first such), extending
    /// `old_steps`. Where the std hash tells apart the light states the buttons reach
    /// from `current`, what it leaves is `keyed_search` for that hash.
    pub fn _solve_leds(&mut self, current: Vec<bool>, old_steps: Vec<usize>) -> (r: Option<Vec<usize>>)
        requires
            wires_in_range(old(self).wirings@, old(self).target_leds@.len() as int),
            current@.len() == old(self).target_leds@.len(),
        ensures
            final(self).wirings@ == old(self).wirings@,
            final(self).target_leds@ == old(self).target_leds@,
            final(self).joltage@ == old(self).joltage@,
            forall|k: u64| #[trigger] old(self).hash_vault@.contains_key(k) ==> final(self).hash_vault@.contains_key(k)
                && final(self).hash_vault@[k] <= old(self).hash_vault@[k],
            forall|k: u64| #[trigger] final(self).hash_vault@.contains_key(k) ==> (old(self).hash_vault@.contains_key(k)
                && final(self).hash_vault@[k] == old(self).hash_vault@[k]) || final(self).hash_vault@[k] > old_steps@.len(),
            old(self).wirings@.len() > 0 ==> exists|h: u64| #[trigger] final(self).hash_vault@.contains_key(h)
                && final(self).hash_vault@[h] <= old_steps@.len() + 1,
            (old(self).wirings@.len() > 0 && toggle(current@, old(self).wirings@[0]@) == old(self).target_leds@
                && forall|k: u64| #[trigger] old(self).hash_vault@.contains_key(k) ==> old(self).hash_vault@[k]
                > old_steps@.len() + 1) ==> (r matches Some(s) && s@ == old_steps@.push(0)),
            r matches Some(s) ==> {
                &&& s@.len() > old_steps@.len()
                &&& s@.take(old_steps@.len() as int) == old_steps@
                &&& forall|i: int| old_steps@.len() <= i < s@.len() ==> s@[i] < old(self).wirings@.len()
                &&& press_all(old(self).wirings@, current@, s@.skip(old_steps@.len() as int)) == old(self).target_leds@
            },
            keys_apart(light_key, old(self).wirings@, current@) ==> exists|hf: spec_fn(Seq<bool>) -> u64|
                #[trigger] keyed_by(light_key, hf) && separates(hf, old(self).wirings@, current@) && keyed_search(
                old(self).wirings@,
                old(self).target_leds@,
                hf,
                current@,
                old(self).hash_vault@,
                final(self).hash_vault@,
                current@,
                old_steps@.len(),
                r,
            ),
    {
        let ghost w = self.wirings@;
        let ghost hf = choose|hf: spec_fn(Seq<bool>) -> u64| keyed_by(light_key, hf) && separates(hf, w, current@);
        proof {
            lemma_reachable_root(w, current@);
        }
        self.search_leds(current, old_steps, &light_key, Ghost(hf), Ghost(current@))
    }

    /// Shortest button sequence (found by the search) that lights the target
    /// pattern from all lights off; empty where none is found. Where the std hash
    /// tells apart the light states the buttons reach and the vault starts empty, it
    /// is a shortest one, and empty exactly when no sequence lights the target.
    pub fn solve_leds(&mut self) -> (r: Vec<usize>)
        requires
            wires_in_range(old(self).wirings@, old(self).target_leds@.len() as int),
        ensures
            final(self).wirings@ == old(self).wirings@,
            final(self).target_leds@ == old(self).target_leds@,
            final(self).joltage@ == old(self).joltage@,
            r@.len() > 0 ==> lights_target(old(self).wirings@, old(self).target_leds@, r@),
            forall|k: u64| #[trigger] old(self).hash_vault@.contains_key(k) ==> final(self).hash_vault@.contains_key(k)
                && final(self).hash_vault@[k] <= old(self).hash_vault@[k],
            old(self).wirings@.len() > 0 ==> exists|h: u64| #[trigger] final(self).hash_vault@.contains_key(h)
                && final(self).hash_vault@[h] <= 1,
            (old(self).wirings@.len() > 0 && toggle(all_off(old(self).target_leds@.len()),
                old(self).wirings@[0]@) == old(self).target_leds@ && forall|k: u64| #[trigger] old(
                self,
            ).hash_vault@.contains_key(k) ==> old(self).hash_vault@[k] > 1) ==> r@ == seq![0usize],
            (old(self).hash_vault@.is_empty() && keys_apart(light_key, old(self).wirings@, all_off(
                old(self).target_leds@.len(),
            ))) 
                ==> shortest_lights(old(self).wirings@, old(self).target_leds@, r@),
    {
        self.solve_leds_keyed(&light_key)
    }

    /// The light search of `solve_leds` with the states keyed by `key`: where `key`
    /// computes a function of the lights that tells apart the light states the
    /// buttons reach, and the vault starts empty, the result is a shortest non-empty
    /// button sequence that lights the target, or empty exactly when there is none.
    pub fn solve_leds_keyed<F: Fn(&Vec<bool>) -> u64>(&mut self, key: &F) -> (r: Vec<usize>)
        requires
            wires_in_range(old(self).wirings@, old(self).target_leds@.len() as int),
            forall|v: &Vec<bool>| #[trigger] key.requires((v,)),
        ensures
            final(self).wirings@ == old(self).wirings@,
            final(self).target_leds@ == old(self).target_leds@,
            final(self).joltage@ == old(self).joltage@,
            r@.len() > 0 ==> lights_target(old(self).wirings@, old(self).target_leds@, r@),
            forall|k: u64| #[trigger] old(self).hash_vault@.contains_key(k) ==> final(self).hash_vault@.contains_key(k)
                && final(self).hash_vault@[k] <= old(self).hash_vault@[k],
            old(self).wirings@.len() > 0 ==> exists|h: u64| #[trigger] final(self).hash_vault@.contains_key(h)
                && final(self).hash_vault@[h] <= 1,
            (old(self).wirings@.len() > 0 && toggle(all_off(old(self).target_leds@.len()),
                old(self).wirings@[0]@) == old(self).target_leds@ && forall|k: u64| #[trigger] old(
                self,
            ).hash_vault@.contains_key(k) ==> old(self).hash_vault@[k] > 1) ==> r@ == seq![0usize],
            (old(self).hash_vault@.is_empty() && keys_apart(*key, old(self).wirings@, all_off(
                old(self).target_leds@.len(),
            ))) 
                ==> shortest_lights(old(self).wirings@, old(self).target_leds@, r@),
    {
        let ghost w = self.wirings@;
        let ghost tl = self.target_leds@;
        let ghost start = all_off(tl.len());
        let ghost exact = old(self).hash_vault@.is_empty() && exists|hf: spec_fn(Seq<bool>) -> u64| keyed_by(*key, hf)
            && separates(hf, w, start);
        let ghost hf = choose|hf: spec_fn(Seq<bool>) -> u64| keyed_by(*key, hf) && separates(hf, w, start);
        let curr = lights_off(self.target_leds.len());
        proof {
            lemma_reachable_root(w, start);
        }
        let res = self.search_leds(curr, Vec::new(), key, Ghost(hf), Ghost(start));
        let ghost v = self.hash_vault@;
        proof {
            if exact {
                assert forall|q: Seq<usize>| lights_target(w, tl, q) implies v.contains_key(hf(tl)) && v[hf(tl)] <= q.len() by {
                    assert forall|s: Seq<bool>| reachable(w, start, s) && s != tl && #[trigger] v.contains_key(hf(s))
                        implies closed_at(w, hf, v, s) by {
                        assert(improved(old(self).hash_vault@, v, hf(s)));
                    }
                    lemma_path_recorded(w, hf, v, tl, q, q.len() as int);
                    lemma_take_full(q);
                }
            }
        }
        match res {
            Some(result) => {
                proof {
                    assert(result@.skip(0) =~= result@);
                    assert(Seq::<usize>::empty().push(0) =~= seq![0usize]);
                    if exact {
                        assert(lights_target(w, tl, result@));
                    }
                }
                result
            },
            None => {
                proof {
                    if exact {
                        assert forall|q: Seq<usize>| !lights_target(w, tl, q) by {
                            if lights_target(w, tl, q) {
                                assert(press_all(w, start, q) == tl);
                                assert(reachable(w, start, tl));
                                assert(improved(old(self).hash_vault@, v, hf(tl)));
                            }
                        }
                    }
                }
                Vec::new()
            },
        }
    }

    /// One step of the breadth search over counter states, given the key the counters
    /// are recorded under and the presses made so far: rejects the state (-1) when the
    /// key was reached before in no more presses or some counter overshoots its target;
    /// otherwise records the key with `presses` and answers 1 at the target, else 0.
    pub fn check_joltage_keyed(
        current: &Vec<i32>,
        joltage: &Vec<i32>,
        hash_vault: &mut HashMap<u64, usize>,
        key: u64,
        presses: usize,
    ) -> (r: i32)
        ensures
            joltage_step(old(hash_vault)@, final(hash_vault)@, r, key, presses, current@, joltage@),
    {
        if let Some(best_len) = hash_vault.get(&key) {
            if *best_len <= presses {
                return -1;
            }
        }
        if Self::quick_check(current, joltage) {
            return -1;
        }
        hash_vault.insert(key, presses);
        if same_vec(current, joltage) {
            1
        } else {
            0
        }
    }

    /// One step of the breadth search over counter states: rejects a state that was
    /// reached before in no more presses (by its hash), or that overshoots the
    /// target (-1); otherwise records it and answers 1 at the target, else 0. The key
    /// is the std hash of `current` (`counter_key`); where that hash is a function of
    /// the counters, the step is `joltage_step` for that function of `current`.
    pub fn check_joltage_static(
        current: &Vec<i32>,
        steps: &mut Vec<i32>,
        joltage: &Vec<i32>,
        hash_vault: &mut HashMap<u64, usize>,
    ) -> (r: i32)
        requires
            forall|k: int| 0 <= k <= old(steps)@.len() ==> i32::MIN <= #[trigger] seq_sum(ints(old(steps)@.take(k))) <= i32::MAX,
        ensures
            final(steps)@ == old(steps)@,
            exists|h: u64| #[trigger] joltage_step(old(hash_vault)@, final(hash_vault)@, r, h,
                (seq_sum(ints(old(steps)@)) as usize), current@, joltage@),
            forall|hf: spec_fn(Seq<i32>) -> u64| #[trigger] counters_keyed_by(counter_key, hf) ==> joltage_step(
                old(hash_vault)@,
                final(hash_vault)@,
                r,
                hf(current@),
                (seq_sum(ints(old(steps)@)) as usize),
                current@,
                joltage@,
            ),
            (!exceeds(current@, joltage@) && forall|k: u64| #[trigger] old(hash_vault)@.contains_key(k)
                ==> old(hash_vault)@[k] > (seq_sum(ints(old(steps)@)) as usize)) ==> r != -1,
            r == -1 || r == 0 || r == 1,
            exceeds(current@, joltage@) ==> r == -1,
            r == -1 ==> final(hash_vault)@ == old(hash_vault)@,
            (r == 1) == (r != -1 && current@ == joltage@),
    {
        let hash = counter_key(current);
        let mut total: i32 = 0;
        let mut k: usize = 0;
        while k < steps.len()
            invariant
                k <= steps@.len(),
                forall|q: int| 0 <= q <= steps@.len() ==> i32::MIN <= #[trigger] seq_sum(ints(steps@.take(q))) <= i32::MAX,
                total == seq_sum(ints(steps@.take(k as int))),
            decreases steps.len() - k,
        {
            proof {
                assert(ints(steps@.take(k + 1)).drop_last() =~= ints(steps@.take(k as int)));
                assert(ints(steps@.take(k + 1)).last() == steps@[k as int]);
                assert(i32::MIN <= seq_sum(ints(steps@.take(k + 1))) <= i32::MAX);
            }
            total = total + steps[k];
            k = k + 1;
        }
        proof {
            lemma_take_full(steps@);
        }
        let sum = total as usize;
        let r = Self::check_joltage_keyed(current, joltage, hash_vault, hash, sum);
        proof {
            if !exceeds(current@, joltage@) && forall|k: u64| #[trigger] old(hash_vault)@.contains_key(k)
                ==> old(hash_vault)@[k] > sum {
                assert(!(old(hash_vault)@.contains_key(hash) && old(hash_vault)@[hash] <= sum));
            }
        }
        r
    }
}

/// What a worker of the counter search does with a state after its check.
#[derive(PartialEq, Eq, Debug, Clone, Copy)]
pub enum JoltageAction {
    /// The state was rejected: take the next one.
    Skip,
    /// The state is the target: report it and stop.
    Hit,
    /// Another worker already found the target: stop.
    Stop,
    /// Queue the states one press away.
    Expand,
}

/// The decision of a worker of the counter search, from the answer of
/// `check_joltage_static` for a state and whether a hit was already reported.
pub fn joltage_action(check: i32, found: bool) -> (r: JoltageAction)
    ensures
        check < 0 ==> r == JoltageAction::Skip,
        check == 1 ==> r == JoltageAction::Hit,
        check >= 0 && check != 1 ==> r == (if found {
            JoltageAction::Stop
        } else {
            JoltageAction::Expand
        }),
{
    if check < 0 {
        JoltageAction::Skip
    } else if check == 1 {
        JoltageAction::Hit
    } else if found {
        JoltageAction::Stop
    } else {
        JoltageAction::Expand
    }
}

/// What one step of the counter search does, for counters recorded under `key` after
/// `presses` presses: `r` is -1 exactly when the key is known with no more presses
/// or a counter overshoots, and the vault is then unchanged; otherwise the key is
/// recorded with `presses` and `r` is 1 at the target, else 0.
pub open spec fn joltage_step(
    old_vault: Map<u64, usize>,
    new_vault: Map<u64, usize>,
    r: i32,
    key: u64,
    presses: usize,
    current: Seq<i32>,
    joltage: Seq<i32>,
) -> bool {
    let rejected = (old_vault.contains_key(key) && old_vault[key] <= presses) || exceeds(current, joltage);
    &&& (r == -1) == rejected
    &&& rejected ==> new_vault == old_vault
    &&& !rejected ==> new_vault == old_vault.insert(key, presses) && r == (if current == joltage { 1i32 } else { 0i32 })
}


} // verus!
