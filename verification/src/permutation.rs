//! Permutations of agent indices.
use vstd::prelude::*;

verus! {

/// `v` occurs somewhere in `s`.
pub open spec fn occurs(s: Seq<usize>, v: int) -> bool {
    exists|i: int| 0 <= i < s.len() && s[i] as int == v
}

/// `s` is a bijection of `0..s.len()` onto itself: every entry is in range,
/// no entry repeats, and every index value occurs.
pub open spec fn is_permutation(s: Seq<usize>) -> bool {
    &&& forall|i: int| 0 <= i < s.len() ==> (#[trigger] s[i]) < s.len()
    &&& forall|i: int, j: int| 0 <= i < s.len() && 0 <= j < s.len() && i != j ==> #[trigger] s[i] != #[trigger] s[j]
    &&& forall|v: int| 0 <= v < s.len() ==> #[trigger] occurs(s, v)
}

/// The identity arrangement `[0, 1, ..., n-1]`.
pub open spec fn identity_seq(n: nat) -> Seq<usize> {
    Seq::new(n, |i: int| i as usize)
}

/// Composition `(p ∘ q)[k] = p[q[k]]`: apply `q` first, then `p`.
pub open spec fn compose_seq(p: Seq<usize>, q: Seq<usize>) -> Seq<usize> {
    Seq::new(q.len(), |k: int| p[q[k] as int])
}

/// The identity arrangement is a permutation.
pub proof fn lemma_identity_is_permutation(n: nat)
    requires
        n <= usize::MAX,
    ensures
        is_permutation(identity_seq(n)),
{
    let s = identity_seq(n);
    assert forall|v: int| 0 <= v < s.len() implies #[trigger] occurs(s, v) by {
        assert(s[v] as int == v);
    }
}

/// Law: the composition of two permutations of the same size is a permutation.
pub proof fn lemma_compose_is_permutation(p: Seq<usize>, q: Seq<usize>)
    requires
        is_permutation(p),
        is_permutation(q),
        p.len() == q.len(),
    ensures
        is_permutation(compose_seq(p, q)),
{
    let c = compose_seq(p, q);
    assert forall|i: int, j: int| 0 <= i < c.len() && 0 <= j < c.len() && i != j implies #[trigger] c[i] != #[trigger] c[j] by {
        assert(q[i] != q[j]);
    }
    assert forall|v: int| 0 <= v < c.len() implies #[trigger] occurs(c, v) by {
        assert(occurs(p, v));
        let m = choose|m: int| 0 <= m < p.len() && p[m] as int == v;
        assert(occurs(q, m));
        let k = choose|k: int| 0 <= k < q.len() && q[k] as int == m;
        assert(c[k] as int == v);
    }
}

} // verus!

verus! {

/// Exchanging two entries of a permutation gives a permutation.
pub proof fn lemma_swap_is_permutation(p: Seq<usize>, x: int, y: int)
    requires
        is_permutation(p),
        0 <= x < p.len(),
        0 <= y < p.len(),
    ensures
        is_permutation(p.update(x, p[y]).update(y, p[x])),
{
    let q = p.update(x, p[y]).update(y, p[x]);
    let sw = |t: int| if t == x { y } else if t == y { x } else { t };
    assert forall|t: int| 0 <= t < q.len() implies q[t] == p[sw(t)] by {
    }
    assert forall|i: int, j: int| 0 <= i < q.len() && 0 <= j < q.len() && i != j implies #[trigger] q[i] != #[trigger] q[j] by {
        assert(q[i] == p[sw(i)]);
        assert(q[j] == p[sw(j)]);
        assert(sw(i) != sw(j));
    }
    assert forall|v: int| 0 <= v < q.len() implies #[trigger] occurs(q, v) by {
        assert(occurs(p, v));
        let m = choose|m: int| 0 <= m < p.len() && p[m] as int == v;
        assert(q[sw(m)] == p[m]);
    }
}

} // verus!

verus! {

/// One step of the linear congruential generator used for seeded shuffles.
pub open spec fn lcg_next(s: u64) -> u64 {
    vstd::wrapping::u64_specs::wrapping_add(
        vstd::wrapping::u64_specs::wrapping_mul(s, 6364136223846793005u64),
        1u64,
    )
}

/// The arrangement and generator state after `steps` swaps of the seeded
/// Fisher–Yates shuffle of `0..n`: the swap at step `k` exchanges position
/// `i = n - k` with position `(next_state >> 33) mod (i + 1)`.
pub open spec fn shuffle_state(n: nat, seed: u64, steps: nat) -> (Seq<usize>, u64)
    decreases steps,
{
    if steps == 0 {
        (identity_seq(n), seed)
    } else {
        let prev = shuffle_state(n, seed, (steps - 1) as nat);
        let p = prev.0;
        let s = lcg_next(prev.1);
        let i = n - steps;
        let j = (((s >> 33u64) as usize) % ((i + 1) as usize)) as int;
        (p.update(i, p[j]).update(j, p[i]), s)
    }
}

/// The permutation produced from `seed`: the shuffle with swaps at positions
/// `n-1` down to `1`.
pub open spec fn seeded_shuffle(n: nat, seed: u64) -> Seq<usize> {
    if n <= 1 {
        identity_seq(n)
    } else {
        shuffle_state(n, seed, (n - 1) as nat).0
    }
}

/// One generator step in integer arithmetic: `s · 6364136223846793005 + 1`
/// modulo `2^64`.
pub open spec fn lcg_step(s: int) -> int {
    (s * 6364136223846793005 + 1) % 0x1_0000_0000_0000_0000
}

/// The position that generator state `s` draws among `m` places: the state
/// divided by `2^33` (its top 31 bits), modulo `m`.
pub open spec fn drawn_position(s: int, m: int) -> int {
    (s / 0x2_0000_0000) % m
}

/// The wrapping generator step is the integer step.
proof fn lemma_lcg_next_is_step(s: u64)
    ensures
        lcg_next(s) as int == lcg_step(s as int),
{
    let x = s as int * 6364136223846793005;
    assert(x >= 0) by (nonlinear_arith)
        requires
            x == s as int * 6364136223846793005,
            s >= 0,
    ;
    vstd::arithmetic::div_mod::lemma_add_mod_noop(x, 1, 0x1_0000_0000_0000_0000);
    vstd::arithmetic::div_mod::lemma_mod_bound(x, 0x1_0000_0000_0000_0000);
    vstd::arithmetic::div_mod::lemma_small_mod(1nat, 0x1_0000_0000_0000_0000nat);
    let m = x % 0x1_0000_0000_0000_0000;
    if m + 1 == 0x1_0000_0000_0000_0000 {
        vstd::arithmetic::div_mod::lemma_mod_self_0(0x1_0000_0000_0000_0000);
    } else {
        vstd::arithmetic::div_mod::lemma_small_mod((m + 1) as nat, 0x1_0000_0000_0000_0000nat);
    }
}

/// The position a shuffle step draws from state `s` among `i + 1` places.
proof fn lemma_draw_is_position(s: u64, i: nat)
    requires
        i + 1 <= usize::MAX,
    ensures
        (((s >> 33u64) as usize) % ((i + 1) as usize)) as int == drawn_position(s as int, i + 1int),
        0 <= drawn_position(s as int, i + 1int) <= i,
{
    assert(s >> 33u64 == s / 0x2_0000_0000u64) by (bit_vector);
    assert(s >> 33u64 <= 0x7fff_ffffu64) by (bit_vector);
}

/// A shuffle step leaves the sequence's length `n`.
proof fn lemma_shuffle_len(n: nat, seed: u64, steps: nat)
    requires
        steps <= n,
        n <= usize::MAX,
    ensures
        shuffle_state(n, seed, steps).0.len() == n,
    decreases steps,
{
    if steps > 0 {
        lemma_shuffle_len(n, seed, (steps - 1) as nat);
        let prev = shuffle_state(n, seed, (steps - 1) as nat);
        lemma_draw_is_position(lcg_next(prev.1), (n - steps) as nat);
    }
}

/// Once step `k` has swapped position `n - k`, later steps leave it alone.
proof fn lemma_shuffle_settles(n: nat, seed: u64, k: nat, steps: nat)
    requires
        1 <= k <= steps <= n,
        n <= usize::MAX,
    ensures
        shuffle_state(n, seed, steps).0[n - k] == shuffle_state(n, seed, k).0[n - k],
    decreases steps,
{
    if steps > k {
        lemma_shuffle_settles(n, seed, k, (steps - 1) as nat);
        lemma_shuffle_len(n, seed, (steps - 1) as nat);
        let prev = shuffle_state(n, seed, (steps - 1) as nat);
        lemma_draw_is_position(lcg_next(prev.1), (n - steps) as nat);
    }
}

/// The generator state after `k` integer steps from `seed`.
pub open spec fn lcg_iterate(seed: int, k: nat) -> int
    decreases k,
{
    if k == 0 {
        seed
    } else {
        lcg_step(lcg_iterate(seed, (k - 1) as nat))
    }
}

/// Law: step `k` of the seeded shuffle of `0..n` (`1 <= k < n`) runs the
/// generator to its `k`-th state from the full 64-bit seed and exchanges
/// position `n - k` with the position that state draws among `n - k + 1`
/// places, leaving the arrangement's length `n`.
pub proof fn lemma_shuffle_step(n: nat, seed: u64, k: nat)
    requires
        1 <= k < n,
        n <= usize::MAX,
    ensures
        shuffle_state(n, seed, k).1 as int == lcg_iterate(seed as int, k),
        ({
            let p = shuffle_state(n, seed, (k - 1) as nat).0;
            let i = n - k;
            let j = drawn_position(lcg_iterate(seed as int, k), i + 1);
            &&& 0 <= j <= i
            &&& p.len() == n
            &&& shuffle_state(n, seed, k).0 == p.update(i, p[j]).update(j, p[i])
        }),
    decreases k,
{
    let prev = shuffle_state(n, seed, (k - 1) as nat);
    if k > 1 {
        lemma_shuffle_step(n, seed, (k - 1) as nat);
    }
    assert(prev.1 as int == lcg_iterate(seed as int, (k - 1) as nat));
    lemma_lcg_next_is_step(prev.1);
    lemma_draw_is_position(lcg_next(prev.1), (n - k) as nat);
    lemma_shuffle_len(n, seed, (k - 1) as nat);
}

/// Law: the last entry of the seeded shuffle of `0..n` (`n >= 2`) is the
/// position drawn among `n` places by the first generator step from the full
/// 64-bit seed.
pub proof fn lemma_seeded_shuffle_last(n: nat, seed: u64)
    requires
        2 <= n <= usize::MAX,
    ensures
        seeded_shuffle(n, seed)[n - 1] == drawn_position(lcg_step(seed as int), n as int),
{
    let s1 = lcg_next(seed);
    let j = drawn_position(s1 as int, n as int);
    let id = identity_seq(n);
    assert(shuffle_state(n, seed, 0) == (id, seed));
    lemma_draw_is_position(s1, (n - 1) as nat);
    let p1 = id.update(n - 1, id[j]).update(j, id[n - 1]);
    assert(shuffle_state(n, seed, 1) == (p1, s1));
    assert(p1[n - 1] == j);
    lemma_shuffle_settles(n, seed, 1, (n - 1) as nat);
    assert(seeded_shuffle(n, seed) == shuffle_state(n, seed, (n - 1) as nat).0);
    lemma_lcg_next_is_step(seed);
}

/// Law: the second-to-last entry of the seeded shuffle of `0..n` (`n >= 3`)
/// comes from the second generator step: it is the position `j2` drawn among
/// `n - 1` places, unless that is the position `j1` drawn by the first step,
/// which then holds `n - 1`.
pub proof fn lemma_seeded_shuffle_second_last(n: nat, seed: u64)
    requires
        3 <= n <= usize::MAX,
    ensures
        ({
            let s1 = lcg_step(seed as int);
            let j1 = drawn_position(s1, n as int);
            let j2 = drawn_position(lcg_step(s1), n - 1);
            seeded_shuffle(n, seed)[n - 2] == if j2 == j1 { n - 1 } else { j2 }
        }),
{
    let s1 = lcg_next(seed);
    let s2 = lcg_next(s1);
    let j1 = drawn_position(s1 as int, n as int);
    let j2 = drawn_position(s2 as int, n - 1);
    let id = identity_seq(n);
    assert(shuffle_state(n, seed, 0) == (id, seed));
    lemma_draw_is_position(s1, (n - 1) as nat);
    lemma_draw_is_position(s2, (n - 2) as nat);
    let p1 = id.update(n - 1, id[j1]).update(j1, id[n - 1]);
    assert(shuffle_state(n, seed, 1) == (p1, s1));
    let p2 = p1.update(n - 2, p1[j2]).update(j2, p1[n - 2]);
    assert(shuffle_state(n, seed, 2) == (p2, s2));
    assert(p1[j2] == if j2 == j1 { n - 1 } else { j2 });
    assert(p2[n - 2] == p1[j2]);
    lemma_shuffle_settles(n, seed, 2, (n - 1) as nat);
    assert(seeded_shuffle(n, seed) == shuffle_state(n, seed, (n - 1) as nat).0);
    lemma_lcg_next_is_step(seed);
    lemma_lcg_next_is_step(s1);
}

/// `j` occurs in `s` at a position before `k`.
pub open spec fn occurs_before(s: Seq<usize>, j: int, k: int) -> bool {
    exists|i: int| 0 <= i < k && s[i] as int == j
}

/// `r` holds, at each position `j`, the last position of `s` where `j` occurs,
/// or `0` where `j` does not occur in `s`.
pub open spec fn is_last_preimage_table(r: Seq<usize>, s: Seq<usize>) -> bool {
    &&& r.len() == s.len()
    &&& forall|j: int|
        0 <= j < s.len() ==> if occurs_before(s, j, s.len() as int) {
            &&& (#[trigger] r[j]) < s.len()
            &&& s[r[j] as int] as int == j
            &&& forall|i: int| r[j] < i < s.len() ==> s[i] as int != j
        } else {
            r[j] == 0
        }
}

/// Entries of `items` read through `perm`: `(perm·items)[k] = items[perm[k]]`.
pub open spec fn apply_seq<T>(perm: Seq<usize>, items: Seq<T>) -> Seq<T> {
    Seq::new(perm.len(), |k: int| items[perm[k] as int])
}

/// Aggregation method for Deep Sets layers.
#[derive(Clone, Copy, Debug, PartialEq, Eq, Structural)]
pub enum Aggregation {
    Sum,
    Mean,
    Max,
}

/// A permutation of indices: `perm[i] = j` means new position `i` comes from
/// old position `j`.
#[derive(Clone, Debug, PartialEq, Eq)]
pub struct Permutation {
    pub perm: Vec<usize>,
}

impl Permutation {
    pub fn new(perm: Vec<usize>) -> (r: Self)
        ensures
            r.perm@ == perm@,
    {
        Permutation { perm }
    }

    /// Identity permutation of size `n`.
    pub fn identity(n: usize) -> (r: Self)
        ensures
            r.perm@ == identity_seq(n as nat),
            is_permutation(r.perm@),
    {
        let mut perm: Vec<usize> = Vec::new();
        let mut k: usize = 0;
        while k < n
            invariant
                k <= n,
                perm@ == identity_seq(k as nat),
            decreases n - k,
        {
            perm.push(k);
            k = k + 1;
            proof {
                assert(perm@ =~= identity_seq(k as nat));
            }
        }
        proof {
            lemma_identity_is_permutation(n as nat);
        }
        Permutation { perm }
    }

    /// Deterministic pseudo-random permutation of size `n`: a Fisher–Yates
    /// shuffle driven by a linear congruential generator started at `seed`.
    pub fn from_seed(n: usize, seed: u64) -> (r: Self)
        ensures
            r.perm@ == seeded_shuffle(n as nat, seed),
            is_permutation(r.perm@),
            n >= 2 ==> r.perm@[n - 1] == drawn_position(lcg_step(seed as int), n as int),
            n >= 3 ==> ({
                let s1 = lcg_step(seed as int);
                let j1 = drawn_position(s1, n as int);
                let j2 = drawn_position(lcg_step(s1), n - 1);
                r.perm@[n - 2] == if j2 == j1 { n - 1 } else { j2 }
            }),
    {
        let mut perm: Vec<usize> = Vec::new();
        let mut k: usize = 0;
        while k < n
            invariant
                k <= n,
                perm@ == identity_seq(k as nat),
            decreases n - k,
        {
            perm.push(k);
            k = k + 1;
            proof {
                assert(perm@ =~= identity_seq(k as nat));
            }
        }
        proof {
            lemma_identity_is_permutation(n as nat);
        }
        let mut s = seed;
        if n > 1 {
            let mut i: usize = n - 1;
            while i >= 1
                invariant
                    1 < n,
                    i < n,
                    perm@.len() == n,
                    is_permutation(perm@),
                    (perm@, s) == shuffle_state(n as nat, seed, (n - 1 - i) as nat),
                decreases i,
            {
                s = s.wrapping_mul(6364136223846793005).wrapping_add(1);
                let j = (s >> 33) as usize % (i + 1);
                let a = perm[i];
                let b = perm[j];
                proof {
                    lemma_swap_is_permutation(perm@, i as int, j as int);
                    assert(shuffle_state(n as nat, seed, (n - i) as nat) == ({
                        let prev = shuffle_state(n as nat, seed, (n - 1 - i) as nat);
                        let p = prev.0;
                        let s2 = lcg_next(prev.1);
                        let i2 = n - (n - i);
                        let j2 = (((s2 >> 33u64) as usize) % ((i2 + 1) as usize)) as int;
                        (p.update(i2, p[j2]).update(j2, p[i2]), s2)
                    }));
                }
                perm.set(i, b);
                perm.set(j, a);
                i = i - 1;
            }
        }
        proof {
            if n >= 2 {
                lemma_seeded_shuffle_last(n as nat, seed);
            }
            if n >= 3 {
                lemma_seeded_shuffle_second_last(n as nat, seed);
            }
        }
        Permutation { perm }
    }
    /// Inverse permutation: `inv[perm[i]] = i`. Where an index occurs more than
    /// once the last occurrence wins, and indices that do not occur map to `0`.
    pub fn inverse(&self) -> (r: Self)
        requires
            forall|i: int| 0 <= i < self.perm@.len() ==> #[trigger] self.perm@[i] < self.perm@.len(),
        ensures
            is_last_preimage_table(r.perm@, self.perm@),
            is_permutation(self.perm@) ==> is_permutation(r.perm@),
            is_permutation(self.perm@) ==> compose_seq(r.perm@, self.perm@) == identity_seq(
                self.perm@.len(),
            ),
            is_permutation(self.perm@) ==> compose_seq(self.perm@, r.perm@) == identity_seq(
                self.perm@.len(),
            ),
    {
        let n = self.perm.len();
        let ghost s = self.perm@;
        let mut inv: Vec<usize> = Vec::new();
        let mut k: usize = 0;
        while k < n
            invariant
                n == s.len(),
                k <= n,
                inv@.len() == k,
                forall|t: int| 0 <= t < k ==> #[trigger] inv@[t] == 0,
            decreases n - k,
        {
            inv.push(0);
            k = k + 1;
        }
        let mut k: usize = 0;
        while k < n
            invariant
                n == s.len(),
                s == self.perm@,
                forall|i: int| 0 <= i < s.len() ==> #[trigger] s[i] < s.len(),
                k <= n,
                inv@.len() == n,
                forall|j: int|
                    0 <= j < n ==> if occurs_before(s, j, k as int) {
                        &&& (#[trigger] inv@[j]) < k
                        &&& s[inv@[j] as int] as int == j
                        &&& forall|i: int| inv@[j] < i < k ==> s[i] as int != j
                    } else {
                        inv@[j] == 0
                    },
            decreases n - k,
        {
            let v = self.perm[k];
            let ghost before = inv@;
            inv.set(v, k);
            proof {
                assert forall|j: int|
                    0 <= j < n implies if occurs_before(s, j, k + 1) {
                        &&& (#[trigger] inv@[j]) < k + 1
                        &&& s[inv@[j] as int] as int == j
                        &&& forall|i: int| inv@[j] < i < k + 1 ==> s[i] as int != j
                    } else {
                        inv@[j] == 0
                    } by {
                    if j == v {
                        assert(occurs_before(s, j, k + 1)) by {
                            assert(s[k as int] as int == j);
                        }
                    } else {
                        assert(inv@[j] == before[j]);
                        if occurs_before(s, j, k + 1) {
                            let w = choose|i: int| 0 <= i < k + 1 && s[i] as int == j;
                            assert(w != k);
                            assert(occurs_before(s, j, k as int));
                        } else {
                            if occurs_before(s, j, k as int) {
                                let w = choose|i: int| 0 <= i < k && s[i] as int == j;
                                assert(0 <= w < k + 1 && s[w] as int == j);
                            }
                        }
                    }
                }
            }
            k = k + 1;
        }
        let r = Permutation { perm: inv };
        proof {
            let q = r.perm@;
            if is_permutation(s) {
                assert forall|i: int| 0 <= i < n implies #[trigger] q[s[i] as int] as int == i by {
                    assert(occurs_before(s, s[i] as int, n as int));
                    let m = q[s[i] as int] as int;
                    assert(s[m] == s[i]);
                }
                assert forall|t: int| 0 <= t < q.len() implies (#[trigger] q[t]) < q.len() by {
                    assert(occurs(s, t));
                }
                assert forall|a: int, b: int| 0 <= a < q.len() && 0 <= b < q.len() && a != b implies #[trigger] q[a] != #[trigger] q[b] by {
                    assert(occurs(s, a));
                    assert(occurs(s, b));
                    let ma = choose|m: int| 0 <= m < s.len() && s[m] as int == a;
                    let mb = choose|m: int| 0 <= m < s.len() && s[m] as int == b;
                    assert(q[s[ma] as int] as int == ma);
                    assert(q[s[mb] as int] as int == mb);
                }
                assert forall|v: int| 0 <= v < q.len() implies #[trigger] occurs(q, v) by {
                    assert(q[s[v] as int] as int == v);
                }
                assert(compose_seq(q, s) =~= identity_seq(n as nat)) by {
                    assert forall|t: int| 0 <= t < n implies #[trigger] compose_seq(q, s)[t] == identity_seq(n as nat)[t] by {
                        assert(q[s[t] as int] as int == t);
                    }
                }
                assert(compose_seq(s, q) =~= identity_seq(n as nat)) by {
                    assert forall|t: int| 0 <= t < n implies #[trigger] compose_seq(s, q)[t] == identity_seq(n as nat)[t] by {
                        assert(occurs(s, t));
                        let m = choose|m: int| 0 <= m < s.len() && s[m] as int == t;
                        assert(q[s[m] as int] as int == m);
                    }
                }
            }
        }
        r
    }

    /// Composition `self ∘ other`: `result[x] = self.perm[other.perm[x]]`.
    pub fn compose(&self, other: &Self) -> (r: Self)
        requires
            forall|i: int| 0 <= i < other.perm@.len() ==> #[trigger] other.perm@[i] < self.perm@.len(),
        ensures
            r.perm@ == compose_seq(self.perm@, other.perm@),
            is_permutation(self.perm@) && is_permutation(other.perm@) && self.perm@.len()
                == other.perm@.len() ==> is_permutation(r.perm@),
    {
        let mut out: Vec<usize> = Vec::new();
        let mut k: usize = 0;
        while k < other.perm.len()
            invariant
                forall|i: int| 0 <= i < other.perm@.len() ==> #[trigger] other.perm@[i] < self.perm@.len(),
                k <= other.perm@.len(),
                out@.len() == k,
                forall|t: int| 0 <= t < k ==> #[trigger] out@[t] == self.perm@[other.perm@[t] as int],
            decreases other.perm@.len() - k,
        {
            out.push(self.perm[other.perm[k]]);
            k = k + 1;
        }
        assert(out@ =~= compose_seq(self.perm@, other.perm@));
        proof {
            if is_permutation(self.perm@) && is_permutation(other.perm@) && self.perm@.len()
                == other.perm@.len() {
                lemma_compose_is_permutation(self.perm@, other.perm@);
            }
        }
        Permutation { perm: out }
    }

    /// Read `items` through the permutation: `result[k]` is a clone of
    /// `items[perm[k]]`.
    pub fn apply<T: Clone>(&self, items: &[T]) -> (r: Vec<T>)
        requires
            forall|i: int| 0 <= i < self.perm@.len() ==> #[trigger] self.perm@[i] < items@.len(),
        ensures
            r@.len() == self.perm@.len(),
            forall|k: int| 0 <= k < r@.len() ==> cloned::<T>(items@[self.perm@[k] as int], #[trigger] r@[k]),
    {
        let mut out: Vec<T> = Vec::new();
        let mut k: usize = 0;
        while k < self.perm.len()
            invariant
                forall|i: int| 0 <= i < self.perm@.len() ==> #[trigger] self.perm@[i] < items@.len(),
                k <= self.perm@.len(),
                out@.len() == k,
                forall|t: int| 0 <= t < k ==> cloned::<T>(items@[self.perm@[t] as int], #[trigger] out@[t]),
            decreases self.perm@.len() - k,
        {
            let x = items[self.perm[k]].clone();
            out.push(x);
            k = k + 1;
        }
        out
    }

    /// Size of the permutation.
    pub fn len(&self) -> (r: usize)
        ensures
            r == self.perm@.len(),
    {
        self.perm.len()
    }

    /// Whether the permutation has no entries.
    pub fn is_empty(&self) -> (r: bool)
        ensures
            r == (self.perm@.len() == 0),
    {
        self.perm.len() == 0
    }

}

} // verus!

verus! {

/// Law: composition of arrangements is associative.
pub proof fn lemma_compose_associative(a: Seq<usize>, b: Seq<usize>, c: Seq<usize>)
    requires
        forall|k: int| 0 <= k < c.len() ==> #[trigger] c[k] < b.len(),
    ensures
        compose_seq(a, compose_seq(b, c)) == compose_seq(compose_seq(a, b), c),
{
    assert(compose_seq(a, compose_seq(b, c)) =~= compose_seq(compose_seq(a, b), c));
}

/// Law: the identity arrangement is neutral on both sides of composition.
pub proof fn lemma_compose_identity(p: Seq<usize>)
    requires
        p.len() <= usize::MAX,
        forall|k: int| 0 <= k < p.len() ==> #[trigger] p[k] < p.len(),
    ensures
        compose_seq(identity_seq(p.len()), p) == p,
        compose_seq(p, identity_seq(p.len())) == p,
{
    let n = p.len();
    assert forall|k: int| 0 <= k < n implies #[trigger] compose_seq(identity_seq(n), p)[k] == p[k] by {
        assert(identity_seq(n)[p[k] as int] == p[k]);
    }
    assert forall|k: int| 0 <= k < n implies #[trigger] compose_seq(p, identity_seq(n))[k] == p[k] by {
        assert(identity_seq(n)[k] as int == k);
    }
    assert(compose_seq(identity_seq(n), p) =~= p);
    assert(compose_seq(p, identity_seq(n)) =~= p);
}

/// Law: reading items through `p` and then through `q` is reading them
/// through the composition `p ∘ q`.
pub proof fn lemma_apply_compose<T>(p: Seq<usize>, q: Seq<usize>, items: Seq<T>)
    requires
        forall|k: int| 0 <= k < q.len() ==> #[trigger] q[k] < p.len(),
    ensures
        apply_seq(q, apply_seq(p, items)) == apply_seq(compose_seq(p, q), items),
{
    assert(apply_seq(q, apply_seq(p, items)) =~= apply_seq(compose_seq(p, q), items));
}

/// Law: reading items through a permutation and then through its inverse
/// gives back the items.
pub proof fn lemma_apply_inverse<T>(p: Seq<usize>, r: Seq<usize>, items: Seq<T>)
    requires
        p.len() <= usize::MAX,
        is_permutation(p),
        is_permutation(r),
        p.len() == r.len(),
        items.len() == p.len(),
        compose_seq(p, r) == identity_seq(p.len()),
    ensures
        apply_seq(r, apply_seq(p, items)) == items,
{
    lemma_apply_compose(p, r, items);
    let n = p.len();
    assert forall|k: int| 0 <= k < n implies #[trigger] apply_seq(identity_seq(n), items)[k] == items[k] by {
        assert(identity_seq(n)[k] as int == k);
    }
    assert(apply_seq(identity_seq(n), items) =~= items);
}

} // verus!

verus! {

/// Law: inverting the inverse of a permutation gives the permutation back.
pub proof fn lemma_inverse_involutive(p: Seq<usize>, r: Seq<usize>, s: Seq<usize>)
    requires
        is_permutation(p),
        is_last_preimage_table(r, p),
        is_last_preimage_table(s, r),
    ensures
        s == p,
{
    let n = p.len();
    assert forall|i: int| 0 <= i < n implies #[trigger] r[p[i] as int] as int == i by {
        assert(occurs_before(p, p[i] as int, n as int));
        let m = r[p[i] as int] as int;
        assert(p[m] == p[i]);
    }
    assert forall|x: int| 0 <= x < n implies #[trigger] s[x] == p[x] by {
        assert(r[p[x] as int] as int == x);
        assert(occurs_before(r, x, n as int));
        let m = s[x] as int;
        assert(r[m] as int == x);
        assert(occurs(p, m));
        let k = choose|k: int| 0 <= k < n && p[k] as int == m;
        assert(r[p[k] as int] as int == k);
    }
    assert(s =~= p);
}

} // verus!

verus! {

/// `n! = 1 · 2 · … · n`.
pub open spec fn factorial(n: nat) -> nat
    decreases n,
{
    if n == 0 {
        1
    } else {
        n * factorial((n - 1) as nat)
    }
}

/// A list of the permutations of `0..n`: entry `k` inserts `n - 1` at
/// position `k mod n` of entry `k / n` of the list for `n - 1`.
pub open spec fn insertion_list(n: nat) -> Seq<Seq<usize>>
    decreases n,
{
    if n == 0 {
        seq![Seq::<usize>::empty()]
    } else {
        let prev = insertion_list((n - 1) as nat);
        Seq::new(n * prev.len(), |k: int| prev[k / (n as int)].insert(k % (n as int), (n - 1) as usize))
    }
}

/// Inserting `v` anywhere into a permutation of `0..v` gives a permutation of `0..v+1`.
proof fn lemma_insert_top_is_permutation(q: Seq<usize>, j: int, v: usize)
    requires
        is_permutation(q),
        q.len() == v,
        0 <= j <= v,
    ensures
        is_permutation(q.insert(j, v)),
        q.insert(j, v).len() == v + 1,
        q.insert(j, v)[j] == v,
        forall|i: int| 0 <= i < q.insert(j, v).len() && i != j ==> #[trigger] q.insert(j, v)[i] < v,
{
    let r = q.insert(j, v);
    q.insert_ensures(j, v);
    let src = |i: int| if i < j { i } else { i - 1 };
    assert forall|i: int| 0 <= i < r.len() && i != j implies r[i] == q[src(i)] && 0 <= src(i) < q.len() by {
        if i > j {
            assert(r[(i - 1) + 1] == q[i - 1]);
        }
    }
    assert forall|i: int| 0 <= i < r.len() && i != j implies #[trigger] r[i] < v by {
        assert(r[i] == q[src(i)]);
    }
    assert forall|i: int| 0 <= i < r.len() implies (#[trigger] r[i]) < r.len() by {
        if i != j {
            assert(r[i] == q[src(i)]);
        }
    }
    assert forall|a: int, b: int| 0 <= a < r.len() && 0 <= b < r.len() && a != b implies #[trigger] r[a] != #[trigger] r[b] by {
        if a != j && b != j {
            assert(r[a] == q[src(a)]);
            assert(r[b] == q[src(b)]);
            assert(src(a) != src(b));
        } else if a == j {
            assert(r[b] == q[src(b)]);
        } else {
            assert(r[a] == q[src(a)]);
        }
    }
    assert forall|w: int| 0 <= w < r.len() implies #[trigger] occurs(r, w) by {
        if w == v {
            assert(r[j] as int == w);
        } else {
            assert(occurs(q, w));
            let m = choose|m: int| 0 <= m < q.len() && q[m] as int == w;
            if m < j {
                assert(r[m] == q[m]);
            } else {
                assert(r[m + 1] == q[m]);
            }
        }
    }
}

/// Removing the entry `n - 1` from a permutation of `0..n` gives a permutation
/// of `0..n-1`, into which inserting `n - 1` at the same place gives back the
/// original.
proof fn lemma_remove_top(s: Seq<usize>, j: int)
    requires
        is_permutation(s),
        0 <= j < s.len(),
        s[j] == s.len() - 1,
    ensures
        is_permutation(s.remove(j)),
        s.remove(j).len() == s.len() - 1,
        s.remove(j).insert(j, s[j]) == s,
{
    let q = s.remove(j);
    s.remove_ensures(j);
    let src = |i: int| if i < j { i } else { i + 1 };
    assert forall|i: int| 0 <= i < q.len() implies q[i] == s[src(i)] && 0 <= src(i) < s.len() && src(i) != j by {
    }
    assert forall|i: int| 0 <= i < q.len() implies (#[trigger] q[i]) < q.len() by {
        assert(q[i] == s[src(i)]);
        assert(s[src(i)] != s[j]);
    }
    assert forall|a: int, b: int| 0 <= a < q.len() && 0 <= b < q.len() && a != b implies #[trigger] q[a] != #[trigger] q[b] by {
        assert(q[a] == s[src(a)]);
        assert(q[b] == s[src(b)]);
    }
    assert forall|w: int| 0 <= w < q.len() implies #[trigger] occurs(q, w) by {
        assert(occurs(s, w));
        let m = choose|m: int| 0 <= m < s.len() && s[m] as int == w;
        assert(m != j);
        if m < j {
            assert(q[m] == s[m]);
        } else {
            assert(q[m - 1] == s[m]);
        }
    }
    assert(q.insert(j, s[j]) =~= s);
}

/// The quotient and remainder of `k` by `n` locate it in an `L × n` grid.
proof fn lemma_grid_index(k: int, n: int, l: int)
    requires
        n > 0,
        0 <= k < n * l,
    ensures
        0 <= k / n < l,
        0 <= k % n < n,
        k == n * (k / n) + k % n,
{
    vstd::arithmetic::div_mod::lemma_fundamental_div_mod(k, n);
    let q = k / n;
    let r = k % n;
    assert(0 <= r < n);
    assert(0 <= q < l) by (nonlinear_arith)
        requires
            k == n * q + r,
            0 <= r < n,
            0 <= k < n * l,
            n > 0,
    ;
}

/// The insertion list has `n!` entries, each a permutation of `0..n`, none
/// twice, and every permutation of `0..n` is among them.
pub proof fn lemma_insertion_list(n: nat)
    requires
        n <= usize::MAX + 1,
    ensures
        insertion_list(n).len() == factorial(n),
        forall|k: int| 0 <= k < insertion_list(n).len() ==> is_permutation(#[trigger] insertion_list(n)[k]) && insertion_list(n)[k].len() == n,
        insertion_list(n).no_duplicates(),
        forall|s: Seq<usize>| is_permutation(s) && s.len() == n ==> #[trigger] insertion_list(n).contains(s),
    decreases n,
{
    let list = insertion_list(n);
    if n == 0 {
        assert forall|s: Seq<usize>| is_permutation(s) && s.len() == n implies #[trigger] list.contains(s) by {
            assert(s =~= Seq::<usize>::empty());
            assert(list[0] == s);
        }
    } else {
        let m = (n - 1) as nat;
        let prev = insertion_list(m);
        lemma_insertion_list(m);
        let ni = n as int;
        let v = m as usize;
        assert(list.len() == n * prev.len());
        assert forall|k: int| 0 <= k < list.len() implies is_permutation(#[trigger] list[k]) && list[k].len() == n by {
            lemma_grid_index(k, ni, prev.len() as int);
            lemma_insert_top_is_permutation(prev[k / ni], k % ni, v);
        }
        assert forall|k1: int, k2: int| 0 <= k1 < list.len() && 0 <= k2 < list.len() && k1 != k2 implies list[k1] != list[k2] by {
            lemma_grid_index(k1, ni, prev.len() as int);
            lemma_grid_index(k2, ni, prev.len() as int);
            let q1 = prev[k1 / ni];
            let q2 = prev[k2 / ni];
            let j1 = k1 % ni;
            let j2 = k2 % ni;
            lemma_insert_top_is_permutation(q1, j1, v);
            lemma_insert_top_is_permutation(q2, j2, v);
            if list[k1] == list[k2] {
                let r = list[k1];
                if j1 != j2 {
                    assert(r[j2] < v);
                }
                assert(q1.insert(j1, v).remove(j1) =~= q1);
                assert(q2.insert(j2, v).remove(j2) =~= q2);
                assert(k1 / ni == k2 / ni);
            }
        }
        assert forall|s: Seq<usize>| is_permutation(s) && s.len() == n implies #[trigger] list.contains(s) by {
            assert(occurs(s, m as int));
            let j = choose|j: int| 0 <= j < s.len() && s[j] as int == m as int;
            lemma_remove_top(s, j);
            let q = s.remove(j);
            assert(prev.contains(q));
            let a = choose|a: int| 0 <= a < prev.len() && prev[a] == q;
            let k = a * ni + j;
            assert(0 <= k < ni * prev.len()) by (nonlinear_arith)
                requires
                    0 <= a < prev.len(),
                    0 <= j < ni,
                    k == a * ni + j,
            ;
            vstd::arithmetic::div_mod::lemma_fundamental_div_mod_converse(k, ni, a, j);
            assert(list[k] == q.insert(j, v));
        }
    }
}

} // verus!
