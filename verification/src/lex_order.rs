//! Lexicographic order on sequences of distinct values, rearrangements of such
//! sequences, and the facts that make enumeration in lexicographic order
//! complete.
use vstd::prelude::*;
use vstd::arithmetic::power::{lemma_pow_positive, pow};
use crate::permutation::{is_permutation, occurs};

verus! {

/// `a` and `b` agree on all positions before `k`.
pub open spec fn agree_before(a: Seq<usize>, b: Seq<usize>, k: int) -> bool {
    forall|i: int| 0 <= i < k ==> #[trigger] a[i] == #[trigger] b[i]
}

/// `a` is lexicographically smaller than `b`, with first difference at `k`.
pub open spec fn lex_lt_at(a: Seq<usize>, b: Seq<usize>, k: int) -> bool {
    &&& a.len() == b.len()
    &&& 0 <= k < a.len()
    &&& agree_before(a, b, k)
    &&& a[k] < b[k]
}

/// Strict lexicographic order on sequences of equal length.
pub open spec fn lex_lt(a: Seq<usize>, b: Seq<usize>) -> bool {
    exists|k: int| #[trigger] lex_lt_at(a, b, k)
}

/// No value occurs twice in `s`.
pub open spec fn distinct(s: Seq<usize>) -> bool {
    forall|i: int, j: int| 0 <= i < s.len() && 0 <= j < s.len() && i != j ==> #[trigger] s[i] != #[trigger] s[j]
}

/// Every entry of `a` occurs in `b`.
pub open spec fn values_within(a: Seq<usize>, b: Seq<usize>) -> bool {
    forall|i: int| 0 <= i < a.len() ==> #[trigger] occurs(b, a[i] as int)
}

/// `r` holds the same distinct values as `p`, in some order.
pub open spec fn is_rearrangement(r: Seq<usize>, p: Seq<usize>) -> bool {
    &&& r.len() == p.len()
    &&& distinct(r)
    &&& values_within(r, p)
    &&& values_within(p, r)
}

/// `s` read as the digits of a number in base `base`, the entry at position 0
/// most significant.
pub open spec fn digits_value(s: Seq<usize>, base: int) -> int
    decreases s.len(),
{
    if s.len() == 0 {
        0
    } else {
        s[0] * pow(base, (s.len() - 1) as nat) + digits_value(s.drop_first(), base)
    }
}

/// Every entry of `s` is a digit in base `base`.
pub open spec fn digits_below(s: Seq<usize>, base: int) -> bool {
    forall|i: int| 0 <= i < s.len() ==> #[trigger] s[i] < base
}

/// `s` is strictly increasing on positions `from..s.len()`.
pub open spec fn increasing_from(s: Seq<usize>, from: int) -> bool {
    forall|i: int, j: int| from <= i < j < s.len() ==> #[trigger] s[i] < #[trigger] s[j]
}

/// `s` is strictly decreasing on positions `from..s.len()`.
pub open spec fn decreasing_from(s: Seq<usize>, from: int) -> bool {
    forall|i: int, j: int| from <= i < j < s.len() ==> #[trigger] s[i] > #[trigger] s[j]
}

/// No sequence is lexicographically smaller than itself.
pub proof fn lemma_lex_irreflexive(a: Seq<usize>)
    ensures
        !lex_lt(a, a),
{
}

/// The lexicographic order is transitive.
pub proof fn lemma_lex_transitive(a: Seq<usize>, b: Seq<usize>, c: Seq<usize>)
    requires
        lex_lt(a, b),
        lex_lt(b, c),
    ensures
        lex_lt(a, c),
{
    let k1 = choose|k: int| lex_lt_at(a, b, k);
    let k2 = choose|k: int| lex_lt_at(b, c, k);
    let k = if k1 <= k2 { k1 } else { k2 };
    assert forall|i: int| 0 <= i < k implies #[trigger] a[i] == #[trigger] c[i] by {
        assert(a[i] == b[i]);
        assert(b[i] == c[i]);
    }
    if k1 < k2 {
        assert(b[k1] == c[k1]);
    } else if k2 < k1 {
        assert(a[k2] == b[k2]);
    }
    assert(lex_lt_at(a, c, k));
}

/// Two different sequences of equal length are ordered one way or the other.
pub proof fn lemma_lex_total(a: Seq<usize>, b: Seq<usize>)
    requires
        a.len() == b.len(),
        a != b,
    ensures
        lex_lt(a, b) || lex_lt(b, a),
{
    lemma_lex_total_from(a, b, 0);
}

proof fn lemma_lex_total_from(a: Seq<usize>, b: Seq<usize>, k: int)
    requires
        a.len() == b.len(),
        a != b,
        0 <= k <= a.len(),
        agree_before(a, b, k),
    ensures
        lex_lt(a, b) || lex_lt(b, a),
    decreases a.len() - k,
{
    if k == a.len() {
        assert(a =~= b);
    } else if a[k] == b[k] {
        lemma_lex_total_from(a, b, k + 1);
    } else if a[k] < b[k] {
        assert(lex_lt_at(a, b, k));
    } else {
        assert(lex_lt_at(b, a, k));
    }
}

/// Where two sequences agree before `k` and the entries of `b` are distinct and
/// occur in `a`, the value `b[k]` sits in `a` at a position `m >= k`.
pub proof fn lemma_value_origin(a: Seq<usize>, b: Seq<usize>, k: int) -> (m: int)
    requires
        a.len() == b.len(),
        distinct(b),
        values_within(b, a),
        0 <= k < a.len(),
        agree_before(a, b, k),
    ensures
        k <= m < a.len(),
        a[m] == b[k],
{
    assert(occurs(a, b[k] as int));
    let m = choose|m: int| 0 <= m < a.len() && a[m] as int == b[k] as int;
    if m < k {
        assert(a[m] == b[m]);
        assert(b[m] != b[k]);
    }
    m
}

/// A sequence that is increasing after a prefix it shares with a rearrangement
/// `b` is not above `b`: it is the least such rearrangement.
pub proof fn lemma_increasing_is_least(a: Seq<usize>, b: Seq<usize>, s: int)
    requires
        a.len() == b.len(),
        distinct(b),
        values_within(b, a),
        0 <= s,
        agree_before(a, b, s),
        increasing_from(a, s),
    ensures
        !lex_lt(b, a),
{
    if lex_lt(b, a) {
        let k = choose|k: int| lex_lt_at(b, a, k);
        if k < s {
            assert(a[k] == b[k]);
        } else {
            let m = lemma_value_origin(a, b, k);
            assert(m != k);
            assert(a[k] < a[m]);
        }
    }
}

/// A sequence that is decreasing after a prefix it shares with a rearrangement
/// `b` is not below `b`: it is the greatest such rearrangement.
pub proof fn lemma_decreasing_is_greatest(a: Seq<usize>, b: Seq<usize>, s: int)
    requires
        a.len() == b.len(),
        distinct(b),
        values_within(b, a),
        0 <= s,
        agree_before(a, b, s),
        decreasing_from(a, s),
    ensures
        !lex_lt(a, b),
{
    if lex_lt(a, b) {
        let k = choose|k: int| lex_lt_at(a, b, k);
        if k < s {
            assert(a[k] == b[k]);
        } else {
            assert(agree_before(a, b, k));
            let m = lemma_value_origin(a, b, k);
            assert(m != k);
            assert(a[k] > a[m]);
        }
    }
}

/// If the entries of `a` occur in `b` and those of `b` occur in `c`, the
/// entries of `a` occur in `c`.
pub proof fn lemma_values_within_transitive(a: Seq<usize>, b: Seq<usize>, c: Seq<usize>)
    requires
        values_within(a, b),
        values_within(b, c),
    ensures
        values_within(a, c),
{
    assert forall|i: int| 0 <= i < a.len() implies #[trigger] occurs(c, a[i] as int) by {
        assert(occurs(b, a[i] as int));
        let m = choose|m: int| 0 <= m < b.len() && b[m] as int == a[i] as int;
        assert(occurs(c, b[m] as int));
    }
}

/// A sequence of distinct values is a rearrangement of itself.
pub proof fn lemma_rearrangement_reflexive(p: Seq<usize>)
    requires
        distinct(p),
    ensures
        is_rearrangement(p, p),
{
    assert forall|i: int| 0 <= i < p.len() implies #[trigger] occurs(p, p[i] as int) by {
    }
}

/// A rearrangement of a rearrangement of `c` is a rearrangement of `c`.
pub proof fn lemma_rearrangement_transitive(a: Seq<usize>, b: Seq<usize>, c: Seq<usize>)
    requires
        is_rearrangement(a, b),
        is_rearrangement(b, c),
    ensures
        is_rearrangement(a, c),
{
    lemma_values_within_transitive(a, b, c);
    lemma_values_within_transitive(c, b, a);
}

/// Two permutations of `0..n` are rearrangements of each other.
pub proof fn lemma_permutations_are_rearrangements(r: Seq<usize>, p: Seq<usize>)
    requires
        is_permutation(r),
        is_permutation(p),
        r.len() == p.len(),
    ensures
        is_rearrangement(r, p),
{
    assert forall|i: int| 0 <= i < r.len() implies #[trigger] occurs(p, r[i] as int) by {
        assert(r[i] < p.len());
    }
    assert forall|i: int| 0 <= i < p.len() implies #[trigger] occurs(r, p[i] as int) by {
        assert(p[i] < r.len());
    }
}

/// A rearrangement of a permutation of `0..n` is a permutation of `0..n`.
pub proof fn lemma_rearrangement_of_permutation(q: Seq<usize>, p: Seq<usize>)
    requires
        is_permutation(p),
        is_rearrangement(q, p),
    ensures
        is_permutation(q),
{
    assert forall|i: int| 0 <= i < q.len() implies (#[trigger] q[i]) < q.len() by {
        assert(occurs(p, q[i] as int));
        let m = choose|m: int| 0 <= m < p.len() && p[m] as int == q[i] as int;
        assert(p[m] < p.len());
    }
    assert forall|v: int| 0 <= v < q.len() implies #[trigger] occurs(q, v) by {
        assert(occurs(p, v));
        let m = choose|m: int| 0 <= m < p.len() && p[m] as int == v;
        assert(occurs(q, p[m] as int));
    }
}

/// Exchanging two entries of a sequence of distinct values gives a
/// rearrangement of it.
pub proof fn lemma_swap_is_rearrangement(p: Seq<usize>, x: int, y: int)
    requires
        distinct(p),
        0 <= x < p.len(),
        0 <= y < p.len(),
    ensures
        is_rearrangement(p.update(x, p[y]).update(y, p[x]), p),
{
    let q = p.update(x, p[y]).update(y, p[x]);
    let sw = |t: int| if t == x { y } else if t == y { x } else { t };
    assert forall|t: int| 0 <= t < q.len() implies q[t] == p[sw(t)] && 0 <= sw(t) < p.len() by {
    }
    assert forall|i: int, j: int| 0 <= i < q.len() && 0 <= j < q.len() && i != j implies #[trigger] q[i] != #[trigger] q[j] by {
        assert(q[i] == p[sw(i)]);
        assert(q[j] == p[sw(j)]);
        assert(sw(i) != sw(j));
    }
    assert forall|i: int| 0 <= i < q.len() implies #[trigger] occurs(p, q[i] as int) by {
        assert(q[i] == p[sw(i)]);
    }
    assert forall|i: int| 0 <= i < p.len() implies #[trigger] occurs(q, p[i] as int) by {
        assert(q[sw(i)] == p[i]);
    }
}

/// Reversing the entries of a sequence of distinct values from position `st`
/// on gives a rearrangement of it.
pub proof fn lemma_reverse_tail_is_rearrangement(s: Seq<usize>, q: Seq<usize>, st: int)
    requires
        distinct(s),
        q.len() == s.len(),
        0 <= st <= s.len(),
        forall|t: int| 0 <= t < st ==> q[t] == s[t],
        forall|t: int| st <= t < s.len() ==> q[t] == s[st + s.len() - 1 - t],
    ensures
        is_rearrangement(q, s),
{
    let n = s.len() as int;
    let f = |t: int| if t < st { t } else { st + n - 1 - t };
    assert forall|t: int| 0 <= t < n implies q[t] == s[f(t)] && 0 <= f(t) < n && f(f(t)) == t by {
    }
    assert forall|i: int, j: int| 0 <= i < q.len() && 0 <= j < q.len() && i != j implies #[trigger] q[i] != #[trigger] q[j] by {
        assert(q[i] == s[f(i)]);
        assert(q[j] == s[f(j)]);
        assert(f(i) != f(j));
    }
    assert forall|i: int| 0 <= i < q.len() implies #[trigger] occurs(s, q[i] as int) by {
        assert(q[i] == s[f(i)]);
    }
    assert forall|i: int| 0 <= i < s.len() implies #[trigger] occurs(q, s[i] as int) by {
        assert(q[f(i)] == s[f(f(i))]);
    }
}

/// The digit value of `s` in base `base` lies in `0..base^len`.
pub proof fn lemma_digits_value_bounds(s: Seq<usize>, base: int)
    requires
        base > 0,
        digits_below(s, base),
    ensures
        0 <= digits_value(s, base) < pow(base, s.len()),
    decreases s.len(),
{
    reveal(pow);
    if s.len() > 0 {
        let r = s.drop_first();
        assert forall|i: int| 0 <= i < r.len() implies #[trigger] r[i] < base by {
            assert(r[i] == s[i + 1]);
        }
        lemma_digits_value_bounds(r, base);
        let e = (s.len() - 1) as nat;
        let p = pow(base, e);
        lemma_pow_positive(base, e);
        assert(pow(base, s.len()) == base * p);
        let d = s[0] as int;
        assert(d < base);
        assert(0 <= d * p <= (base - 1) * p) by (nonlinear_arith)
            requires
                0 <= d <= base - 1,
                p > 0,
        ;
        assert((base - 1) * p + p == base * p) by (nonlinear_arith);
    }
}

/// Read as digits in a base above every entry, a lexicographically smaller
/// sequence has the smaller value.
pub proof fn lemma_digits_value_lex(a: Seq<usize>, b: Seq<usize>, k: int, base: int)
    requires
        lex_lt_at(a, b, k),
        base > 0,
        digits_below(a, base),
        digits_below(b, base),
    ensures
        digits_value(a, base) < digits_value(b, base),
    decreases k,
{
    let e = (a.len() - 1) as nat;
    let p = pow(base, e);
    lemma_pow_positive(base, e);
    let ra = a.drop_first();
    let rb = b.drop_first();
    assert forall|i: int| 0 <= i < ra.len() implies #[trigger] ra[i] < base by {
        assert(ra[i] == a[i + 1]);
    }
    assert forall|i: int| 0 <= i < rb.len() implies #[trigger] rb[i] < base by {
        assert(rb[i] == b[i + 1]);
    }
    lemma_digits_value_bounds(ra, base);
    lemma_digits_value_bounds(rb, base);
    if k == 0 {
        let x = a[0] as int;
        let y = b[0] as int;
        assert(x * p + p <= y * p) by (nonlinear_arith)
            requires
                x + 1 <= y,
                p > 0,
        ;
    } else {
        assert(a[0] == b[0]);
        assert forall|i: int| 0 <= i < k - 1 implies #[trigger] ra[i] == #[trigger] rb[i] by {
            assert(a[i + 1] == b[i + 1]);
        }
        assert(ra[k - 1] == a[k] && rb[k - 1] == b[k]);
        assert(lex_lt_at(ra, rb, k - 1));
        lemma_digits_value_lex(ra, rb, k - 1, base);
    }
}

/// The rearrangement computed by one step of lexicographic enumeration is the
/// immediate successor: `p < q`, and no rearrangement of `p` lies strictly
/// between them.
pub proof fn lemma_immediate_successor(p: Seq<usize>, q: Seq<usize>, pivot: int)
    requires
        p.len() == q.len(),
        values_within(p, q),
        0 <= pivot < p.len() - 1,
        agree_before(p, q, pivot),
        p[pivot] < q[pivot],
        decreasing_from(p, pivot + 1),
        increasing_from(q, pivot + 1),
        forall|b: int| pivot < b < p.len() && p[b] > p[pivot] ==> #[trigger] p[b] >= q[pivot],
    ensures
        lex_lt(p, q),
        forall|r: Seq<usize>| is_rearrangement(r, p) && #[trigger] lex_lt(p, r) ==> !lex_lt(r, q),
{
    assert(lex_lt_at(p, q, pivot));
    assert forall|r: Seq<usize>| is_rearrangement(r, p) && #[trigger] lex_lt(p, r) implies !lex_lt(r, q) by {
        let k = choose|k: int| lex_lt_at(p, r, k);
        if k > pivot {
            lemma_decreasing_is_greatest(p, r, k);
        } else if k == pivot {
            let m = lemma_value_origin(p, r, pivot);
            assert(m != pivot);
            assert(r[pivot] >= q[pivot]);
            if lex_lt(r, q) {
                let k2 = choose|k2: int| lex_lt_at(r, q, k2);
                if k2 < pivot {
                    assert(r[k2] == p[k2]);
                } else if k2 > pivot {
                    lemma_values_within_transitive(r, p, q);
                    lemma_increasing_is_least(q, r, k2);
                }
            }
        } else {
            if lex_lt(r, q) {
                let k2 = choose|k2: int| lex_lt_at(r, q, k2);
                if k2 < k {
                    assert(r[k2] == p[k2]);
                    assert(p[k2] == q[k2]);
                } else if k2 == k {
                    assert(p[k] == q[k]);
                } else {
                    assert(r[k] == q[k]);
                    assert(p[k] == q[k]);
                }
            }
        }
    }
}

} // verus!
