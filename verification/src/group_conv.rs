//! Finite groups given by their multiplication tables: cyclic, dihedral and
//! symmetric groups.
use vstd::prelude::*;
use vstd::arithmetic::div_mod::{lemma_add_mod_noop, lemma_mod_add_multiples_vanish, lemma_small_mod};
use vstd::arithmetic::power::pow;
use crate::lex_order::{
    agree_before, decreasing_from, digits_below, digits_value, distinct, is_rearrangement,
    lemma_decreasing_is_greatest, lemma_digits_value_bounds, lemma_digits_value_lex,
    lemma_immediate_successor, lemma_increasing_is_least, lemma_lex_irreflexive, lemma_lex_total,
    lemma_lex_transitive, lemma_permutations_are_rearrangements, lemma_rearrangement_of_permutation,
    lemma_rearrangement_reflexive,
    lemma_rearrangement_transitive, lemma_reverse_tail_is_rearrangement,
    lemma_swap_is_rearrangement, lex_lt, lex_lt_at,
};
use crate::permutation::{
    compose_seq, factorial, identity_seq, insertion_list, is_permutation,
    lemma_compose_is_permutation, lemma_identity_is_permutation, lemma_insertion_list, occurs,
};

verus! {

/// A finite group represented by its multiplication table.
#[derive(Clone, Debug)]
pub struct FiniteGroup {
    /// Number of elements; elements are the indices `0..order`.
    pub order: usize,
    /// Multiplication table: `table[i][j]` is the index of `i·j`.
    pub table: Vec<Vec<usize>>,
    /// Inverse table: `inv[i]` is the index of `i⁻¹`.
    pub inv: Vec<usize>,
}

impl FiniteGroup {
    /// The product `a·b` read from the table.
    pub open spec fn op(self, a: int, b: int) -> int {
        self.table@[a]@[b] as int
    }

    /// The inverse of `a` read from the inverse table.
    pub open spec fn inv_of(self, a: int) -> int {
        self.inv@[a] as int
    }

    /// The table is `order × order` and the inverse table has `order` entries.
    pub open spec fn well_formed(self) -> bool {
        &&& self.table@.len() == self.order
        &&& self.inv@.len() == self.order
        &&& forall|a: int| 0 <= a < self.order ==> (#[trigger] self.table@[a])@.len() == self.order
    }

    /// Every product and every inverse is again an element.
    pub open spec fn closed(self) -> bool {
        &&& forall|a: int, b: int|
            0 <= a < self.order && 0 <= b < self.order ==> 0 <= #[trigger] self.op(a, b) < self.order
        &&& forall|a: int| 0 <= a < self.order ==> 0 <= #[trigger] self.inv_of(a) < self.order
    }

    /// Element `0` is a two-sided identity.
    pub open spec fn has_identity(self) -> bool {
        forall|a: int|
            0 <= a < self.order ==> #[trigger] self.op(0, a) == a && self.op(a, 0) == a
    }

    /// `inv[a]` is a two-sided inverse of `a`.
    pub open spec fn has_inverses(self) -> bool {
        forall|a: int|
            0 <= a < self.order ==> #[trigger] self.op(a, self.inv_of(a)) == 0 && self.op(
                self.inv_of(a),
                a,
            ) == 0
    }

    /// The multiplication is associative.
    pub open spec fn is_associative(self) -> bool {
        forall|a: int, b: int, c: int|
            0 <= a < self.order && 0 <= b < self.order && 0 <= c < self.order ==> #[trigger] self.op(
                self.op(a, b),
                c,
            ) == #[trigger] self.op(a, self.op(b, c))
    }

    /// The tables describe a group with identity `0`.
    pub open spec fn is_group(self) -> bool {
        &&& self.well_formed()
        &&& self.order > 0
        &&& self.closed()
        &&& self.has_identity()
        &&& self.has_inverses()
        &&& self.is_associative()
    }

    /// The tables are those of the cyclic group `Z_n`.
    pub open spec fn is_cyclic_of(self, n: nat) -> bool {
        &&& self.order == n
        &&& self.well_formed()
        &&& forall|i: int, j: int| 0 <= i < n && 0 <= j < n ==> #[trigger] self.op(i, j) == (i + j) % (n as int)
        &&& forall|i: int| 0 <= i < n ==> #[trigger] self.inv_of(i) == (n - i) % (n as int)
    }

    /// Cyclic group `Z_n`: `table[i][j] = (i + j) mod n`, `inv[i] = (n - i) mod n`.
    pub fn cyclic(n: usize) -> (g: Self)
        ensures
            g.is_cyclic_of(n as nat),
            n > 0 ==> g.is_group(),
    {
        let mut table: Vec<Vec<usize>> = Vec::new();
        let mut i: usize = 0;
        while i < n
            invariant
                i <= n,
                table@.len() == i,
                forall|a: int, b: int|
                    0 <= a < i && 0 <= b < n ==> (#[trigger] table@[a]@[b]) as int == (a + b) % (n as int),
                forall|a: int| 0 <= a < i ==> (#[trigger] table@[a])@.len() == n,
            decreases n - i,
        {
            let mut row: Vec<usize> = Vec::new();
            let mut j: usize = 0;
            while j < n
                invariant
                    i < n,
                    j <= n,
                    row@.len() == j,
                    forall|b: int| 0 <= b < j ==> (#[trigger] row@[b]) as int == (i + b) % (n as int),
                decreases n - j,
            {
                let v: usize = if j < n - i {
                    proof {
                        lemma_small_mod((i + j) as nat, n as nat);
                    }
                    i + j
                } else {
                    proof {
                        lemma_mod_add_multiples_vanish(i + j - n, n as int);
                        lemma_small_mod((i + j - n) as nat, n as nat);
                    }
                    j - (n - i)
                };
                row.push(v);
                j = j + 1;
            }
            table.push(row);
            i = i + 1;
        }
        let mut inv: Vec<usize> = Vec::new();
        let mut k: usize = 0;
        while k < n
            invariant
                k <= n,
                inv@.len() == k,
                forall|a: int| 0 <= a < k ==> (#[trigger] inv@[a]) as int == (n - a) % (n as int),
            decreases n - k,
        {
            let v: usize = if k == 0 {
                proof {
                    vstd::arithmetic::div_mod::lemma_mod_self_0(n as int);
                }
                0
            } else {
                proof {
                    lemma_small_mod((n - k) as nat, n as nat);
                }
                n - k
            };
            inv.push(v);
            k = k + 1;
        }
        let g = FiniteGroup { order: n, table, inv };
        proof {
            if n > 0 {
                lemma_cyclic_is_group(g, n as nat);
            }
        }
        g
    }
    /// Multiply two elements: the table entry `table[a][b]`.
    pub fn multiply(&self, a: usize, b: usize) -> (r: usize)
        requires
            a < self.table@.len(),
            b < self.table@[a as int]@.len(),
        ensures
            r as int == self.op(a as int, b as int),
    {
        self.table[a][b]
    }

    /// The inverse of an element: the entry `inv[a]`.
    pub fn inverse(&self, a: usize) -> (r: usize)
        requires
            a < self.inv@.len(),
        ensures
            r as int == self.inv_of(a as int),
    {
        self.inv[a]
    }

    /// The identity element, which is `0` in every construction here.
    pub fn identity(&self) -> (r: usize)
        ensures
            r == 0,
    {
        0
    }

    /// The tables are those built for the dihedral group of the regular `n`-gon:
    /// elements `0..n` are rotations, `n..2n` reflections.
    pub open spec fn is_dihedral_of(self, n: nat) -> bool {
        &&& self.order == 2 * n
        &&& self.well_formed()
        &&& forall|i: int, j: int|
            0 <= i < 2 * n && 0 <= j < 2 * n ==> #[trigger] self.op(i, j) == dihedral_product(n as int, i, j)
        &&& forall|i: int| 0 <= i < 2 * n ==> #[trigger] self.inv_of(i) == dihedral_inverse(n as int, i)
    }

    /// Dihedral group `D_n` (symmetries of the regular `n`-gon), with rotations
    /// `0..n` and reflections `n..2n`.
    pub fn dihedral(n: usize) -> (g: Self)
        requires
            n <= usize::MAX / 2,
        ensures
            g.is_dihedral_of(n as nat),
            n > 0 ==> g.is_group(),
    {
        let order = 2 * n;
        let mut table: Vec<Vec<usize>> = Vec::new();
        let mut i: usize = 0;
        while i < order
            invariant
                order == 2 * n,
                n <= usize::MAX / 2,
                i <= order,
                table@.len() == i,
                forall|a: int, b: int|
                    0 <= a < i && 0 <= b < order ==> (#[trigger] table@[a]@[b]) as int == dihedral_product(n as int, a, b),
                forall|a: int| 0 <= a < i ==> (#[trigger] table@[a])@.len() == order,
            decreases order - i,
        {
            let mut row: Vec<usize> = Vec::new();
            let mut j: usize = 0;
            while j < order
                invariant
                    order == 2 * n,
                    n <= usize::MAX / 2,
                    i < order,
                    j <= order,
                    row@.len() == j,
                    forall|b: int| 0 <= b < j ==> (#[trigger] row@[b]) as int == dihedral_product(n as int, i as int, b),
                decreases order - j,
            {
                let i_rot = i < n;
                let j_rot = j < n;
                let ii = i % n;
                let jj = j % n;
                proof {
                    lemma_mod_add_multiples_vanish(ii - jj, n as int);
                }
                let v: usize = if i_rot && j_rot {
                    (ii + jj) % n
                } else if i_rot && !j_rot {
                    n + (ii + jj) % n
                } else if !i_rot && j_rot {
                    n + (n + ii - jj) % n
                } else {
                    (n + ii - jj) % n
                };
                row.push(v);
                j = j + 1;
            }
            table.push(row);
            i = i + 1;
        }
        let mut inv: Vec<usize> = Vec::new();
        let mut k: usize = 0;
        while k < n
            invariant
                k <= n,
                n <= usize::MAX / 2,
                inv@.len() == k,
                forall|a: int| 0 <= a < k ==> (#[trigger] inv@[a]) as int == dihedral_inverse(n as int, a),
            decreases n - k,
        {
            inv.push((n - k) % n);
            k = k + 1;
        }
        let mut k: usize = 0;
        while k < n
            invariant
                k <= n,
                n <= usize::MAX / 2,
                inv@.len() == n + k,
                forall|a: int| 0 <= a < n + k ==> (#[trigger] inv@[a]) as int == dihedral_inverse(n as int, a),
            decreases n - k,
        {
            inv.push(n + k);
            k = k + 1;
        }
        let g = FiniteGroup { order, table, inv };
        proof {
            if n > 0 {
                lemma_dihedral_is_group(g, n as nat);
            }
        }
        g
    }
    /// Rearranges the distinct values in `p` into the next arrangement in
    /// lexicographic order and returns `true`, or leaves `p` unchanged and
    /// returns `false` when `p` is already the last (decreasing) one.
    fn next_permutation(p: &mut Vec<usize>) -> (found: bool)
        requires
            distinct(old(p)@),
        ensures
            is_rearrangement(final(p)@, old(p)@),
            found <==> !decreasing_from(old(p)@, 0),
            !found ==> final(p)@ == old(p)@,
            found ==> lex_lt(old(p)@, final(p)@),
            found ==> forall|r: Seq<usize>|
                is_rearrangement(r, old(p)@) && #[trigger] lex_lt(old(p)@, r) ==> !lex_lt(r, final(p)@),
    {
        let ghost orig = p@;
        let n = p.len();
        proof {
            lemma_rearrangement_reflexive(orig);
        }
        if n == 0 {
            return false;
        }
        let mut i: usize = n - 1;
        while i > 0 && p[i - 1] > p[i]
            invariant
                i < n,
                n == p@.len(),
                p@ == orig,
                decreasing_from(orig, i as int),
            decreases i,
        {
            i = i - 1;
        }
        if i == 0 {
            return false;
        }
        let pivot = i - 1;
        assert(orig[pivot as int] < orig[i as int]) by {
            assert(orig[pivot as int] != orig[i as int]);
        }
        let mut j: usize = n - 1;
        while p[j] < p[pivot]
            invariant
                pivot < i <= j < n,
                n == p@.len(),
                p@ == orig,
                orig[pivot as int] < orig[i as int],
                forall|b: int| j < b < n ==> #[trigger] orig[b] < orig[pivot as int],
            decreases j,
        {
            j = j - 1;
        }
        assert(orig[j as int] > orig[pivot as int]) by {
            assert(orig[j as int] != orig[pivot as int]);
        }
        let vp = p[pivot];
        let vj = p[j];
        p.set(pivot, vj);
        p.set(j, vp);
        let ghost s = p@;
        proof {
            assert(s == orig.update(pivot as int, orig[j as int]).update(j as int, orig[pivot as int]));
            lemma_swap_is_rearrangement(orig, pivot as int, j as int);
            assert forall|x: int, y: int| i <= x < y < n implies #[trigger] s[x] > #[trigger] s[y] by {
                if x == j {
                    assert(orig[y] < orig[pivot as int]);
                } else if y == j {
                    assert(orig[x] > orig[j as int]);
                } else {
                    assert(orig[x] > orig[y]);
                }
            }
        }
        let mut lo: usize = i;
        let mut hi: usize = n - 1;
        while lo < hi
            invariant
                i <= lo,
                lo <= hi + 1,
                hi < n,
                lo + hi == i + n - 1,
                p@.len() == n,
                forall|t: int| 0 <= t < i ==> #[trigger] p@[t] == s[t],
                forall|t: int| i <= t < lo ==> #[trigger] p@[t] == s[i + n - 1 - t],
                forall|t: int| hi < t < n ==> #[trigger] p@[t] == s[i + n - 1 - t],
                forall|t: int| lo <= t <= hi ==> #[trigger] p@[t] == s[t],
            decreases hi + 1 - lo,
        {
            let a = p[lo];
            let b = p[hi];
            p.set(lo, b);
            p.set(hi, a);
            lo = lo + 1;
            hi = hi - 1;
        }
        proof {
            let q = p@;
            assert forall|t: int| i <= t < n implies q[t] == s[i + n - 1 - t] by {
                if lo <= t <= hi {
                    assert(t == i + n - 1 - t);
                }
            }
            lemma_reverse_tail_is_rearrangement(s, q, i as int);
            lemma_rearrangement_transitive(q, s, orig);
            assert forall|x: int, y: int| i <= x < y < n implies #[trigger] q[x] < #[trigger] q[y] by {
                assert(q[x] == s[i + n - 1 - x]);
                assert(q[y] == s[i + n - 1 - y]);
            }
            assert(agree_before(orig, q, pivot as int)) by {
                assert forall|t: int| 0 <= t < pivot implies #[trigger] orig[t] == #[trigger] q[t] by {
                    assert(q[t] == s[t]);
                }
            }
            assert(q[pivot as int] == orig[j as int]);
            assert forall|b: int| pivot < b < n && orig[b] > orig[pivot as int] implies #[trigger] orig[b] >= q[pivot as int] by {
                if b > j {
                    assert(orig[b] < orig[pivot as int]);
                } else if b < j {
                    assert(orig[b] > orig[j as int]);
                }
            }
            lemma_immediate_successor(orig, q, pivot as int);
            assert(!decreasing_from(orig, 0)) by {
                assert(orig[pivot as int] < orig[i as int]);
            }
        }
        true
    }

    /// Every permutation of `0..n`, in lexicographic order, starting from the
    /// identity.
    fn all_permutations(n: usize) -> (perms: Vec<Vec<usize>>)
        ensures
            lists_permutations_in_order(rows(perms@), n as nat),
            perms@.len() > 0,
            rows(perms@)[0] == identity_seq(n as nat),
    {
        let mut p: Vec<usize> = Vec::new();
        let mut k: usize = 0;
        while k < n
            invariant
                k <= n,
                p@ == identity_seq(k as nat),
            decreases n - k,
        {
            p.push(k);
            k = k + 1;
            proof {
                assert(p@ =~= identity_seq(k as nat));
            }
        }
        proof {
            lemma_identity_is_permutation(n as nat);
        }
        let mut perms: Vec<Vec<usize>> = Vec::new();
        let first = p.clone();
        assert(first@ =~= p@);
        perms.push(first);
        proof {
            assert(rows(perms@)[0] == p@);
            assert forall|r: Seq<usize>| r.len() == n && #[trigger] is_permutation(r) && (r == p@ || lex_lt(r, p@)) implies listed(rows(perms@), r) by {
                if lex_lt(r, p@) {
                    lemma_permutations_are_rearrangements(r, p@);
                    lemma_increasing_is_least(p@, r, 0);
                }
                assert(rows(perms@)[0] == r);
            }
        }
        let mut more = true;
        while more
            invariant
                p@.len() == n,
                is_permutation(p@),
                perms@.len() >= 1,
                rows(perms@)[perms@.len() - 1] == p@,
                rows(perms@)[0] == identity_seq(n as nat),
                forall|k: int| 0 <= k < perms@.len() ==> is_permutation(#[trigger] rows(perms@)[k]) && rows(perms@)[k].len() == n,
                forall|a: int, b: int| 0 <= a < b < perms@.len() ==> lex_lt(#[trigger] rows(perms@)[a], #[trigger] rows(perms@)[b]),
                forall|r: Seq<usize>| r.len() == n && #[trigger] is_permutation(r) && (r == p@ || lex_lt(r, p@)) ==> listed(rows(perms@), r),
                !more ==> decreasing_from(p@, 0),
            decreases pow(n as int, n as nat) - digits_value(p@, n as int) + if more { 1int } else { 0int },
        {
            let ghost prev = p@;
            let ghost old_rows = rows(perms@);
            proof {
                assert(digits_below(prev, n as int));
                if n > 0 {
                    lemma_digits_value_bounds(prev, n as int);
                } else {
                    reveal(pow);
                    assert(digits_value(prev, 0) == 0 && pow(0, 0) == 1);
                }
                assert(distinct(prev));
            }
            let found = Self::next_permutation(&mut p);
            if found {
                let c = p.clone();
                assert(c@ =~= p@);
                perms.push(c);
                proof {
                    let nr = rows(perms@);
                    let q = p@;
                    lemma_rearrangement_of_permutation(q, prev);
                    let k0 = choose|k: int| lex_lt_at(prev, q, k);
                    assert(digits_below(q, n as int));
                    lemma_digits_value_lex(prev, q, k0, n as int);
                    lemma_digits_value_bounds(q, n as int);
                    assert(nr.len() == old_rows.len() + 1);
                    assert forall|k: int| 0 <= k < old_rows.len() implies nr[k] == old_rows[k] by {
                    }
                    assert(nr[nr.len() - 1] == q);
                    assert forall|k: int| 0 <= k < perms@.len() implies is_permutation(#[trigger] rows(perms@)[k]) && rows(perms@)[k].len() == n by {
                        if k < old_rows.len() {
                            assert(nr[k] == old_rows[k]);
                        }
                    }
                    assert forall|a: int, b: int| 0 <= a < b < perms@.len() implies lex_lt(#[trigger] rows(perms@)[a], #[trigger] rows(perms@)[b]) by {
                        if b == nr.len() - 1 {
                            if a < old_rows.len() - 1 {
                                assert(lex_lt(old_rows[a], old_rows[old_rows.len() - 1]));
                                lemma_lex_transitive(nr[a], prev, q);
                            }
                        } else {
                            assert(lex_lt(old_rows[a], old_rows[b]));
                        }
                    }
                    assert forall|r: Seq<usize>| r.len() == n && #[trigger] is_permutation(r) && (r == q || lex_lt(r, q)) implies listed(nr, r) by {
                        if r == q {
                            assert(nr[nr.len() - 1] == r);
                        } else {
                            lemma_permutations_are_rearrangements(r, prev);
                            if lex_lt(prev, r) {
                                assert(!lex_lt(r, q));
                            }
                            if r != prev {
                                lemma_lex_total(r, prev);
                            }
                            assert(listed(old_rows, r));
                            let k = choose|k: int| 0 <= k < old_rows.len() && old_rows[k] == r;
                            assert(nr[k] == r);
                        }
                    }
                }
            } else {
                more = false;
            }
        }
        proof {
            assert forall|r: Seq<usize>| r.len() == n && #[trigger] is_permutation(r) implies listed(rows(perms@), r) by {
                if r != p@ {
                    lemma_lex_total(r, p@);
                    lemma_permutations_are_rearrangements(r, p@);
                    lemma_decreasing_is_greatest(p@, r, 0);
                }
            }
        }
        perms
    }

    /// Symmetric group `S_n` (`n <= 5`) of order `n!`: element `i` is the
    /// `i`-th permutation of `0..n` in lexicographic order, `i·j` is the permutation `k ↦ σ_j(σ_i(k))`,
    /// and `inv[i]` is the inverse permutation.
    pub fn symmetric(n: usize) -> (g: Self)
        requires
            n <= 5,
        ensures
            g.is_group(),
            g.order == factorial(n as nat),
            exists|ps: Seq<Seq<usize>>| #[trigger] lists_permutations_in_order(ps, n as nat) && g.is_symmetric_over(ps),
    {
        let perms = Self::all_permutations(n);
        let ghost ps = rows(perms@);
        let order = perms.len();
        let mut table: Vec<Vec<usize>> = Vec::new();
        let mut i: usize = 0;
        while i < order
            invariant
                order == perms@.len(),
                ps == rows(perms@),
                lists_permutations_in_order(ps, n as nat),
                i <= order,
                table@.len() == i,
                forall|a: int| 0 <= a < i ==> (#[trigger] table@[a])@.len() == order,
                forall|a: int, b: int|
                    0 <= a < i && 0 <= b < order ==> (#[trigger] table@[a]@[b]) < order && ps[table@[a]@[b] as int] == compose_seq(ps[b], ps[a]),
            decreases order - i,
        {
            let mut row: Vec<usize> = Vec::new();
            let mut j: usize = 0;
            while j < order
                invariant
                    order == perms@.len(),
                    ps == rows(perms@),
                    lists_permutations_in_order(ps, n as nat),
                    i < order,
                    j <= order,
                    row@.len() == j,
                    forall|b: int| 0 <= b < j ==> (#[trigger] row@[b]) < order && ps[row@[b] as int] == compose_seq(ps[b], ps[i as int]),
                decreases order - j,
            {
                let pi = &perms[i];
                let pj = &perms[j];
                assert(pi@ == ps[i as int]);
                assert(pj@ == ps[j as int]);
                let mut composed: Vec<usize> = Vec::new();
                let mut k: usize = 0;
                while k < pi.len()
                    invariant
                        pi@ == ps[i as int],
                        pj@ == ps[j as int],
                        is_permutation(pi@),
                        is_permutation(pj@),
                        pi@.len() == n,
                        pj@.len() == n,
                        k <= pi@.len(),
                        composed@.len() == k,
                        forall|t: int| 0 <= t < k ==> #[trigger] composed@[t] == pj@[pi@[t] as int],
                    decreases pi@.len() - k,
                {
                    composed.push(pj[pi[k]]);
                    k = k + 1;
                }
                proof {
                    assert(composed@ =~= compose_seq(pj@, pi@));
                    lemma_compose_is_permutation(pj@, pi@);
                }
                let idx = Self::position_of(&perms, &composed);
                row.push(idx);
                j = j + 1;
            }
            table.push(row);
            i = i + 1;
        }
        let mut inv: Vec<usize> = Vec::new();
        let mut i: usize = 0;
        while i < order
            invariant
                order == perms@.len(),
                ps == rows(perms@),
                lists_permutations_in_order(ps, n as nat),
                i <= order,
                inv@.len() == i,
                forall|a: int| 0 <= a < i ==> (#[trigger] inv@[a]) < order && compose_seq(ps[inv@[a] as int], ps[a]) == identity_seq(n as nat),
            decreases order - i,
        {
            let p = &perms[i];
            assert(p@ == ps[i as int]);
            let mut p_inv: Vec<usize> = Vec::new();
            let mut k: usize = 0;
            while k < n
                invariant
                    k <= n,
                    p_inv@.len() == k,
                    forall|t: int| 0 <= t < k ==> #[trigger] p_inv@[t] == 0,
                decreases n - k,
            {
                p_inv.push(0);
                k = k + 1;
            }
            let mut k: usize = 0;
            while k < p.len()
                invariant
                    p@ == ps[i as int],
                    is_permutation(p@),
                    p@.len() == n,
                    p_inv@.len() == n,
                    k <= n,
                    forall|m: int| 0 <= m < k ==> #[trigger] p_inv@[p@[m] as int] == m,
                decreases n - k,
            {
                let v = p[k];
                p_inv.set(v, k);
                proof {
                    assert forall|m: int| 0 <= m < k + 1 implies #[trigger] p_inv@[p@[m] as int] == m by {
                        if m < k {
                            assert(p@[m] != p@[k as int]);
                        }
                    }
                }
                k = k + 1;
            }
            proof {
                let q = p_inv@;
                let pp = p@;
                assert forall|t: int| 0 <= t < q.len() implies (#[trigger] q[t]) < q.len() by {
                    assert(occurs(pp, t));
                    let m = choose|m: int| 0 <= m < pp.len() && pp[m] as int == t;
                    assert(q[pp[m] as int] == m);
                }
                assert forall|a: int, b: int| 0 <= a < q.len() && 0 <= b < q.len() && a != b implies #[trigger] q[a] != #[trigger] q[b] by {
                    assert(occurs(pp, a));
                    assert(occurs(pp, b));
                    let ma = choose|m: int| 0 <= m < pp.len() && pp[m] as int == a;
                    let mb = choose|m: int| 0 <= m < pp.len() && pp[m] as int == b;
                    assert(q[pp[ma] as int] == ma);
                    assert(q[pp[mb] as int] == mb);
                }
                assert forall|v: int| 0 <= v < q.len() implies #[trigger] occurs(q, v) by {
                    assert(q[pp[v] as int] == v);
                }
                assert(is_permutation(q));
                assert(compose_seq(q, pp) =~= identity_seq(n as nat)) by {
                    assert forall|t: int| 0 <= t < n implies #[trigger] compose_seq(q, pp)[t] == identity_seq(n as nat)[t] by {
                        assert(q[pp[t] as int] == t);
                    }
                }
            }
            let idx = Self::position_of(&perms, &p_inv);
            inv.push(idx);
            i = i + 1;
        }
        let g = FiniteGroup { order, table, inv };
        proof {
            assert(g.is_symmetric_over(ps));
            lemma_symmetric_is_group(g, ps, n as nat);
            lemma_permutation_count(ps, n as nat);
        }
        g
    }

    /// The index of `target` in `perms`, which must occur there.
    fn position_of(perms: &Vec<Vec<usize>>, target: &Vec<usize>) -> (idx: usize)
        requires
            listed(rows(perms@), target@),
        ensures
            idx < perms@.len(),
            perms@[idx as int]@ == target@,
    {
        let mut k: usize = 0;
        while k < perms.len()
            invariant
                k <= perms@.len(),
                listed(rows(perms@), target@),
                forall|m: int| 0 <= m < k ==> #[trigger] rows(perms@)[m] != target@,
            decreases perms@.len() - k,
        {
            if same_entries(&perms[k], target) {
                assert(rows(perms@)[k as int] == perms@[k as int]@);
                return k;
            }
            assert(rows(perms@)[k as int] == perms@[k as int]@);
            k = k + 1;
        }
        proof {
            let m = choose|m: int| 0 <= m < rows(perms@).len() && rows(perms@)[m] == target@;
            assert(rows(perms@)[m] != target@);
        }
        0
    }

    /// The tables are those of the symmetric group over the lexicographic list
    /// `ps` of permutations: `ps[i·j]` is `ps[j] ∘ ps[i]` and `ps[inv[i]] ∘ ps[i]`
    /// is the identity.
    pub open spec fn is_symmetric_over(self, ps: Seq<Seq<usize>>) -> bool {
        &&& self.order == ps.len()
        &&& self.well_formed()
        &&& forall|a: int, b: int|
            0 <= a < self.order && 0 <= b < self.order ==> 0 <= #[trigger] self.op(a, b) < self.order
                && ps[self.op(a, b)] == compose_seq(ps[b], ps[a])
        &&& forall|a: int|
            0 <= a < self.order ==> 0 <= #[trigger] self.inv_of(a) < self.order && compose_seq(
                ps[self.inv_of(a)],
                ps[a],
            ) == identity_seq(ps[a].len())
    }

}

/// The views of the rows of a table.
pub open spec fn rows(v: Seq<Vec<usize>>) -> Seq<Seq<usize>> {
    v.map_values(|r: Vec<usize>| r@)
}

/// `r` is one of the entries of `ps`.
pub open spec fn listed(ps: Seq<Seq<usize>>, r: Seq<usize>) -> bool {
    exists|k: int| 0 <= k < ps.len() && ps[k] == r
}

/// `ps` lists every permutation of `0..n`, in strictly increasing
/// lexicographic order (so each exactly once).
pub open spec fn lists_permutations_in_order(ps: Seq<Seq<usize>>, n: nat) -> bool {
    &&& forall|k: int| 0 <= k < ps.len() ==> is_permutation(#[trigger] ps[k]) && ps[k].len() == n
    &&& forall|a: int, b: int| 0 <= a < b < ps.len() ==> lex_lt(#[trigger] ps[a], #[trigger] ps[b])
    &&& forall|r: Seq<usize>| r.len() == n && #[trigger] is_permutation(r) ==> listed(ps, r)
}

/// Law: a strictly increasing lexicographic list of every permutation of
/// `0..n` has exactly `n!` entries.
pub proof fn lemma_permutation_count(ps: Seq<Seq<usize>>, n: nat)
    requires
        n <= usize::MAX,
        lists_permutations_in_order(ps, n),
    ensures
        ps.len() == factorial(n),
{
    let list = insertion_list(n);
    lemma_insertion_list(n);
    assert forall|a: int, b: int| 0 <= a < ps.len() && 0 <= b < ps.len() && a != b implies ps[a] != ps[b] by {
        lemma_lex_irreflexive(ps[a]);
        if a < b {
            assert(lex_lt(ps[a], ps[b]));
        } else {
            assert(lex_lt(ps[b], ps[a]));
        }
    }
    assert(ps.no_duplicates());
    assert forall|r: Seq<usize>| ps.to_set().contains(r) <==> list.to_set().contains(r) by {
        if ps.contains(r) {
            let k = choose|k: int| 0 <= k < ps.len() && ps[k] == r;
            assert(is_permutation(ps[k]) && ps[k].len() == n);
            assert(list.contains(r));
        }
        if list.contains(r) {
            let k = choose|k: int| 0 <= k < list.len() && list[k] == r;
            assert(is_permutation(list[k]) && list[k].len() == n);
            assert(listed(ps, r));
        }
    }
    assert(ps.to_set() =~= list.to_set());
    ps.unique_seq_to_set();
    list.unique_seq_to_set();
}

/// Entry-by-entry equality of two index vectors.
fn same_entries(a: &Vec<usize>, b: &Vec<usize>) -> (r: bool)
    ensures
        r == (a@ == b@),
{
    if a.len() != b.len() {
        return false;
    }
    let mut k: usize = 0;
    while k < a.len()
        invariant
            a@.len() == b@.len(),
            k <= a@.len(),
            forall|t: int| 0 <= t < k ==> a@[t] == b@[t],
        decreases a@.len() - k,
    {
        if a[k] != b[k] {
            return false;
        }
        k = k + 1;
    }
    assert(a@ =~= b@);
    true
}

/// Law: for every `n <= 5`, the symmetric-group tables over the lexicographic
/// list of permutations of `0..n` form a group with identity `0`.
pub proof fn lemma_symmetric_is_group(g: FiniteGroup, ps: Seq<Seq<usize>>, n: nat)
    requires
        n <= usize::MAX,
        lists_permutations_in_order(ps, n),
        ps.len() > 0,
        ps[0] == identity_seq(n),
        g.is_symmetric_over(ps),
    ensures
        g.is_group(),
{
    assert forall|a: int, b: int| 0 <= a < ps.len() && 0 <= b < ps.len() && ps[a] == ps[b] implies a == b by {
        if a < b {
            assert(lex_lt(ps[a], ps[b]));
            lemma_lex_irreflexive(ps[a]);
        } else if b < a {
            assert(lex_lt(ps[b], ps[a]));
            lemma_lex_irreflexive(ps[a]);
        }
    }
    assert(g.closed());
    assert forall|a: int| 0 <= a < g.order implies #[trigger] g.op(0, a) == a && g.op(a, 0) == a by {
        let pa = ps[a];
        assert(is_permutation(pa) && pa.len() == n);
        assert forall|k: int| 0 <= k < n implies #[trigger] compose_seq(pa, ps[0])[k] == pa[k] by {
            assert(ps[0][k] == k as usize);
        }
        assert forall|k: int| 0 <= k < n implies #[trigger] compose_seq(ps[0], pa)[k] == pa[k] by {
            assert(pa[k] < n);
            assert(ps[0][pa[k] as int] == pa[k]);
        }
        assert(compose_seq(pa, ps[0]) =~= pa);
        assert(compose_seq(ps[0], pa) =~= pa);
    }
    assert forall|a: int| 0 <= a < g.order implies #[trigger] g.op(a, g.inv_of(a)) == 0 && g.op(g.inv_of(a), a) == 0 by {
        let pa = ps[a];
        let qa = ps[g.inv_of(a)];
        assert(is_permutation(pa) && pa.len() == n);
        assert(is_permutation(qa) && qa.len() == n);
        assert(compose_seq(qa, pa) == identity_seq(n));
        assert(ps[g.op(a, g.inv_of(a))] == compose_seq(qa, pa));
        assert(compose_seq(pa, qa) =~= identity_seq(n)) by {
            assert forall|t: int| 0 <= t < n implies #[trigger] compose_seq(pa, qa)[t] == identity_seq(n)[t] by {
                assert(occurs(pa, t));
                let m = choose|m: int| 0 <= m < pa.len() && pa[m] as int == t;
                assert(compose_seq(qa, pa)[m] == identity_seq(n)[m]);
                assert(qa[t] as int == m);
                assert(compose_seq(pa, qa)[t] == pa[qa[t] as int]);
            }
        }
        assert(ps[g.op(g.inv_of(a), a)] == compose_seq(pa, qa));
        assert(ps[g.op(g.inv_of(a), a)] == ps[0]);
        assert(ps[g.op(a, g.inv_of(a))] == ps[0]);
        assert(g.op(a, g.inv_of(a)) == 0);
        assert(g.op(g.inv_of(a), a) == 0);
    }
    assert forall|a: int, b: int, c: int|
        0 <= a < g.order && 0 <= b < g.order && 0 <= c < g.order implies #[trigger] g.op(g.op(a, b), c) == #[trigger] g.op(a, g.op(b, c)) by {
        let ab = g.op(a, b);
        let bc = g.op(b, c);
        assert(ps[g.op(ab, c)] == compose_seq(ps[c], ps[ab]));
        assert(ps[g.op(a, bc)] == compose_seq(ps[bc], ps[a]));
        assert(ps[ab] == compose_seq(ps[b], ps[a]));
        assert(ps[bc] == compose_seq(ps[c], ps[b]));
        assert(compose_seq(ps[c], compose_seq(ps[b], ps[a])) =~= compose_seq(compose_seq(ps[c], ps[b]), ps[a]));
    }
}

/// The product in `D_n`. Element `k < n` is the rotation `r_k`, element
/// `n + k` the reflection `s_k = r_k s`. A rotation multiplies the rotation
/// parts by adding them, a reflection by subtracting the second from the
/// first, both mod `n`; the product is a reflection when exactly one factor is:
/// `r_i r_j = r_{i+j}`, `r_i s_j = s_{i+j}`, `s_i r_j = s_{i-j}`, `s_i s_j = r_{i-j}`.
pub open spec fn dihedral_product(n: int, i: int, j: int) -> int {
    let k = if i < n {
        (i % n + j % n) % n
    } else {
        (i % n - j % n) % n
    };
    if (i < n) == (j < n) {
        k
    } else {
        n + k
    }
}

/// The inverse in `D_n`: `r_i⁻¹ = r_{n-i}`, reflections are their own inverse.
pub open spec fn dihedral_inverse(n: int, i: int) -> int {
    if i < n {
        (n - i) % n
    } else {
        i
    }
}

/// An element of `0..2n` is fixed by its rotation part and whether it is a reflection.
proof fn lemma_dihedral_element(n: int, e: int)
    requires
        n > 0,
        0 <= e < 2 * n,
    ensures
        0 <= e % n < n,
        e == if e >= n { n + e % n } else { e % n },
{
    if e < n {
        lemma_small_mod(e as nat, n as nat);
    } else {
        lemma_mod_add_multiples_vanish(e - n, n);
        lemma_small_mod((e - n) as nat, n as nat);
    }
}

/// The rotation part and the reflection bit of a product.
proof fn lemma_dihedral_product_parts(n: int, i: int, j: int)
    requires
        n > 0,
        0 <= i < 2 * n,
        0 <= j < 2 * n,
    ensures
        0 <= dihedral_product(n, i, j) < 2 * n,
        dihedral_product(n, i, j) % n == if i < n {
            (i % n + j % n) % n
        } else {
            (i % n - j % n) % n
        },
        (dihedral_product(n, i, j) >= n) == ((i < n) != (j < n)),
{
    let k = if i < n {
        (i % n + j % n) % n
    } else {
        (i % n - j % n) % n
    };
    lemma_small_mod(k as nat, n as nat);
    lemma_mod_add_multiples_vanish(k, n);
}

/// Law: for every `n > 0`, the dihedral tables form a group with identity `0`.
pub proof fn lemma_dihedral_is_group(g: FiniteGroup, n: nat)
    requires
        g.is_dihedral_of(n),
        n > 0,
    ensures
        g.is_group(),
{
    let m = n as int;
    assert forall|a: int, b: int| 0 <= a < g.order && 0 <= b < g.order implies 0 <= #[trigger] g.op(a, b) < g.order by {
        lemma_dihedral_product_parts(m, a, b);
    }
    assert forall|a: int| 0 <= a < g.order implies 0 <= #[trigger] g.inv_of(a) < g.order by {
    }
    assert forall|a: int| 0 <= a < g.order implies #[trigger] g.op(0, a) == a && g.op(a, 0) == a by {
        lemma_small_mod(0, n);
        lemma_dihedral_element(m, a);
        lemma_dihedral_product_parts(m, 0, a);
        lemma_dihedral_product_parts(m, a, 0);
        vstd::arithmetic::div_mod::lemma_mod_twice(a, m);
        lemma_dihedral_element(m, g.op(0, a));
        lemma_dihedral_element(m, g.op(a, 0));
    }
    assert forall|a: int| 0 <= a < g.order implies #[trigger] g.op(a, g.inv_of(a)) == 0 && g.op(g.inv_of(a), a) == 0 by {
        let i = g.inv_of(a);
        vstd::arithmetic::div_mod::lemma_mod_self_0(m);
        lemma_small_mod(0, n);
        lemma_dihedral_element(m, a);
        lemma_dihedral_element(m, i);
        lemma_dihedral_product_parts(m, a, i);
        lemma_dihedral_product_parts(m, i, a);
        lemma_dihedral_element(m, g.op(a, i));
        lemma_dihedral_element(m, g.op(i, a));
        if a < m {
            lemma_small_mod(a as nat, n);
            if a > 0 {
                lemma_small_mod((m - a) as nat, n);
            }
            assert(i % m == (m - a) % m);
        }
    }
    assert forall|a: int, b: int, c: int|
        0 <= a < g.order && 0 <= b < g.order && 0 <= c < g.order implies #[trigger] g.op(g.op(a, b), c) == #[trigger] g.op(a, g.op(b, c)) by {
        lemma_dihedral_associative(m, a, b, c);
    }
}

/// The dihedral product is associative.
proof fn lemma_dihedral_associative(n: int, a: int, b: int, c: int)
    requires
        n > 0,
        0 <= a < 2 * n,
        0 <= b < 2 * n,
        0 <= c < 2 * n,
    ensures
        dihedral_product(n, dihedral_product(n, a, b), c) == dihedral_product(n, a, dihedral_product(n, b, c)),
{
    let ab = dihedral_product(n, a, b);
    let bc = dihedral_product(n, b, c);
    lemma_dihedral_product_parts(n, a, b);
    lemma_dihedral_product_parts(n, b, c);
    lemma_dihedral_product_parts(n, ab, c);
    lemma_dihedral_product_parts(n, a, bc);
    let e1 = dihedral_product(n, ab, c);
    let e2 = dihedral_product(n, a, bc);
    lemma_dihedral_element(n, e1);
    lemma_dihedral_element(n, e2);
    let x = a % n;
    let y = b % n;
    let z = c % n;
    lemma_dihedral_element(n, a);
    lemma_dihedral_element(n, b);
    lemma_dihedral_element(n, c);
    vstd::arithmetic::div_mod::lemma_mod_twice(c, n);
    vstd::arithmetic::div_mod::lemma_mod_twice(b, n);
    lemma_add_mod_noop(x + y, z, n);
    lemma_add_mod_noop(x - y, z, n);
    vstd::arithmetic::div_mod::lemma_sub_mod_noop(x + y, z, n);
    vstd::arithmetic::div_mod::lemma_sub_mod_noop(x - y, z, n);
    vstd::arithmetic::div_mod::lemma_add_mod_noop_right(x, y + z, n);
    vstd::arithmetic::div_mod::lemma_add_mod_noop_right(x, y - z, n);
    vstd::arithmetic::div_mod::lemma_sub_mod_noop_right(x, y + z, n);
    vstd::arithmetic::div_mod::lemma_sub_mod_noop_right(x, y - z, n);
    assert(e1 % n == e2 % n) by {
        if a < n && b < n {
            assert(e1 % n == ((x + y) % n + z) % n);
            assert(e2 % n == (x + (y + z) % n) % n);
            assert(x + y + z == x + (y + z));
        } else if a < n {
            assert(e1 % n == ((x + y) % n - z) % n);
            assert(e2 % n == (x + (y - z) % n) % n);
            assert(x + y - z == x + (y - z));
        } else if b < n {
            assert(e1 % n == ((x - y) % n - z) % n);
            assert(e2 % n == (x - (y + z) % n) % n);
            assert(x - y - z == x - (y + z));
        } else {
            assert(e1 % n == ((x - y) % n + z) % n);
            assert(e2 % n == (x - (y - z) % n) % n);
            assert(x - y + z == x - (y - z));
        }
    }
}

/// Law: for every `n > 0`, the cyclic tables of `Z_n` form a group with
/// identity `0` (closure, two-sided identity, two-sided inverses, associativity).
pub proof fn lemma_cyclic_is_group(g: FiniteGroup, n: nat)
    requires
        g.is_cyclic_of(n),
        n > 0,
    ensures
        g.is_group(),
{
    let m = n as int;
    assert forall|a: int, b: int| 0 <= a < n && 0 <= b < n implies 0 <= #[trigger] g.op(a, b) < n by {
    }
    assert forall|a: int| 0 <= a < n implies 0 <= #[trigger] g.inv_of(a) < n by {
    }
    assert forall|a: int| 0 <= a < n implies #[trigger] g.op(0, a) == a && g.op(a, 0) == a by {
        lemma_small_mod(a as nat, n);
    }
    assert forall|a: int| 0 <= a < n implies #[trigger] g.op(a, g.inv_of(a)) == 0 && g.op(g.inv_of(a), a) == 0 by {
        if a == 0 {
            vstd::arithmetic::div_mod::lemma_mod_self_0(m);
            lemma_small_mod(0, n);
        } else {
            lemma_small_mod((n - a) as nat, n);
            vstd::arithmetic::div_mod::lemma_mod_self_0(m);
        }
    }
    assert forall|a: int, b: int, c: int|
        0 <= a < n && 0 <= b < n && 0 <= c < n implies #[trigger] g.op(g.op(a, b), c) == #[trigger] g.op(a, g.op(b, c)) by {
        lemma_add_mod_noop(a + b, c, m);
        lemma_add_mod_noop(a, b + c, m);
        lemma_small_mod(a as nat, n);
        lemma_small_mod(c as nat, n);
        assert((a + b) % m + c == (a + b) % m + c % m);
        assert(a + (b + c) % m == a % m + (b + c) % m);
        assert((a + b + c) == (a + (b + c)));
    }
}

} // verus!
