//! Which pairs of agents are joined by an edge of positive weight, and the
//! structural queries on it: neighbours, edge counts and connectivity.
use vstd::prelude::*;
use vstd::arithmetic::div_mod::lemma_small_mod;

verus! {

/// Edge pattern of a graph on `n` agents: `present[i][j]` holds exactly when
/// the edge from `i` to `j` has positive weight.
#[derive(Clone, Debug)]
pub struct EdgePattern {
    pub present: Vec<Vec<bool>>,
}

/// Number of `true` entries of `row` at positions `lo..hi`.
pub open spec fn count_row(row: Seq<bool>, lo: int, hi: int) -> nat
    decreases hi - lo,
{
    if hi <= lo {
        0
    } else {
        count_row(row, lo, hi - 1) + if row[hi - 1] { 1nat } else { 0nat }
    }
}

/// Number of `true` entries of `s`.
pub open spec fn count_true(s: Seq<bool>) -> nat {
    count_row(s, 0, s.len() as int)
}

impl EdgePattern {
    /// Number of agents.
    pub open spec fn n(self) -> nat {
        self.present@.len()
    }

    /// There is an edge from `i` to `j`.
    pub open spec fn edge(self, i: int, j: int) -> bool {
        self.present@[i]@[j]
    }

    /// The pattern is square: `n` rows of `n` entries.
    pub open spec fn well_formed(self) -> bool {
        forall|i: int| 0 <= i < self.n() ==> (#[trigger] self.present@[i])@.len() == self.n()
    }

    /// Edges counted once per unordered pair: the entries on or above the
    /// diagonal in rows `0..k`.
    pub open spec fn upper_count(self, k: int) -> nat
        decreases k,
    {
        if k <= 0 {
            0
        } else {
            self.upper_count(k - 1) + count_row(self.present@[k - 1]@, k - 1, self.n() as int)
        }
    }

    /// `path` is a walk along edges through agents of the graph.
    pub open spec fn is_walk(self, path: Seq<int>) -> bool {
        &&& path.len() >= 1
        &&& forall|k: int| 0 <= k < path.len() ==> 0 <= #[trigger] path[k] < self.n()
        &&& forall|k: int| 0 <= k < path.len() - 1 ==> #[trigger] self.edge(path[k], path[k + 1])
    }

    /// Agent `b` can be reached from agent `a` by following edges.
    pub open spec fn reachable(self, a: int, b: int) -> bool {
        exists|path: Seq<int>| #[trigger] self.is_walk(path) && path[0] == a && path.last() == b
    }

    /// The pattern is the ring on `n` agents.
    pub open spec fn is_ring_of(self, n: nat) -> bool {
        &&& self.n() == n
        &&& self.well_formed()
        &&& forall|a: int, b: int|
            0 <= a < n && 0 <= b < n ==> (#[trigger] self.edge(a, b) <==> (b == (a + 1) % (n as int) || a == (b
                + 1) % (n as int)))
    }

    /// The ring on `n` agents: edges between each agent and the next, and
    /// from the last back to the first.
    pub fn ring(n: usize) -> (g: Self)
        ensures
            g.is_ring_of(n as nat),
    {
        let mut present: Vec<Vec<bool>> = Vec::new();
        let mut a: usize = 0;
        while a < n
            invariant
                a <= n,
                present@.len() == a,
                forall|i: int| 0 <= i < a ==> (#[trigger] present@[i])@.len() == n,
                forall|i: int, b: int|
                    0 <= i < a && 0 <= b < n ==> (#[trigger] present@[i]@[b] <==> (b == (i + 1) % (n as int) || i == (b + 1) % (n as int))),
            decreases n - a,
        {
            let next_a: usize = if a + 1 == n { 0 } else { a + 1 };
            proof {
                if a + 1 == n {
                    vstd::arithmetic::div_mod::lemma_mod_self_0(n as int);
                } else {
                    lemma_small_mod((a + 1) as nat, n as nat);
                }
            }
            let mut row: Vec<bool> = Vec::new();
            let mut b: usize = 0;
            while b < n
                invariant
                    a < n,
                    b <= n,
                    next_a as int == (a + 1) % (n as int),
                    row@.len() == b,
                    forall|c: int| 0 <= c < b ==> (#[trigger] row@[c] <==> (c == (a + 1) % (n as int) || a == (c + 1) % (n as int))),
                decreases n - b,
            {
                let next_b: usize = if b + 1 == n { 0 } else { b + 1 };
                proof {
                    if b + 1 == n {
                        vstd::arithmetic::div_mod::lemma_mod_self_0(n as int);
                    } else {
                        lemma_small_mod((b + 1) as nat, n as nat);
                    }
                }
                row.push(b == next_a || a == next_b);
                b = b + 1;
            }
            present.push(row);
            a = a + 1;
        }
        EdgePattern { present }
    }

    /// The agents `j` with an edge from `i`, in increasing order; none when
    /// there are no agents.
    pub fn neighbors(&self, i: usize) -> (r: Vec<usize>)
        requires
            self.well_formed(),
            self.n() == 0 || i < self.n(),
        ensures
            forall|k: int| 0 <= k < r@.len() ==> (#[trigger] r@[k]) < self.n(),
            forall|k: int, m: int| 0 <= k < m < r@.len() ==> #[trigger] r@[k] < #[trigger] r@[m],
            forall|j: int| 0 <= j < self.n() ==> (self.edge(i as int, j) <==> r@.contains(j as usize)),
    {
        let n = self.present.len();
        let mut out: Vec<usize> = Vec::new();
        if n == 0 {
            return out;
        }
        let row = &self.present[i];
        let mut j: usize = 0;
        while j < n
            invariant
                n == self.n(),
                row@ == self.present@[i as int]@,
                row@.len() == n,
                j <= n,
                forall|k: int| 0 <= k < out@.len() ==> (#[trigger] out@[k]) < j,
                forall|k: int, m: int| 0 <= k < m < out@.len() ==> #[trigger] out@[k] < #[trigger] out@[m],
                forall|c: int| 0 <= c < j ==> (row@[c] <==> out@.contains(c as usize)),
            decreases n - j,
        {
            let ghost before = out@;
            if row[j] {
                out.push(j);
            }
            proof {
                assert forall|c: int| 0 <= c < j + 1 implies (row@[c] <==> out@.contains(c as usize)) by {
                    if out@.contains(c as usize) {
                        let w = choose|w: int| 0 <= w < out@.len() && out@[w] == c as usize;
                        if w < before.len() {
                            assert(before[w] == c as usize);
                            assert(before.contains(c as usize));
                        } else {
                            assert(out@[w] == j);
                        }
                    }
                    if c < j {
                        if before.contains(c as usize) {
                            let w = choose|w: int| 0 <= w < before.len() && before[w] == c as usize;
                            assert(out@[w] == c as usize);
                        }
                    } else if row@[c] {
                        assert(out@[out@.len() - 1] == c as usize);
                    }
                }
            }
            j = j + 1;
        }
        out
    }

    /// Number of edges, each unordered pair counted once (self-loops count once).
    pub fn num_edges(&self) -> (r: usize)
        requires
            self.well_formed(),
            self.upper_count(self.n() as int) <= usize::MAX,
        ensures
            r == self.upper_count(self.n() as int),
    {
        let n = self.present.len();
        let mut count: usize = 0;
        let mut i: usize = 0;
        while i < n
            invariant
                n == self.n(),
                self.well_formed(),
                self.upper_count(n as int) <= usize::MAX,
                i <= n,
                count == self.upper_count(i as int),
            decreases n - i,
        {
            let row = &self.present[i];
            let mut j: usize = i;
            proof {
                lemma_upper_count_monotone(*self, i as int + 1, n as int);
            }
            while j < n
                invariant
                    n == self.n(),
                    row@ == self.present@[i as int]@,
                    row@.len() == n,
                    i <= j <= n,
                    self.upper_count(i as int + 1) <= usize::MAX,
                    self.upper_count(i as int + 1) == self.upper_count(i as int) + count_row(row@, i as int, n as int),
                    count == self.upper_count(i as int) + count_row(row@, i as int, j as int),
                decreases n - j,
            {
                proof {
                    lemma_count_row_monotone(row@, i as int, j as int + 1, n as int);
                }
                if row[j] {
                    count = count + 1;
                }
                j = j + 1;
            }
            i = i + 1;
        }
        count
    }

    /// Whether every agent can be reached from agent `0` (true for no agents).
    pub fn is_connected(&self) -> (r: bool)
        requires
            self.well_formed(),
        ensures
            r == (forall|j: int| 0 <= j < self.n() ==> self.reachable(0, j)),
    {
        let n = self.present.len();
        if n == 0 {
            return true;
        }
        let mut visited: Vec<bool> = Vec::new();
        let mut k: usize = 0;
        while k < n
            invariant
                k <= n,
                visited@.len() == k,
                forall|t: int| 0 <= t < k ==> !#[trigger] visited@[t],
            decreases n - k,
        {
            visited.push(false);
            k = k + 1;
        }
        let ghost unmarked = visited@;
        proof {
            lemma_count_all_false(visited@);
        }
        visited.set(0, true);
        let mut stack: Vec<usize> = Vec::new();
        stack.push(0);
        proof {
            lemma_count_mark(unmarked, 0);
            lemma_count_bounded(visited@);
            let w = seq![0int];
            assert(self.is_walk(w));
            assert(w.last() == 0);
            assert(self.reachable(0, 0));
            assert(stack@[0] == 0);
            assert forall|j: int| 0 <= j < n && #[trigger] visited@[j] implies j == 0 by {
                if j != 0 {
                    assert(!unmarked[j]);
                }
            }
        }
        while stack.len() > 0
            invariant
                n == self.n(),
                n > 0,
                self.well_formed(),
                visited@.len() == n,
                visited@[0],
                count_true(visited@) <= n,
                forall|k: int| 0 <= k < stack@.len() ==> #[trigger] stack@[k] < n && visited@[stack@[k] as int],
                forall|j: int| 0 <= j < n && #[trigger] visited@[j] ==> self.reachable(0, j),
                forall|u: int, v: int|
                    0 <= u < n && 0 <= v < n && visited@[u] && !stack@.contains(u as usize) && #[trigger] self.edge(u, v) ==> visited@[v],
            decreases 2 * (n - count_true(visited@)) + stack@.len(),
        {
            let ghost before_pop = stack@;
            let node = stack.pop().unwrap();
            let row = &self.present[node];
            let ghost stack_after_pop = stack@;
            proof {
                assert forall|u: int| 0 <= u < n && u != node && #[trigger] visited@[u] && !stack@.contains(u as usize) implies !before_pop.contains(u as usize) by {
                    if before_pop.contains(u as usize) {
                        let w = choose|w: int| 0 <= w < before_pop.len() && before_pop[w] == u as usize;
                        if w < before_pop.len() - 1 {
                            assert(stack@[w] == u as usize);
                        }
                    }
                }
            }
            let ghost count_at_pop = count_true(visited@);
            let mut j: usize = 0;
            while j < n
                invariant
                    n == self.n(),
                    n > 0,
                    self.well_formed(),
                    node < n,
                    row@ == self.present@[node as int]@,
                    row@.len() == n,
                    j <= n,
                    visited@.len() == n,
                    visited@[0],
                    visited@[node as int],
                    count_true(visited@) <= n,
                    stack@.len() >= stack_after_pop.len(),
                    stack@.len() - stack_after_pop.len() == count_true(visited@) - count_at_pop,
                    forall|k: int| 0 <= k < stack_after_pop.len() ==> #[trigger] stack@[k] == stack_after_pop[k],
                    forall|k: int| 0 <= k < stack@.len() ==> #[trigger] stack@[k] < n && visited@[stack@[k] as int],
                    forall|c: int| 0 <= c < j && #[trigger] self.edge(node as int, c) ==> visited@[c],
                    forall|x: int| 0 <= x < n && #[trigger] visited@[x] ==> self.reachable(0, x),
                    forall|u: int, v: int|
                        0 <= u < n && 0 <= v < n && u != node && visited@[u] && !stack@.contains(u as usize) && #[trigger] self.edge(u, v) ==> visited@[v],
                decreases n - j,
            {
                if row[j] && !visited[j] {
                    let ghost before = visited@;
                    let ghost before_stack = stack@;
                    visited.set(j, true);
                    stack.push(j);
                    proof {
                        lemma_count_mark(before, j as int);
                        lemma_count_bounded(visited@);
                        assert(self.edge(node as int, j as int));
                        assert(self.reachable(0, node as int));
                        let w = choose|w: Seq<int>| #[trigger] self.is_walk(w) && w[0] == 0 && w.last() == node as int;
                        let w2 = w.push(j as int);
                        assert(self.is_walk(w2));
                        assert(w2[0] == 0 && w2.last() == j as int);
                        assert forall|u: int, v: int|
                            0 <= u < n && 0 <= v < n && u != node && visited@[u] && !stack@.contains(u as usize) && #[trigger] self.edge(u, v) implies visited@[v] by {
                            if u != j {
                                assert(before[u]);
                                if before_stack.contains(u as usize) {
                                    let w = choose|w: int| 0 <= w < before_stack.len() && before_stack[w] == u as usize;
                                    assert(stack@[w] == u as usize);
                                }
                            } else {
                                assert(stack@[stack@.len() - 1] == j);
                            }
                        }
                    }
                }
                j = j + 1;
            }
            proof {
                assert forall|u: int, v: int|
                    0 <= u < n && 0 <= v < n && visited@[u] && !stack@.contains(u as usize) && #[trigger] self.edge(u, v) implies visited@[v] by {
                    if u == node as int {
                        assert(self.edge(node as int, v));
                    }
                }
            }
        }
        let mut all = true;
        let mut k: usize = 0;
        while k < n
            invariant
                n == self.n(),
                visited@.len() == n,
                k <= n,
                all == (forall|t: int| 0 <= t < k ==> visited@[t]),
            decreases n - k,
        {
            if !visited[k] {
                all = false;
            }
            k = k + 1;
        }
        proof {
            if all {
                assert forall|j: int| 0 <= j < n implies self.reachable(0, j) by {
                    assert(visited@[j]);
                }
            } else {
                let t = choose|t: int| 0 <= t < n && !visited@[t];
                if self.reachable(0, t) {
                    let w = choose|w: Seq<int>| #[trigger] self.is_walk(w) && w[0] == 0 && w.last() == t;
                    lemma_walk_stays_inside(*self, visited@, w, w.len() as int);
                }
            }
        }
        all
    }
}

/// Law: in a ring every agent can be reached from agent `0`.
pub proof fn lemma_ring_is_connected(g: EdgePattern, n: nat)
    requires
        g.is_ring_of(n),
    ensures
        forall|j: int| 0 <= j < n ==> g.reachable(0, j),
{
    assert forall|j: int| 0 <= j < n implies g.reachable(0, j) by {
        let w = Seq::new((j + 1) as nat, |k: int| k);
        assert forall|k: int| 0 <= k < w.len() - 1 implies #[trigger] g.edge(w[k], w[k + 1]) by {
            lemma_small_mod((k + 1) as nat, n);
        }
        assert(g.is_walk(w));
        assert(w[0] == 0 && w.last() == j);
    }
}

/// A set of agents that contains `0` and is closed under edges contains the
/// end of every walk from `0`.
proof fn lemma_walk_stays_inside(g: EdgePattern, visited: Seq<bool>, w: Seq<int>, len: int)
    requires
        g.is_walk(w),
        w[0] == 0,
        1 <= len <= w.len(),
        visited.len() == g.n(),
        visited[0],
        forall|u: int, v: int| 0 <= u < g.n() && 0 <= v < g.n() && visited[u] && #[trigger] g.edge(u, v) ==> visited[v],
    ensures
        visited[w[len - 1]],
    decreases len,
{
    if len > 1 {
        lemma_walk_stays_inside(g, visited, w, len - 1);
        let k = len - 2;
        assert(g.edge(w[k], w[k + 1]));
    }
}

proof fn lemma_count_all_false(s: Seq<bool>)
    requires
        forall|t: int| 0 <= t < s.len() ==> !#[trigger] s[t],
    ensures
        count_true(s) == 0,
{
    lemma_count_row_all_false(s, s.len() as int);
}

proof fn lemma_count_row_all_false(s: Seq<bool>, hi: int)
    requires
        0 <= hi <= s.len(),
        forall|t: int| 0 <= t < s.len() ==> !#[trigger] s[t],
    ensures
        count_row(s, 0, hi) == 0,
    decreases hi,
{
    if hi > 0 {
        lemma_count_row_all_false(s, hi - 1);
    }
}

/// Marking an unmarked entry raises the count by one.
proof fn lemma_count_mark(s: Seq<bool>, j: int)
    requires
        0 <= j < s.len(),
        !s[j],
    ensures
        count_true(s.update(j, true)) == count_true(s) + 1,
{
    lemma_count_mark_upto(s, j, s.len() as int);
}

proof fn lemma_count_mark_upto(s: Seq<bool>, j: int, hi: int)
    requires
        0 <= j < s.len(),
        0 <= hi <= s.len(),
        !s[j],
    ensures
        count_row(s.update(j, true), 0, hi) == count_row(s, 0, hi) + if j < hi { 1nat } else { 0nat },
    decreases hi,
{
    if hi > 0 {
        lemma_count_mark_upto(s, j, hi - 1);
    }
}

proof fn lemma_count_bounded(s: Seq<bool>)
    ensures
        count_true(s) <= s.len(),
{
    lemma_count_row_bounded(s, 0, s.len() as int);
}

proof fn lemma_count_row_bounded(s: Seq<bool>, lo: int, hi: int)
    requires
        lo <= hi,
    ensures
        count_row(s, lo, hi) <= hi - lo,
    decreases hi - lo,
{
    if hi > lo {
        lemma_count_row_bounded(s, lo, hi - 1);
    }
}

proof fn lemma_count_row_monotone(s: Seq<bool>, lo: int, hi: int, top: int)
    requires
        lo <= hi <= top,
    ensures
        count_row(s, lo, hi) <= count_row(s, lo, top),
    decreases top - hi,
{
    if top > hi {
        lemma_count_row_monotone(s, lo, hi, top - 1);
    }
}

proof fn lemma_upper_count_monotone(g: EdgePattern, k: int, top: int)
    requires
        0 <= k <= top,
    ensures
        g.upper_count(k) <= g.upper_count(top),
    decreases top - k,
{
    if top > k {
        lemma_upper_count_monotone(g, k, top - 1);
    }
}

} // verus!
