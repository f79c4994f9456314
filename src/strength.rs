use vstd::prelude::*;

use crate::margins::VotingMarginsGraph;

verus! {

/// The smaller of two integers.
pub open spec fn min_int(a: int, b: int) -> int {
    if a <= b {
        a
    } else {
        b
    }
}

/// The larger of two integers.
pub open spec fn max_int(a: int, b: int) -> int {
    if a >= b {
        a
    } else {
        b
    }
}

impl VotingMarginsGraph {
    /// The weight of the majority edge from `i` to `j`: its margin when `i` beats `j`,
    /// and `0` (no edge) otherwise. Every edge that exists has a positive weight.
    pub open spec fn edge(&self, i: int, j: int) -> int {
        if self.margin(i, j) > 0 {
            self.margin(i, j)
        } else {
            0
        }
    }

    /// The strength of the widest path of majority edges from `i` to `j` whose intermediate
    /// candidates all lie below `k`, and `0` when there is no such path.
    pub open spec fn strength_through(&self, k: nat, i: int, j: int) -> int
        decreases k,
    {
        if k == 0 {
            self.edge(i, j)
        } else {
            let m = (k - 1) as nat;
            max_int(
                self.strength_through(m, i, j),
                min_int(self.strength_through(m, i, m as int), self.strength_through(m, m as int, j)),
            )
        }
    }

    /// The strength of the widest path of majority edges from `i` to `j`, over all
    /// candidates; `0` when no such path exists.
    pub open spec fn path_strength(&self, i: int, j: int) -> int {
        self.strength_through(self.num_candidates(), i, j)
    }

    /// The margin of step `t` of the walk `p`.
    pub open spec fn step_margin(&self, p: Seq<int>, t: int) -> int {
        self.margin(p[t], p[t + 1])
    }

    /// `p` is a walk of at least one step over the candidates of the store, each step a
    /// majority edge whose margin is at least `w`.
    pub open spec fn is_walk(&self, p: Seq<int>, w: int) -> bool {
        &&& p.len() >= 2
        &&& forall|t: int| 0 <= t < p.len() ==> 0 <= #[trigger] p[t] < self.num_candidates()
        &&& forall|t: int| 0 <= t < p.len() - 1 ==> #[trigger] self.step_margin(p, t) >= w
    }

    /// Path strengths are never negative.
    pub proof fn lemma_strength_nonneg(&self, k: nat, i: int, j: int)
        ensures
            self.strength_through(k, i, j) >= 0,
        decreases k,
    {
        if k > 0 {
            self.lemma_strength_nonneg((k - 1) as nat, i, j);
        }
    }

    /// Allowing more intermediate candidates never weakens the widest path.
    pub proof fn lemma_strength_monotone(&self, k1: nat, k2: nat, i: int, j: int)
        requires
            k1 <= k2,
        ensures
            self.strength_through(k1, i, j) <= self.strength_through(k2, i, j),
        decreases k2,
    {
        if k1 < k2 {
            self.lemma_strength_monotone(k1, (k2 - 1) as nat, i, j);
        }
    }

    /// Paths that start or end at `k` gain nothing from `k` as an intermediate candidate.
    pub proof fn lemma_strength_stable(&self, k: nat, i: int, j: int)
        ensures
            self.strength_through(k + 1, i, k as int) == self.strength_through(k, i, k as int),
            self.strength_through(k + 1, k as int, j) == self.strength_through(k, k as int, j),
    {
        assert(((k + 1) - 1) as nat == k);
    }

    /// Joining a walk to `y` with a walk from `y` gives a walk of the same margin bound.
    pub proof fn lemma_walk_concat(&self, p1: Seq<int>, p2: Seq<int>, w: int)
        requires
            self.is_walk(p1, w),
            self.is_walk(p2, w),
            p1.last() == p2[0],
        ensures
            self.is_walk(p1 + p2.subrange(1, p2.len() as int), w),
            (p1 + p2.subrange(1, p2.len() as int))[0] == p1[0],
            (p1 + p2.subrange(1, p2.len() as int)).last() == p2.last(),
    {
        let p = p1 + p2.subrange(1, p2.len() as int);
        let l1 = p1.len() as int;
        assert forall|t: int| 0 <= t < p.len() implies 0 <= #[trigger] p[t]
            < self.num_candidates() by {
            if t >= l1 {
                assert(p[t] == p2[t - l1 + 1]);
            }
        }
        assert forall|t: int| 0 <= t < p.len() - 1 implies #[trigger] self.step_margin(p, t)
            >= w by {
            if t < l1 - 1 {
                assert(self.step_margin(p1, t) >= w);
            } else if t == l1 - 1 {
                assert(self.step_margin(p2, 0) >= w);
            } else {
                assert(self.step_margin(p2, t - l1 + 1) >= w);
            }
        }
    }

    /// Every walk from `i` to `j` whose steps all have margin at least `w > 0`, and whose
    /// intermediate candidates lie below `k`, is matched by a path of strength at least `w`.
    pub proof fn lemma_walk_bounded(&self, k: nat, p: Seq<int>, w: int)
        requires
            self.wf(),
            k <= self.num_candidates(),
            w > 0,
            self.is_walk(p, w),
            forall|t: int| 0 < t < p.len() - 1 ==> #[trigger] p[t] < k,
        ensures
            self.strength_through(k, p[0], p.last()) >= w,
        decreases k, p.len(),
    {
        if exists|c: int| 0 < c < p.len() - 1 && p[c] == k - 1 {
            let c = choose|c: int| 0 < c < p.len() - 1 && p[c] == k - 1;
            let m = (k - 1) as nat;
            let pre = p.subrange(0, c + 1);
            let suf = p.subrange(c, p.len() as int);
            assert forall|t: int| 0 <= t < pre.len() - 1 implies #[trigger] self.step_margin(pre, t)
                >= w by {
                assert(self.step_margin(p, t) >= w);
            }
            assert forall|t: int| 0 <= t < suf.len() - 1 implies #[trigger] self.step_margin(suf, t)
                >= w by {
                assert(self.step_margin(p, t + c) >= w);
            }
            assert forall|t: int| 0 < t < suf.len() - 1 implies #[trigger] suf[t] < k by {
                assert(p[t + c] < k);
            }
            assert forall|t: int| 0 <= t < suf.len() implies 0 <= #[trigger] suf[t]
                < self.num_candidates() by {
                assert(0 <= p[t + c] < self.num_candidates());
            }
            self.lemma_walk_bounded(k, pre, w);
            self.lemma_walk_bounded(k, suf, w);
            self.lemma_strength_stable(m, p[0], p.last());
        } else if k == 0 {
            if p.len() > 2 {
                assert(0 <= p[1]);
                assert(p[1] < k);
            }
            assert(self.step_margin(p, 0) >= w);
        } else {
            let m = (k - 1) as nat;
            assert forall|t: int| 0 < t < p.len() - 1 implies #[trigger] p[t] < m by {
                assert(p[t] < k);
            }
            self.lemma_walk_bounded(m, p, w);
        }
    }

    /// A positive path strength is the margin bound of some walk between its two ends.
    pub proof fn lemma_strength_witnessed(&self, k: nat, i: int, j: int)
        requires
            self.wf(),
            k <= self.num_candidates(),
            0 <= i < self.num_candidates(),
            0 <= j < self.num_candidates(),
            self.strength_through(k, i, j) > 0,
        ensures
            exists|p: Seq<int>|
                self.is_walk(p, self.strength_through(k, i, j)) && p[0] == i && p.last() == j,
        decreases k,
    {
        let s = self.strength_through(k, i, j);
        if k == 0 {
            let p = seq![i, j];
            assert(self.step_margin(p, 0) == self.margin(i, j));
            assert(self.is_walk(p, s) && p[0] == i && p.last() == j);
        } else {
            let m = (k - 1) as nat;
            let a = self.strength_through(m, i, m as int);
            let b = self.strength_through(m, m as int, j);
            if self.strength_through(m, i, j) >= min_int(a, b) {
                self.lemma_strength_witnessed(m, i, j);
            } else {
                self.lemma_strength_witnessed(m, i, m as int);
                self.lemma_strength_witnessed(m, m as int, j);
                let p1 = choose|p: Seq<int>| self.is_walk(p, a) && p[0] == i && p.last() == m as int;
                let p2 = choose|p: Seq<int>| self.is_walk(p, b) && p[0] == m as int && p.last() == j;
                self.lemma_walk_concat(p1, p2, s);
                let p = p1 + p2.subrange(1, p2.len() as int);
                assert(self.is_walk(p, s) && p[0] == i && p.last() == j);
            }
        }
    }

    /// The widest path from `x` to `z` is at least as strong as the weaker of the widest
    /// paths from `x` to `y` and from `y` to `z`.
    pub proof fn lemma_strength_triangle(&self, x: int, y: int, z: int)
        requires
            self.wf(),
            0 <= x < self.num_candidates(),
            0 <= y < self.num_candidates(),
            0 <= z < self.num_candidates(),
        ensures
            self.path_strength(x, z) >= min_int(self.path_strength(x, y), self.path_strength(y, z)),
    {
        let n = self.num_candidates();
        let a = self.path_strength(x, y);
        let b = self.path_strength(y, z);
        let w = min_int(a, b);
        self.lemma_strength_nonneg(n, x, z);
        if w > 0 {
            self.lemma_strength_witnessed(n, x, y);
            self.lemma_strength_witnessed(n, y, z);
            let p1 = choose|p: Seq<int>| self.is_walk(p, a) && p[0] == x && p.last() == y;
            let p2 = choose|p: Seq<int>| self.is_walk(p, b) && p[0] == y && p.last() == z;
            self.lemma_walk_concat(p1, p2, w);
            let p = p1 + p2.subrange(1, p2.len() as int);
            self.lemma_walk_bounded(n, p, w);
        }
    }

    /// A direct majority edge is itself a path: the widest path is at least that strong.
    pub proof fn lemma_direct_edge_bound(&self, i: int, j: int)
        requires
            self.margin(i, j) > 0,
        ensures
            self.path_strength(i, j) >= self.margin(i, j),
    {
        self.lemma_strength_monotone(0, self.num_candidates(), i, j);
    }

    /// All `level`-restricted path strengths as a square matrix: entry `[x][y]` is
    /// `strength_through(level, x, y)`.
    pub open spec fn strengths_at(&self, s: Seq<Vec<isize>>, level: nat) -> bool {
        &&& s.len() == self.num_candidates()
        &&& forall|x: int| 0 <= x < s.len() ==> (#[trigger] s[x])@.len() == self.num_candidates()
        &&& forall|x: int, y: int|
            0 <= x < s.len() && 0 <= y < s.len() ==> s[x]@[y] == self.strength_through(level, x, y)
    }

    /// The matrix of widest-path strengths between all pairs of candidates: entry `[i][j]`
    /// is the strength of the strongest path of majority edges from `i` to `j`, that is the
    /// largest, over such paths, of the smallest margin along the path; `0` means that no
    /// path of majority edges leads from `i` to `j` (every real path is at least `1` strong).
    pub fn path_strengths(&self) -> (s: Vec<Vec<isize>>)
        requires
            self.wf(),
        ensures
            s@.len() == self.num_candidates(),
            forall|i: int| 0 <= i < s@.len() ==> (#[trigger] s@[i])@.len() == self.num_candidates(),
            forall|i: int, j: int|
                0 <= i < s@.len() && 0 <= j < s@.len() ==> s@[i]@[j] == self.path_strength(i, j),
    {
        let n = self.size();
        let mut s: Vec<Vec<isize>> = Vec::new();
        let mut i: usize = 0;
        while i < n
            invariant
                self.wf(),
                n == self.num_candidates(),
                i <= n,
                s@.len() == i,
                forall|x: int| 0 <= x < i ==> (#[trigger] s@[x])@.len() == n,
                forall|x: int, y: int|
                    0 <= x < i && 0 <= y < n ==> s@[x]@[y] == self.strength_through(0, x, y),
            decreases n - i,
        {
            let mut row: Vec<isize> = Vec::new();
            let mut j: usize = 0;
            while j < n
                invariant
                    self.wf(),
                    n == self.num_candidates(),
                    i < n,
                    j <= n,
                    row@.len() == j,
                    forall|y: int| 0 <= y < j ==> row@[y] == self.strength_through(0, i as int, y),
                decreases n - j,
            {
                let m = self.index(i, j);
                if m > 0 {
                    row.push(m);
                } else {
                    row.push(0);
                }
                j = j + 1;
            }
            s.push(row);
            i = i + 1;
        }
        let mut k: usize = 0;
        while k < n
            invariant
                self.wf(),
                n == self.num_candidates(),
                k <= n,
                self.strengths_at(s@, k as nat),
            decreases n - k,
        {
            let ghost kk = k as nat;
            let mut i: usize = 0;
            while i < n
                invariant
                    self.wf(),
                    n == self.num_candidates(),
                    k < n,
                    kk == k,
                    i <= n,
                    s@.len() == n,
                    forall|x: int| 0 <= x < n ==> (#[trigger] s@[x])@.len() == n,
                    forall|x: int, y: int|
                        0 <= x < n && 0 <= y < n ==> s@[x]@[y] == self.strength_through(
                            if x < i { kk + 1 } else { kk },
                            x,
                            y,
                        ),
                decreases n - i,
            {
                proof {
                    assert forall|y: int| 0 <= y < n implies s@[k as int]@[y]
                        == self.strength_through(kk, k as int, y) by {
                        self.lemma_strength_stable(kk, i as int, y);
                    }
                }
                let sik = s[i][k];
                let mut row: Vec<isize> = Vec::new();
                let mut j: usize = 0;
                while j < n
                    invariant
                        self.wf(),
                        n == self.num_candidates(),
                        k < n,
                        kk == k,
                        i < n,
                        j <= n,
                        s@.len() == n,
                        forall|x: int| 0 <= x < n ==> (#[trigger] s@[x])@.len() == n,
                        forall|y: int| 0 <= y < n ==> s@[i as int]@[y]
                            == self.strength_through(kk, i as int, y),
                        forall|y: int| 0 <= y < n ==> s@[k as int]@[y]
                            == self.strength_through(kk, k as int, y),
                        sik == self.strength_through(kk, i as int, k as int),
                        row@.len() == j,
                        forall|y: int| 0 <= y < j ==> row@[y]
                            == self.strength_through(kk + 1, i as int, y),
                    decreases n - j,
                {
                    let skj = s[k][j];
                    let via = if sik <= skj {
                        sik
                    } else {
                        skj
                    };
                    let cur = s[i][j];
                    let v = if cur >= via {
                        cur
                    } else {
                        via
                    };
                    assert(((kk + 1) - 1) as nat == kk);
                    assert(cur == self.strength_through(kk, i as int, j as int));
                    assert(skj == self.strength_through(kk, k as int, j as int));
                    assert(self.strength_through(kk + 1, i as int, j as int) == max_int(
                        self.strength_through(kk, i as int, j as int),
                        min_int(
                            self.strength_through(kk, i as int, k as int),
                            self.strength_through(kk, k as int, j as int),
                        ),
                    ));
                    assert(v == self.strength_through(kk + 1, i as int, j as int));
                    row.push(v);
                    j = j + 1;
                }
                s.set(i, row);
                i = i + 1;
            }
            k = k + 1;
        }
        s
    }
}

} // verus!
