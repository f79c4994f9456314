use vstd::prelude::*;

use crate::margins::VotingMarginsGraph;
use crate::strength::min_int;

verus! {

/// The entries of `r` rise strictly from left to right.
pub open spec fn strictly_ascending(r: Seq<usize>) -> bool {
    forall|x: int, y: int| 0 <= x < y < r.len() ==> r[x] < r[y]
}

/// Two strictly ascending sequences with the same elements are the same sequence.
pub proof fn lemma_ascending_unique(r1: Seq<usize>, r2: Seq<usize>)
    requires
        strictly_ascending(r1),
        strictly_ascending(r2),
        forall|x: usize| r1.contains(x) <==> r2.contains(x),
    ensures
        r1 == r2,
    decreases r1.len(),
{
    if r1.len() == 0 {
        if r2.len() > 0 {
            assert(r2.contains(r2[0]));
        }
        assert(r1 =~= r2);
    } else {
        assert(r1.contains(r1.last()));
        assert(r2.len() > 0);
        assert(r2.contains(r2.last()));
        let i1 = choose|t: int| 0 <= t < r2.len() && r2[t] == r1.last();
        let i2 = choose|t: int| 0 <= t < r1.len() && r1[t] == r2.last();
        assert(r1.last() <= r2.last()) by {
            if i1 < r2.len() - 1 {
                assert(r2[i1] < r2[r2.len() - 1]);
            }
        }
        assert(r2.last() <= r1.last()) by {
            if i2 < r1.len() - 1 {
                assert(r1[i2] < r1[r1.len() - 1]);
            }
        }
        let d1 = r1.drop_last();
        let d2 = r2.drop_last();
        assert forall|x: usize| d1.contains(x) <==> d2.contains(x) by {
            if d1.contains(x) {
                let t = choose|t: int| 0 <= t < d1.len() && d1[t] == x;
                assert(r1[t] < r1[r1.len() - 1]);
                assert(r1.contains(x));
                let u = choose|u: int| 0 <= u < r2.len() && r2[u] == x;
                assert(u != r2.len() - 1);
                assert(d2[u] == x);
            }
            if d2.contains(x) {
                let t = choose|t: int| 0 <= t < d2.len() && d2[t] == x;
                assert(r2[t] < r2[r2.len() - 1]);
                assert(r2.contains(x));
                let u = choose|u: int| 0 <= u < r1.len() && r1[u] == x;
                assert(u != r1.len() - 1);
                assert(d1[u] == x);
            }
        }
        lemma_ascending_unique(d1, d2);
        assert(r1 =~= d1.push(r1.last()));
        assert(r2 =~= d2.push(r2.last()));
    }
}

impl VotingMarginsGraph {
    /// `a` defeats `b` under Split Cycle: `a` beats `b` head to head, and every path of
    /// majority edges that leads back from `b` to `a` is weaker than that margin, so the edge
    /// from `a` to `b` is not a weakest link of any majority cycle.
    pub open spec fn defeats(&self, a: int, b: int) -> bool {
        self.margin(a, b) > 0 && self.margin(a, b) > self.path_strength(b, a)
    }

    /// No candidate defeats `b`.
    pub open spec fn is_winner(&self, b: int) -> bool {
        forall|a: int| 0 <= a < self.num_candidates() ==> !#[trigger] self.defeats(a, b)
    }

    /// `r` lists the winners, each once, in ascending order.
    pub open spec fn lists_winners(&self, r: Seq<usize>) -> bool {
        &&& strictly_ascending(r)
        &&& forall|t: int|
            0 <= t < r.len() ==> #[trigger] r[t] < self.num_candidates() && self.is_winner(
                r[t] as int,
            )
        &&& forall|b: int|
            0 <= b < self.num_candidates() && #[trigger] self.is_winner(b) ==> r.contains(
                b as usize,
            )
    }

    /// The widest path from `x` to `y` is stronger than the one back.
    pub open spec fn beats_by_paths(&self, x: int, y: int) -> bool {
        self.path_strength(x, y) > self.path_strength(y, x)
    }

    /// No candidate below `m` beats `x` by widest paths.
    pub open spec fn unbeaten_among(&self, x: int, m: nat) -> bool {
        forall|y: int| 0 <= y < m ==> !#[trigger] self.beats_by_paths(y, x)
    }

    /// A Split Cycle defeat is also a win by widest paths.
    proof fn lemma_defeat_beats_by_paths(&self, a: int, b: int)
        requires
            self.defeats(a, b),
        ensures
            self.beats_by_paths(a, b),
    {
        self.lemma_direct_edge_bound(a, b);
    }

    /// Winning by widest paths is transitive.
    proof fn lemma_beats_by_paths_transitive(&self, a: int, b: int, c: int)
        requires
            self.wf(),
            0 <= a < self.num_candidates(),
            0 <= b < self.num_candidates(),
            0 <= c < self.num_candidates(),
            self.beats_by_paths(a, b),
            self.beats_by_paths(b, c),
        ensures
            self.beats_by_paths(a, c),
    {
        self.lemma_strength_triangle(a, b, c);
        self.lemma_strength_triangle(c, a, b);
        self.lemma_strength_triangle(b, c, a);
    }

    /// Among the first `m` candidates some one is beaten by widest paths by none of them.
    proof fn lemma_unbeaten_among(&self, m: nat)
        requires
            self.wf(),
            1 <= m <= self.num_candidates(),
        ensures
            exists|x: int| 0 <= x < m && #[trigger] self.unbeaten_among(x, m),
        decreases m,
    {
        if m == 1 {
            assert(self.unbeaten_among(0, 1));
        } else {
            let p = (m - 1) as nat;
            self.lemma_unbeaten_among(p);
            let x = choose|x: int| 0 <= x < p && #[trigger] self.unbeaten_among(x, p);
            if self.beats_by_paths(p as int, x) {
                assert forall|y: int| 0 <= y < m implies !#[trigger] self.beats_by_paths(y, p as int) by {
                    if y < p && self.beats_by_paths(y, p as int) {
                        self.lemma_beats_by_paths_transitive(y, p as int, x);
                    }
                }
                assert(self.unbeaten_among(p as int, m));
            } else {
                assert forall|y: int| 0 <= y < m implies !#[trigger] self.beats_by_paths(y, x) by {
                    assert(self.unbeaten_among(x, p));
                }
                assert(self.unbeaten_among(x, m));
            }
        }
    }

    /// Some candidate is undefeated: the Split Cycle defeat relation has no cycle.
    pub proof fn lemma_winner_exists(&self)
        requires
            self.wf(),
        ensures
            exists|b: int| 0 <= b < self.num_candidates() && self.is_winner(b),
    {
        self.lemma_unbeaten_among(self.num_candidates());
        let x = choose|x: int|
            0 <= x < self.num_candidates() && #[trigger] self.unbeaten_among(x, self.num_candidates());
        assert forall|a: int| 0 <= a < self.num_candidates() implies !#[trigger] self.defeats(a, x) by {
            if self.defeats(a, x) {
                assert(!self.beats_by_paths(a, x));
                self.lemma_defeat_beats_by_paths(a, x);
            }
        }
        assert(self.is_winner(x));
    }

    /// The winner list is never empty.
    pub proof fn lemma_winners_nonempty(&self, r: Seq<usize>)
        requires
            self.wf(),
            self.lists_winners(r),
        ensures
            r.len() >= 1,
    {
        self.lemma_winner_exists();
        let b = choose|b: int| 0 <= b < self.num_candidates() && self.is_winner(b);
        assert(r.contains(b as usize));
    }

    /// The winners are fixed by the store alone: any two winner lists of one store agree.
    pub proof fn lemma_winners_determined(&self, r1: Seq<usize>, r2: Seq<usize>)
        requires
            self.lists_winners(r1),
            self.lists_winners(r2),
        ensures
            r1 == r2,
    {
        assert forall|x: usize| r1.contains(x) <==> r2.contains(x) by {
            if r1.contains(x) {
                let t = choose|t: int| 0 <= t < r1.len() && r1[t] == x;
                assert(self.is_winner(r1[t] as int));
            }
            if r2.contains(x) {
                let t = choose|t: int| 0 <= t < r2.len() && r2[t] == x;
                assert(self.is_winner(r2[t] as int));
            }
        }
        lemma_ascending_unique(r1, r2);
    }

    /// No path of majority edges leads into a candidate that beats every other one.
    proof fn lemma_no_path_into_condorcet_winner(&self, k: nat, i: int, c: int)
        requires
            self.wf(),
            k <= self.num_candidates(),
            0 <= i < self.num_candidates(),
            0 <= c < self.num_candidates(),
            forall|x: int|
                0 <= x < self.num_candidates() && x != c ==> #[trigger] self.margin(c, x) > 0,
        ensures
            self.strength_through(k, i, c) == 0,
        decreases k,
    {
        if k == 0 {
            if i != c {
                assert(self.margin(c, i) > 0);
            }
        } else {
            let m = (k - 1) as nat;
            self.lemma_no_path_into_condorcet_winner(m, i, c);
            self.lemma_no_path_into_condorcet_winner(m, m as int, c);
            self.lemma_strength_nonneg(m, i, m as int);
        }
    }

    /// A candidate who beats every other candidate head to head is the one and only winner.
    pub proof fn lemma_condorcet_winner(&self, c: int, r: Seq<usize>)
        requires
            self.wf(),
            0 <= c < self.num_candidates(),
            forall|x: int|
                0 <= x < self.num_candidates() && x != c ==> #[trigger] self.margin(c, x) > 0,
            self.lists_winners(r),
        ensures
            r == seq![c as usize],
    {
        let n = self.num_candidates();
        assert forall|a: int| 0 <= a < n implies !#[trigger] self.defeats(a, c) by {
            if a != c {
                assert(self.margin(c, a) > 0);
            }
        }
        assert(self.is_winner(c));
        assert(r.contains(c as usize));
        assert forall|b: int| 0 <= b < n && b != c implies !#[trigger] self.is_winner(b) by {
            assert(self.margin(c, b) > 0);
            self.lemma_no_path_into_condorcet_winner(n, b, c);
            assert(self.defeats(c, b));
        }
        assert forall|t: int| 0 <= t < r.len() implies r[t] == c as usize by {
            assert(self.is_winner(r[t] as int));
        }
        if r.len() > 1 {
            assert(r[0] < r[1]);
        }
        assert(r =~= seq![c as usize]);
    }

    /// When every candidate beats every later one head to head, the first candidate is the
    /// one and only winner.
    pub proof fn lemma_linear_order_winner(&self, r: Seq<usize>)
        requires
            self.wf(),
            forall|x: int, y: int|
                0 <= x < y < self.num_candidates() ==> #[trigger] self.margin(x, y) > 0,
            self.lists_winners(r),
        ensures
            r == seq![0usize],
    {
        assert forall|x: int| 0 <= x < self.num_candidates() && x != 0 implies #[trigger] self.margin(0, x)
            > 0 by {
            assert(self.margin(0, x) > 0);
        }
        self.lemma_condorcet_winner(0, r);
    }

    /// When no candidate beats another head to head, every candidate is a winner.
    pub proof fn lemma_all_ties_winners(&self, r: Seq<usize>)
        requires
            self.wf(),
            forall|x: int, y: int|
                0 <= x < self.num_candidates() && 0 <= y < self.num_candidates() ==> #[trigger] self.margin(x, y) == 0,
            self.lists_winners(r),
        ensures
            r.len() == self.num_candidates(),
            forall|t: int| 0 <= t < r.len() ==> r[t] == t,
    {
        let n = self.num_candidates();
        assert forall|b: int| 0 <= b < n implies #[trigger] self.is_winner(b) by {
            assert forall|a: int| 0 <= a < n implies !#[trigger] self.defeats(a, b) by {
                assert(self.margin(a, b) == 0);
            }
        }
        let all = Seq::new(n, |t: int| t as usize);
        assert forall|x: usize| r.contains(x) <==> all.contains(x) by {
            if all.contains(x) {
                assert(all[x as int] == x);
                assert(self.is_winner(x as int));
            }
            if r.contains(x) {
                let t = choose|t: int| 0 <= t < r.len() && r[t] == x;
                assert(all[x as int] == x);
            }
        }
        lemma_ascending_unique(r, all);
    }

    /// The Split Cycle winners, in ascending order: the candidates that no other candidate
    /// defeats once every majority edge that is a weakest link of some majority cycle is
    /// set aside.
    pub fn winners(&self) -> (r: Vec<usize>)
        requires
            self.wf(),
        ensures
            self.lists_winners(r@),
    {
        let n = self.size();
        let s = self.path_strengths();
        let mut r: Vec<usize> = Vec::new();
        let mut b: usize = 0;
        while b < n
            invariant
                self.wf(),
                n == self.num_candidates(),
                b <= n,
                s@.len() == n,
                forall|i: int| 0 <= i < n ==> (#[trigger] s@[i])@.len() == n,
                forall|i: int, j: int|
                    0 <= i < n && 0 <= j < n ==> s@[i]@[j] == self.path_strength(i, j),
                strictly_ascending(r@),
                forall|t: int| 0 <= t < r@.len() ==> #[trigger] r@[t] < b && self.is_winner(r@[t] as int),
                forall|c: int| 0 <= c < b && #[trigger] self.is_winner(c) ==> r@.contains(c as usize),
            decreases n - b,
        {
            let mut undefeated = true;
            let mut a: usize = 0;
            while a < n
                invariant
                    self.wf(),
                    n == self.num_candidates(),
                    b < n,
                    a <= n,
                    s@.len() == n,
                    forall|i: int| 0 <= i < n ==> (#[trigger] s@[i])@.len() == n,
                    forall|i: int, j: int|
                        0 <= i < n && 0 <= j < n ==> s@[i]@[j] == self.path_strength(i, j),
                    undefeated <==> forall|x: int| 0 <= x < a ==> !#[trigger] self.defeats(x, b as int),
                decreases n - a,
            {
                let m = self.index(a, b);
                assert(self.defeats(a as int, b as int) <==> (m > 0 && m > s@[b as int]@[a as int]));
                if m > 0 && m > s[b][a] {
                    undefeated = false;
                }
                a = a + 1;
            }
            let ghost before = r@;
            if undefeated {
                r.push(b);
                assert(r@[r@.len() - 1] == b);
            }
            assert forall|c: int| 0 <= c <= b && #[trigger] self.is_winner(c) implies r@.contains(
                c as usize,
            ) by {
                if c < b {
                    let t = choose|t: int| 0 <= t < before.len() && before[t] == c as usize;
                    assert(r@[t] == c as usize);
                } else if !undefeated {
                    let x = choose|x: int| 0 <= x < n && self.defeats(x, b as int);
                    assert(!self.is_winner(b as int));
                }
            }
            b = b + 1;
        }
        r
    }
}

} // verus!
