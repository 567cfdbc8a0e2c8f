//! Directed adjacency rules mined from the sample.
//!
//! A rule `(origin, neighbor, dir)` means: `neighbor` may legally occupy the
//! cell immediately in direction `dir` from a cell occupied by `origin`.
//! The set is deduplicated, and symmetric: whenever it holds `(a, b, d)` it
//! also holds `(b, a, opposite(d))`, because both facts are recorded from
//! each observed sample adjacency.

use vstd::prelude::*;

use crate::direction::{Direction, opposite, opposite_spec};

verus! {

/// One directed adjacency fact over tile ids.
#[derive(Clone, Copy, Debug, PartialEq, Eq, Structural)]
pub struct AdjacencyRule {
    pub origin: usize,
    pub neighbor: usize,
    pub dir: Direction,
}

/// A deduplicated list of adjacency rules, immutable after model building.
#[derive(Debug)]
pub struct AdjacencyRuleSet {
    pub rules: Vec<AdjacencyRule>,
}

impl AdjacencyRuleSet {
    /// The set holds the rule `(a, b, d)`.
    pub open spec fn spec_contains(&self, a: usize, b: usize, d: Direction) -> bool {
        exists|i: int|
            0 <= i < self.rules@.len() && #[trigger] self.rules@[i] == (AdjacencyRule {
                origin: a,
                neighbor: b,
                dir: d,
            })
    }

    /// No triple appears twice.
    pub open spec fn deduped(&self) -> bool {
        forall|i: int, j: int|
            0 <= i < j < self.rules@.len() ==> #[trigger] self.rules@[i] != #[trigger] self.rules@[j]
    }

    /// Every rule's mirror image is present.
    pub open spec fn symmetric(&self) -> bool {
        forall|a: usize, b: usize, d: Direction|
            #[trigger] self.spec_contains(a, b, d) ==> self.spec_contains(b, a, opposite_spec(d))
    }

    /// Both endpoints of every rule are ids of a catalog with `n` tiles.
    pub open spec fn ids_valid(&self, n: nat) -> bool {
        forall|i: int|
            0 <= i < self.rules@.len() ==> 1 <= (#[trigger] self.rules@[i]).origin <= n && 1
                <= self.rules@[i].neighbor <= n
    }

    pub open spec fn wf(&self, n: nat) -> bool {
        self.deduped() && self.symmetric() && self.ids_valid(n)
    }

    /// The set permits every pair of ids of a catalog of `n` tiles, in
    /// every direction: no intersection along such rules can empty a
    /// nonempty candidate set.
    pub open spec fn permits_all(&self, n: int) -> bool {
        forall|a: usize, b: usize, d: Direction|
            1 <= a <= n && 1 <= b <= n ==> #[trigger] self.spec_contains(a, b, d)
    }

    /// A rule set with no facts at all.
    pub fn empty() -> (rs: AdjacencyRuleSet)
        ensures
            rs.rules@ == Seq::<AdjacencyRule>::empty(),
            forall|a: usize, b: usize, d: Direction| !rs.spec_contains(a, b, d),
            rs.wf(0),
            forall|n: nat| rs.wf(n),
    {
        AdjacencyRuleSet { rules: Vec::new() }
    }

    /// How many rules the set holds.
    pub fn len(&self) -> (n: usize)
        ensures
            n == self.rules@.len(),
    {
        self.rules.len()
    }

    /// Whether the set holds the rule `(a, b, d)`.
    pub fn contains(&self, a: usize, b: usize, d: Direction) -> (r: bool)
        ensures
            r == self.spec_contains(a, b, d),
    {
        let mut i: usize = 0;
        while i < self.rules.len()
            invariant
                i <= self.rules@.len(),
                forall|j: int|
                    0 <= j < i ==> #[trigger] self.rules@[j] != (AdjacencyRule {
                        origin: a,
                        neighbor: b,
                        dir: d,
                    }),
            decreases self.rules@.len() - i,
        {
            let rule = self.rules[i];
            if rule.origin == a && rule.neighbor == b && rule.dir == d {
                return true;
            }
            i += 1;
        }
        false
    }

    /// Appends the rule `(a, b, d)` unless it is already present.
    fn push_if_absent(&mut self, a: usize, b: usize, d: Direction)
        requires
            old(self).deduped(),
        ensures
            final(self).deduped(),
            forall|x: usize, y: usize, e: Direction|
                #[trigger] final(self).spec_contains(x, y, e) == (old(self).spec_contains(x, y, e)
                    || (x == a && y == b && e == d)),
            forall|i: int|
                0 <= i < final(self).rules@.len() ==> ((#[trigger] final(self).rules@[i]
                    == old(self).rules@[i as int] && i < old(self).rules@.len())
                    || final(self).rules@[i] == (AdjacencyRule { origin: a, neighbor: b, dir: d })),
    {
        if !self.contains(a, b, d) {
            self.rules.push(AdjacencyRule { origin: a, neighbor: b, dir: d });
            proof {
                let r = AdjacencyRule { origin: a, neighbor: b, dir: d };
                assert(final(self).rules@[final(self).rules@.len() - 1] == r);
                assert(final(self).spec_contains(a, b, d));
                assert forall|x: usize, y: usize, e: Direction|
                    #[trigger] final(self).spec_contains(x, y, e) implies (old(self).spec_contains(
                    x,
                    y,
                    e,
                ) || (x == a && y == b && e == d)) by {
                    let i = choose|i: int|
                        0 <= i < final(self).rules@.len() && final(self).rules@[i]
                            == (AdjacencyRule { origin: x, neighbor: y, dir: e });
                    if i < old(self).rules@.len() {
                        assert(old(self).rules@[i] == (AdjacencyRule {
                            origin: x,
                            neighbor: y,
                            dir: e,
                        }));
                    }
                }
                assert forall|x: usize, y: usize, e: Direction|
                    (old(self).spec_contains(x, y, e) || (x == a && y == b && e == d)) implies #[
                    trigger] final(self).spec_contains(x, y, e) by {
                    if old(self).spec_contains(x, y, e) {
                        let i = choose|i: int|
                            0 <= i < old(self).rules@.len() && old(self).rules@[i]
                                == (AdjacencyRule { origin: x, neighbor: y, dir: e });
                        assert(final(self).rules@[i] == (AdjacencyRule {
                            origin: x,
                            neighbor: y,
                            dir: e,
                        }));
                    }
                }
            }
        } else {
            proof {
                assert forall|x: usize, y: usize, e: Direction|
                    #[trigger] final(self).spec_contains(x, y, e) == (old(self).spec_contains(
                    x,
                    y,
                    e,
                ) || (x == a && y == b && e == d)) by {}
            }
        }
    }

    /// Records one observed adjacency: inserts `(a, b, d)` and its mirror
    /// `(b, a, opposite(d))`, deduplicating both.
    pub fn add_observed(&mut self, a: usize, b: usize, d: Direction, n: usize)
        requires
            old(self).wf(n as nat),
            1 <= a <= n,
            1 <= b <= n,
        ensures
            final(self).wf(n as nat),
            forall|x: usize, y: usize, e: Direction|
                #[trigger] final(self).spec_contains(x, y, e) == (old(self).spec_contains(x, y, e)
                    || (x == a && y == b && e == d) || (x == b && y == a && e == opposite_spec(d))),
    {
        let opp = opposite(d);
        self.push_if_absent(a, b, d);
        self.push_if_absent(b, a, opp);
        proof {
            assert forall|x: usize, y: usize, e: Direction|
                #[trigger] final(self).spec_contains(x, y, e) implies final(self).spec_contains(
                y,
                x,
                opposite_spec(e),
            ) by {
                crate::direction::lemma_opposite_involutive(e);
                if old(self).spec_contains(x, y, e) {
                    assert(old(self).spec_contains(y, x, opposite_spec(e)));
                }
            }
        }
    }
}

/// Rule symmetry: whenever a well-formed rule set holds `(a, b, d)`, it also
/// holds `(b, a, opposite(d))`.
pub proof fn lemma_rules_symmetric(
    rs: &AdjacencyRuleSet,
    n: nat,
    a: usize,
    b: usize,
    d: Direction,
)
    requires
        rs.wf(n),
        rs.spec_contains(a, b, d),
    ensures
        rs.spec_contains(b, a, opposite_spec(d)),
{
}

/// Rule deduplication: a well-formed rule set holds no triple twice.
pub proof fn lemma_rules_deduplicated(rs: &AdjacencyRuleSet, n: nat)
    requires
        rs.wf(n),
    ensures
        forall|i: int, j: int|
            0 <= i < j < rs.rules@.len() ==> #[trigger] rs.rules@[i] != #[trigger] rs.rules@[j],
{
}

} // verus!
