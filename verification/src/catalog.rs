//! The tile catalog: each distinct tile of the sample gets a stable
//! identifier (assigned in first-seen order, starting at 1) and a weight
//! equal to its occurrence count.
//!
//! The catalog's contract is stated against a mathematical model of the
//! sample scan: the sequence of tile keys in scan order.  `firsts` gives the
//! distinct keys in first-seen order, `count_of` the occurrence counts, and
//! `catalog_models` says that a catalog is exactly the one mined from a scan.

use vstd::prelude::*;

use crate::tile::{Tile, TileKey, tiles_equal};

verus! {

/// Sum of the weights from position `lo` on.
pub open spec fn sum_weights_from(s: Seq<u64>, lo: int) -> int
    decreases s.len() - lo,
{
    if lo < 0 || lo >= s.len() {
        0
    } else {
        s[lo] + sum_weights_from(s, lo + 1)
    }
}

/// Sum of a whole weight sequence.
pub open spec fn sum_weights(s: Seq<u64>) -> int {
    sum_weights_from(s, 0)
}

pub proof fn lemma_sum_from_nonneg(s: Seq<u64>, lo: int)
    ensures
        sum_weights_from(s, lo) >= 0,
    decreases s.len() - lo,
{
    if 0 <= lo < s.len() {
        lemma_sum_from_nonneg(s, lo + 1);
    }
}

/// Each element is at most the sum of its suffix, hence of the whole.
pub proof fn lemma_sum_from_element_le(s: Seq<u64>, lo: int, i: int)
    requires
        0 <= lo <= i < s.len(),
    ensures
        s[i] <= sum_weights_from(s, lo),
    decreases i - lo,
{
    lemma_sum_from_nonneg(s, lo + 1);
    if lo < i {
        lemma_sum_from_element_le(s, lo + 1, i);
    }
}

pub proof fn lemma_sum_element_le(s: Seq<u64>, i: int)
    requires
        0 <= i < s.len(),
    ensures
        s[i] <= sum_weights(s),
{
    lemma_sum_from_element_le(s, 0, i);
}

pub proof fn lemma_sum_from_update(s: Seq<u64>, lo: int, i: int, v: u64)
    requires
        0 <= lo,
        0 <= i < s.len(),
    ensures
        sum_weights_from(s.update(i, v), lo) == if lo <= i {
            sum_weights_from(s, lo) - s[i] + v
        } else {
            sum_weights_from(s, lo)
        },
    decreases s.len() - lo,
{
    if lo < s.len() {
        lemma_sum_from_update(s, lo + 1, i, v);
    }
}

/// Bumping one weight bumps the sum by the same amount.
pub proof fn lemma_sum_update(s: Seq<u64>, i: int, v: u64)
    requires
        0 <= i < s.len(),
    ensures
        sum_weights(s.update(i, v)) == sum_weights(s) - s[i] + v,
{
    lemma_sum_from_update(s, 0, i, v);
}

pub proof fn lemma_sum_from_push(s: Seq<u64>, lo: int, v: u64)
    requires
        0 <= lo,
    ensures
        sum_weights_from(s.push(v), lo) == if lo <= s.len() {
            sum_weights_from(s, lo) + v
        } else {
            0
        },
    decreases s.len() - lo,
{
    if lo < s.len() {
        lemma_sum_from_push(s, lo + 1, v);
    } else if lo == s.len() {
        assert(sum_weights_from(s.push(v), lo) == v + sum_weights_from(s.push(v), lo + 1));
    }
}

/// Appending a weight adds it to the sum.
pub proof fn lemma_sum_push(s: Seq<u64>, v: u64)
    ensures
        sum_weights(s.push(v)) == sum_weights(s) + v,
{
    lemma_sum_from_push(s, 0, v);
}

/// The distinct keys of a scan, in first-seen order.
pub open spec fn firsts(s: Seq<TileKey>) -> Seq<TileKey>
    decreases s.len(),
{
    if s.len() == 0 {
        Seq::empty()
    } else {
        let p = firsts(s.drop_last());
        if p.contains(s.last()) {
            p
        } else {
            p.push(s.last())
        }
    }
}

/// How often a key occurs in a scan.
pub open spec fn count_of(s: Seq<TileKey>, k: TileKey) -> int
    decreases s.len(),
{
    if s.len() == 0 {
        0
    } else {
        count_of(s.drop_last(), k) + if s.last() == k {
            1int
        } else {
            0int
        }
    }
}

pub proof fn lemma_firsts_push(s: Seq<TileKey>, k: TileKey)
    ensures
        firsts(s.push(k)) == if firsts(s).contains(k) {
            firsts(s)
        } else {
            firsts(s).push(k)
        },
{
    assert(s.push(k).drop_last() =~= s);
    assert(s.push(k).last() == k);
}

pub proof fn lemma_count_push(s: Seq<TileKey>, k: TileKey, k2: TileKey)
    ensures
        count_of(s.push(k), k2) == count_of(s, k2) + if k2 == k {
            1int
        } else {
            0int
        },
{
    assert(s.push(k).drop_last() =~= s);
    assert(s.push(k).last() == k);
}

/// A key is among the firsts exactly when it occurs in the scan.
pub proof fn lemma_firsts_contains(s: Seq<TileKey>, k: TileKey)
    ensures
        firsts(s).contains(k) == s.contains(k),
    decreases s.len(),
{
    if s.len() > 0 {
        lemma_firsts_contains(s.drop_last(), k);
        let p = firsts(s.drop_last());
        if s.drop_last().contains(k) {
            let i = choose|i: int| 0 <= i < s.drop_last().len() && s.drop_last()[i] == k;
            assert(s[i] == k);
            assert(s.contains(k));
        }
        if s.last() == k {
            assert(s[s.len() - 1] == k);
            assert(s.contains(k));
        }
        if s.contains(k) {
            let i = choose|i: int| 0 <= i < s.len() && s[i] == k;
            if i < s.len() - 1 {
                assert(s.drop_last()[i] == k);
                assert(s.drop_last().contains(k));
                if p.contains(s.last()) {
                    assert(firsts(s) == p);
                    assert(firsts(s).contains(k));
                } else {
                    let j = choose|j: int| 0 <= j < p.len() && p[j] == k;
                    assert(firsts(s)[j] == k);
                    assert(firsts(s).contains(k));
                }
            } else {
                if p.contains(s.last()) {
                    assert(firsts(s).contains(k));
                } else {
                    assert(firsts(s)[p.len() as int] == k);
                    assert(firsts(s).contains(k));
                }
            }
        }
        if firsts(s).contains(k) {
            let i = choose|i: int| 0 <= i < firsts(s).len() && firsts(s)[i] == k;
            if i < p.len() {
                assert(p[i] == k);
                assert(p.contains(k));
            } else {
                assert(k == s.last());
                assert(s[s.len() - 1] == k);
                assert(s.contains(k));
            }
        }
    }
}

/// The firsts of a scan hold no key twice.
pub proof fn lemma_firsts_distinct(s: Seq<TileKey>)
    ensures
        forall|i: int, j: int|
            0 <= i < j < firsts(s).len() ==> #[trigger] firsts(s)[i] != #[trigger] firsts(s)[j],
    decreases s.len(),
{
    if s.len() > 0 {
        lemma_firsts_distinct(s.drop_last());
        let p = firsts(s.drop_last());
        if !p.contains(s.last()) {
            assert forall|i: int, j: int| 0 <= i < j < firsts(s).len() implies #[trigger] firsts(
                s,
            )[i] != #[trigger] firsts(s)[j] by {
                if j == firsts(s).len() - 1 {
                    assert(p.contains(p[i]));
                }
            }
        }
    }
}

/// A key occurs zero times exactly when the scan lacks it.
pub proof fn lemma_count_zero(s: Seq<TileKey>, k: TileKey)
    ensures
        (count_of(s, k) == 0) == !s.contains(k),
        count_of(s, k) >= 0,
    decreases s.len(),
{
    if s.len() > 0 {
        lemma_count_zero(s.drop_last(), k);
        if s.contains(k) {
            let i = choose|i: int| 0 <= i < s.len() && s[i] == k;
            if i < s.len() - 1 {
                assert(s.drop_last()[i] == k);
                assert(s.drop_last().contains(k));
            }
        }
        if s.drop_last().contains(k) {
            let i = choose|i: int| 0 <= i < s.drop_last().len() && s.drop_last()[i] == k;
            assert(s[i] == k);
        }
    }
}

/// Tile ids are 1-based: id `i` names `tiles[i - 1]`.
#[derive(Debug)]
pub struct TileCatalog {
    pub tiles: Vec<Tile>,
    pub weights: Vec<u64>,
    pub tile_width: usize,
    pub tile_height: usize,
}

impl TileCatalog {
    /// The catalog's tiles, by identity.
    pub open spec fn keys(&self) -> Seq<TileKey> {
        self.tiles@.map(|i: int, t: Tile| t.key())
    }

    /// Weights line up with tiles, every tile is distinct and well formed
    /// with the catalog's block dimensions, every weight is positive, and
    /// the total weight fits a `u64`.
    pub open spec fn wf(&self) -> bool {
        &&& self.weights@.len() == self.tiles@.len()
        &&& self.tile_width >= 1
        &&& self.tile_height >= 1
        &&& forall|i: int, j: int|
            #![trigger self.tiles@[i], self.tiles@[j]]
            0 <= i < j < self.tiles@.len() ==> self.tiles@[i].key() != self.tiles@[j].key()
        &&& forall|i: int|
            0 <= i < self.tiles@.len() ==> (#[trigger] self.tiles@[i]).wf()
                && self.tiles@[i].width == self.tile_width && self.tiles@[i].height
                == self.tile_height
        &&& forall|i: int| 0 <= i < self.weights@.len() ==> 1 <= #[trigger] self.weights@[i]
        &&& sum_weights(self.weights@) <= u64::MAX
    }

    /// Ids run from 1 to the number of distinct tiles.
    pub open spec fn valid_id(&self, id: usize) -> bool {
        1 <= id <= self.tiles@.len()
    }

    pub open spec fn spec_tile_of(&self, id: usize) -> Tile {
        self.tiles@[id - 1]
    }

    pub open spec fn spec_weight_of(&self, id: usize) -> u64 {
        self.weights@[id - 1]
    }

    /// A fresh catalog for tiles of the given block dimensions.
    pub fn empty(tile_width: usize, tile_height: usize) -> (c: TileCatalog)
        requires
            tile_width >= 1,
            tile_height >= 1,
        ensures
            c.wf(),
            c.tiles@ == Seq::<Tile>::empty(),
            c.weights@ == Seq::<u64>::empty(),
            c.tile_width == tile_width,
            c.tile_height == tile_height,
    {
        TileCatalog { tiles: Vec::new(), weights: Vec::new(), tile_width, tile_height }
    }

    /// Number of distinct tiles seen so far.
    pub fn len(&self) -> (n: usize)
        ensures
            n == self.tiles@.len(),
    {
        self.tiles.len()
    }

    /// Looks a tile up by identity.  Returns its id if the catalog holds an
    /// equal tile, and `None` if no catalog tile matches.
    pub fn find(&self, t: &Tile) -> (r: Option<usize>)
        ensures
            match r {
                Some(id) => self.valid_id(id) && self.spec_tile_of(id).key() == t.key(),
                None => forall|i: int|
                    0 <= i < self.tiles@.len() ==> (#[trigger] self.tiles@[i]).key() != t.key(),
            },
    {
        let mut i: usize = 0;
        while i < self.tiles.len()
            invariant
                i <= self.tiles@.len(),
                forall|j: int| 0 <= j < i ==> (#[trigger] self.tiles@[j]).key() != t.key(),
            decreases self.tiles@.len() - i,
        {
            if tiles_equal(&self.tiles[i], t) {
                return Some(i + 1);
            }
            i += 1;
        }
        None
    }

    /// Records one occurrence of a tile: a new tile enters with weight 1 at
    /// the next id, a known tile keeps its id and gains weight 1.  Returns
    /// the tile's id.
    pub fn observe(&mut self, t: Tile) -> (id: usize)
        requires
            old(self).wf(),
            t.wf(),
            t.width == old(self).tile_width,
            t.height == old(self).tile_height,
            sum_weights(old(self).weights@) + 1 <= u64::MAX,
        ensures
            final(self).wf(),
            final(self).tile_width == old(self).tile_width,
            final(self).tile_height == old(self).tile_height,
            1 <= id <= final(self).tiles@.len(),
            final(self).keys()[id - 1] == t.key(),
            sum_weights(final(self).weights@) == sum_weights(old(self).weights@) + 1,
            old(self).keys().contains(t.key()) ==> {
                &&& final(self).tiles@ == old(self).tiles@
                &&& id <= old(self).tiles@.len() && old(self).keys()[id - 1] == t.key()
                &&& final(self).weights@ == old(self).weights@.update(
                    id - 1,
                    (old(self).weights@[id - 1] + 1) as u64,
                )
            },
            !old(self).keys().contains(t.key()) ==> {
                &&& id == old(self).tiles@.len() + 1
                &&& final(self).tiles@ == old(self).tiles@.push(t)
                &&& final(self).weights@ == old(self).weights@.push(1u64)
            },
    {
        let found = self.find(&t);
        match found {
            Some(id) => {
                proof {
                    lemma_sum_element_le(self.weights@, id - 1);
                    lemma_sum_update(
                        self.weights@,
                        id - 1,
                        (self.weights@[id - 1] + 1) as u64,
                    );
                    assert(old(self).keys()[id - 1] == t.key());
                    assert(old(self).keys().contains(t.key()));
                }
                let w = self.weights[id - 1];
                self.weights[id - 1] = w + 1;
                id
            },
            None => {
                proof {
                    lemma_sum_push(self.weights@, 1u64);
                    if old(self).keys().contains(t.key()) {
                        let i = choose|i: int|
                            0 <= i < old(self).keys().len() && old(self).keys()[i] == t.key();
                        assert(old(self).tiles@[i].key() == t.key());
                    }
                }
                self.tiles.push(t);
                self.weights.push(1);
                let id = self.tiles.len();
                proof {
                    assert(final(self).keys()[id - 1] == t.key());
                }
                id
            },
        }
    }
}

/// `c` is exactly the catalog mined from the scan `scan`: its tiles are the
/// scan's distinct keys in first-seen order, and each weight is the key's
/// occurrence count.
pub open spec fn catalog_models(c: TileCatalog, scan: Seq<TileKey>) -> bool {
    &&& c.keys() == firsts(scan)
    &&& c.weights@.len() == c.tiles@.len()
    &&& forall|i: int|
        0 <= i < c.weights@.len() ==> #[trigger] c.weights@[i] == count_of(scan, c.keys()[i])
}

/// One `observe` step keeps the catalog an exact model of the scan: if `c`
/// models `scan` and an occurrence of `k` is recorded as `observe` promises,
/// the result models `scan.push(k)`.
pub proof fn lemma_models_observe(
    pre: TileCatalog,
    post: TileCatalog,
    scan: Seq<TileKey>,
    k: TileKey,
    id: usize,
)
    requires
        catalog_models(pre, scan),
        post.weights@.len() == post.tiles@.len(),
        1 <= id <= post.tiles@.len(),
        post.keys()[id - 1] == k,
        pre.keys().contains(k) ==> {
            &&& post.keys() == pre.keys()
            &&& id <= pre.tiles@.len() && pre.keys()[id - 1] == k
            &&& post.weights@ == pre.weights@.update(id - 1, (pre.weights@[id - 1] + 1) as u64)
            &&& pre.weights@[id - 1] + 1 <= u64::MAX
        },
        !pre.keys().contains(k) ==> {
            &&& id == pre.tiles@.len() + 1
            &&& post.keys() == pre.keys().push(k)
            &&& post.weights@ == pre.weights@.push(1u64)
        },
    ensures
        catalog_models(post, scan.push(k)),
{
    lemma_firsts_push(scan, k);
    lemma_firsts_contains(scan, k);
    lemma_firsts_distinct(scan);
    lemma_count_zero(scan, k);
    assert(pre.keys().len() == pre.tiles@.len());
    assert(post.keys().len() == post.tiles@.len());
    if pre.keys().contains(k) {
        assert(firsts(scan).contains(k));
        assert(firsts(scan.push(k)) == firsts(scan));
        assert(post.keys() == firsts(scan.push(k)));
        assert forall|i: int| 0 <= i < post.weights@.len() implies #[trigger] post.weights@[i]
            == count_of(scan.push(k), post.keys()[i]) by {
            lemma_count_push(scan, k, post.keys()[i]);
            if i != id - 1 {
                assert(post.keys()[i] != k);
                assert(post.weights@[i] == pre.weights@[i]);
            }
        }
    } else {
        assert(!firsts(scan).contains(k));
        assert(firsts(scan.push(k)) == firsts(scan).push(k));
        assert(post.keys() == firsts(scan.push(k)));
        assert forall|i: int| 0 <= i < post.weights@.len() implies #[trigger] post.weights@[i]
            == count_of(scan.push(k), post.keys()[i]) by {
            lemma_count_push(scan, k, post.keys()[i]);
            if i != id - 1 {
                assert(post.keys()[i] == pre.keys()[i]);
                assert(firsts(scan)[i] == pre.keys()[i]);
                assert(firsts(scan).contains(firsts(scan)[i]));
                assert(pre.keys()[i] != k);
            } else {
                assert(count_of(scan, k) == 0);
            }
        }
    }
}

/// Building the model twice from the same sample scan yields the same
/// catalog: the same tiles under the same ids, with the same weights.
pub proof fn lemma_build_model_deterministic(c1: TileCatalog, c2: TileCatalog, scan: Seq<TileKey>)
    requires
        catalog_models(c1, scan),
        catalog_models(c2, scan),
    ensures
        c1.keys() == c2.keys(),
        c1.weights@ == c2.weights@,
{
    assert(c1.keys().len() == c1.tiles@.len());
    assert(c2.keys().len() == c2.tiles@.len());
    assert forall|i: int| 0 <= i < c1.weights@.len() implies c1.weights@[i] == c2.weights@[i] by {
        assert(c1.weights@[i] == count_of(scan, c1.keys()[i]));
        assert(c2.weights@[i] == count_of(scan, c2.keys()[i]));
    }
    assert(c1.weights@ =~= c2.weights@);
}

} // verus!
