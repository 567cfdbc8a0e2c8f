//! The model builder and the collapse solver.
//!
//! `Generator::new` mines a tile catalog and an adjacency rule set from a
//! sample pixel grid (the model builder).  `Generator::generate` runs one
//! collapse attempt over a fresh wave grid, and `Generator::gen_smart`
//! retries attempts up to a caller-chosen limit.  `Generator::render` maps a
//! collapsed grid back to pixels.

use vstd::prelude::*;
use vstd::arithmetic::div_mod::{
    lemma_fundamental_div_mod,
    lemma_fundamental_div_mod_converse,
    lemma_mod_bound,
};
use crate::WfcError;
use crate::catalog::{TileCatalog, catalog_models, sum_weights, firsts, lemma_models_observe};
use crate::direction::{Direction, opposite_spec};
use crate::rules::AdjacencyRuleSet;
use crate::rng::{sample_weighted_index, lemma_sum_picked_le, lemma_sum_of_picked_list};
use crate::tile::{Tile, TileKey};

verus! {

/// The sample as a mathematical grid of packed pixel values.
pub open spec fn sview(sample: &Vec<Vec<u32>>) -> Seq<Seq<u32>> {
    sample.deep_view()
}

/// The sample is a nonempty rectangle whose sides the block dimensions
/// divide evenly.
pub open spec fn valid_sample(s: Seq<Seq<u32>>, cw: int, ch: int) -> bool {
    &&& cw >= 1
    &&& ch >= 1
    &&& s.len() >= 1
    &&& s.len() as int % ch == 0
    &&& s[0].len() >= 1
    &&& s[0].len() as int % cw == 0
    &&& forall|y: int| 0 <= y < s.len() ==> (#[trigger] s[y]).len() == s[0].len()
}

/// The pixels of the tile whose top-left corner is sample position
/// `(ty * ch, tx * cw)`, row-major.
pub open spec fn block_pixels(s: Seq<Seq<u32>>, cw: int, ch: int, ty: int, tx: int) -> Seq<u32> {
    Seq::new((ch * cw) as nat, |k: int| s[ty * ch + k / cw][tx * cw + k % cw])
}

/// The identity of the tile at tile position `(ty, tx)`.
pub open spec fn block_key(s: Seq<Seq<u32>>, cw: int, ch: int, ty: int, tx: int) -> TileKey {
    (block_pixels(s, cw, ch, ty, tx), cw as nat, ch as nat)
}

/// The sample's tile keys in row-major scan order.
pub open spec fn scan_keys(s: Seq<Seq<u32>>, cw: int, ch: int, trows: int, tcols: int) -> Seq<
    TileKey,
> {
    Seq::new((trows * tcols) as nat, |i: int| block_key(s, cw, ch, i / tcols, i % tcols))
}

/// Scan position `ty * tcols + tx` holds the key of tile `(ty, tx)`.
pub proof fn lemma_scan_at(
    s: Seq<Seq<u32>>,
    cw: int,
    ch: int,
    trows: int,
    tcols: int,
    ty: int,
    tx: int,
)
    requires
        0 <= ty < trows,
        0 <= tx < tcols,
    ensures
        0 <= ty * tcols + tx < trows * tcols,
        scan_keys(s, cw, ch, trows, tcols)[ty * tcols + tx] == block_key(s, cw, ch, ty, tx),
{
    assert(0 <= ty * tcols + tx && ty * tcols + tx < trows * tcols) by (nonlinear_arith)
        requires
            0 <= ty < trows,
            0 <= tx < tcols,
    ;
    let m = ty * tcols + tx;
    lemma_fundamental_div_mod_converse(m, tcols, ty, tx);
    assert(scan_keys(s, cw, ch, trows, tcols)[m] == block_key(s, cw, ch, m / tcols, m % tcols));
}

/// Id `id` names the tile at tile position `(ty, tx)` of the sample.
pub open spec fn tile_at_id(
    c: TileCatalog,
    s: Seq<Seq<u32>>,
    cw: int,
    ch: int,
    ty: int,
    tx: int,
    id: usize,
) -> bool {
    1 <= id <= c.keys().len() && c.keys()[id - 1] == block_key(s, cw, ch, ty, tx)
}

/// The sample exhibits the adjacency `(a, b, d)`: somewhere in the sample,
/// tile `b` sits immediately in direction `d` from tile `a`.
pub open spec fn sample_has_adjacency(
    c: TileCatalog,
    s: Seq<Seq<u32>>,
    cw: int,
    ch: int,
    trows: int,
    tcols: int,
    a: usize,
    b: usize,
    d: Direction,
) -> bool {
    match d {
        Direction::Right => exists|ty: int, tx: int|
            #![auto]
            0 <= ty < trows && 0 <= tx && tx + 1 < tcols && tile_at_id(c, s, cw, ch, ty, tx, a)
                && tile_at_id(c, s, cw, ch, ty, tx + 1, b),
        Direction::Left => exists|ty: int, tx: int|
            #![auto]
            0 <= ty < trows && 0 <= tx && tx + 1 < tcols && tile_at_id(c, s, cw, ch, ty, tx + 1, a)
                && tile_at_id(c, s, cw, ch, ty, tx, b),
        Direction::Down => exists|ty: int, tx: int|
            #![auto]
            0 <= ty && ty + 1 < trows && 0 <= tx < tcols && tile_at_id(c, s, cw, ch, ty, tx, a)
                && tile_at_id(c, s, cw, ch, ty + 1, tx, b),
        Direction::Up => exists|ty: int, tx: int|
            #![auto]
            0 <= ty && ty + 1 < trows && 0 <= tx < tcols && tile_at_id(c, s, cw, ch, ty + 1, tx, a)
                && tile_at_id(c, s, cw, ch, ty, tx, b),
    }
}

/// Position `(py, px)` comes before `(ty, tx)` in row-major scan order.
pub open spec fn pos_before(py: int, px: int, ty: int, tx: int) -> bool {
    py < ty || (py == ty && px < tx)
}

/// The adjacency facts contributed by the sample positions that a row-major
/// scan visits before `(ty, tx)`.
pub open spec fn adj_seen(
    c: TileCatalog,
    s: Seq<Seq<u32>>,
    cw: int,
    ch: int,
    trows: int,
    tcols: int,
    ty: int,
    tx: int,
    a: usize,
    b: usize,
    d: Direction,
) -> bool {
    match d {
        Direction::Right => exists|py: int, px: int|
            #![auto]
            0 <= py < trows && 0 <= px && px + 1 < tcols && pos_before(py, px, ty, tx)
                && tile_at_id(c, s, cw, ch, py, px, a) && tile_at_id(c, s, cw, ch, py, px + 1, b),
        Direction::Left => exists|py: int, px: int|
            #![auto]
            0 <= py < trows && 0 <= px && px + 1 < tcols && pos_before(py, px, ty, tx)
                && tile_at_id(c, s, cw, ch, py, px + 1, a) && tile_at_id(c, s, cw, ch, py, px, b),
        Direction::Down => exists|py: int, px: int|
            #![auto]
            0 <= py && py + 1 < trows && 0 <= px < tcols && pos_before(py, px, ty, tx)
                && tile_at_id(c, s, cw, ch, py, px, a) && tile_at_id(c, s, cw, ch, py + 1, px, b),
        Direction::Up => exists|py: int, px: int|
            #![auto]
            0 <= py && py + 1 < trows && 0 <= px < tcols && pos_before(py, px, ty, tx)
                && tile_at_id(c, s, cw, ch, py + 1, px, a) && tile_at_id(c, s, cw, ch, py, px, b),
    }
}

/// Two ids naming the same sample position are the same id: the catalog's
/// keys are pairwise distinct.
proof fn lemma_tile_id_unique(
    c: TileCatalog,
    s: Seq<Seq<u32>>,
    cw: int,
    ch: int,
    ty: int,
    tx: int,
    x: usize,
    y: usize,
)
    requires
        c.wf(),
        tile_at_id(c, s, cw, ch, ty, tx, x),
        tile_at_id(c, s, cw, ch, ty, tx, y),
    ensures
        x == y,
{
    assert(c.keys()[x - 1] == c.tiles@[x - 1].key());
    assert(c.keys()[y - 1] == c.tiles@[y - 1].key());
    if x < y {
        assert(c.tiles@[x - 1].key() != c.tiles@[y - 1].key());
    }
    if y < x {
        assert(c.tiles@[y - 1].key() != c.tiles@[x - 1].key());
    }
}

/// Advancing the scan by one position adds exactly that position's facts.
proof fn lemma_adj_seen_extend(
    c: TileCatalog,
    s: Seq<Seq<u32>>,
    cw: int,
    ch: int,
    trows: int,
    tcols: int,
    ty: int,
    tx: int,
    a: usize,
    b: usize,
    d: Direction,
)
    requires
        0 <= ty < trows,
        0 <= tx < tcols,
    ensures
        adj_seen(c, s, cw, ch, trows, tcols, ty, tx + 1, a, b, d) == (adj_seen(
            c,
            s,
            cw,
            ch,
            trows,
            tcols,
            ty,
            tx,
            a,
            b,
            d,
        ) || (match d {
            Direction::Right => tx + 1 < tcols && tile_at_id(c, s, cw, ch, ty, tx, a) && tile_at_id(
                c,
                s,
                cw,
                ch,
                ty,
                tx + 1,
                b,
            ),
            Direction::Left => tx + 1 < tcols && tile_at_id(c, s, cw, ch, ty, tx + 1, a)
                && tile_at_id(c, s, cw, ch, ty, tx, b),
            Direction::Down => ty + 1 < trows && tile_at_id(c, s, cw, ch, ty, tx, a) && tile_at_id(
                c,
                s,
                cw,
                ch,
                ty + 1,
                tx,
                b,
            ),
            Direction::Up => ty + 1 < trows && tile_at_id(c, s, cw, ch, ty + 1, tx, a)
                && tile_at_id(c, s, cw, ch, ty, tx, b),
        })),
{
    assert(pos_before(ty, tx, ty, tx + 1));
    match d {
        Direction::Right => {
            if adj_seen(c, s, cw, ch, trows, tcols, ty, tx + 1, a, b, d) {
                let (py, px) = choose|py: int, px: int|
                    #![auto]
                    0 <= py < trows && 0 <= px && px + 1 < tcols && pos_before(py, px, ty, tx + 1)
                        && tile_at_id(c, s, cw, ch, py, px, a) && tile_at_id(
                        c,
                        s,
                        cw,
                        ch,
                        py,
                        px + 1,
                        b,
                    );
                assert(pos_before(py, px, ty, tx) || (py == ty && px == tx));
            }
            if adj_seen(c, s, cw, ch, trows, tcols, ty, tx, a, b, d) {
                let (py, px) = choose|py: int, px: int|
                    #![auto]
                    0 <= py < trows && 0 <= px && px + 1 < tcols && pos_before(py, px, ty, tx)
                        && tile_at_id(c, s, cw, ch, py, px, a) && tile_at_id(
                        c,
                        s,
                        cw,
                        ch,
                        py,
                        px + 1,
                        b,
                    );
                assert(pos_before(py, px, ty, tx + 1));
                assert(adj_seen(c, s, cw, ch, trows, tcols, ty, tx + 1, a, b, d));
            }
        },
        Direction::Left => {
            if adj_seen(c, s, cw, ch, trows, tcols, ty, tx + 1, a, b, d) {
                let (py, px) = choose|py: int, px: int|
                    #![auto]
                    0 <= py < trows && 0 <= px && px + 1 < tcols && pos_before(py, px, ty, tx + 1)
                        && tile_at_id(c, s, cw, ch, py, px + 1, a) && tile_at_id(
                        c,
                        s,
                        cw,
                        ch,
                        py,
                        px,
                        b,
                    );
                assert(pos_before(py, px, ty, tx) || (py == ty && px == tx));
            }
            if adj_seen(c, s, cw, ch, trows, tcols, ty, tx, a, b, d) {
                let (py, px) = choose|py: int, px: int|
                    #![auto]
                    0 <= py < trows && 0 <= px && px + 1 < tcols && pos_before(py, px, ty, tx)
                        && tile_at_id(c, s, cw, ch, py, px + 1, a) && tile_at_id(
                        c,
                        s,
                        cw,
                        ch,
                        py,
                        px,
                        b,
                    );
                assert(pos_before(py, px, ty, tx + 1));
                assert(adj_seen(c, s, cw, ch, trows, tcols, ty, tx + 1, a, b, d));
            }
        },
        Direction::Down => {
            if adj_seen(c, s, cw, ch, trows, tcols, ty, tx + 1, a, b, d) {
                let (py, px) = choose|py: int, px: int|
                    #![auto]
                    0 <= py && py + 1 < trows && 0 <= px < tcols && pos_before(py, px, ty, tx + 1)
                        && tile_at_id(c, s, cw, ch, py, px, a) && tile_at_id(
                        c,
                        s,
                        cw,
                        ch,
                        py + 1,
                        px,
                        b,
                    );
                assert(pos_before(py, px, ty, tx) || (py == ty && px == tx));
            }
            if adj_seen(c, s, cw, ch, trows, tcols, ty, tx, a, b, d) {
                let (py, px) = choose|py: int, px: int|
                    #![auto]
                    0 <= py && py + 1 < trows && 0 <= px < tcols && pos_before(py, px, ty, tx)
                        && tile_at_id(c, s, cw, ch, py, px, a) && tile_at_id(
                        c,
                        s,
                        cw,
                        ch,
                        py + 1,
                        px,
                        b,
                    );
                assert(pos_before(py, px, ty, tx + 1));
                assert(adj_seen(c, s, cw, ch, trows, tcols, ty, tx + 1, a, b, d));
            }
        },
        Direction::Up => {
            if adj_seen(c, s, cw, ch, trows, tcols, ty, tx + 1, a, b, d) {
                let (py, px) = choose|py: int, px: int|
                    #![auto]
                    0 <= py && py + 1 < trows && 0 <= px < tcols && pos_before(py, px, ty, tx + 1)
                        && tile_at_id(c, s, cw, ch, py + 1, px, a) && tile_at_id(
                        c,
                        s,
                        cw,
                        ch,
                        py,
                        px,
                        b,
                    );
                assert(pos_before(py, px, ty, tx) || (py == ty && px == tx));
            }
            if adj_seen(c, s, cw, ch, trows, tcols, ty, tx, a, b, d) {
                let (py, px) = choose|py: int, px: int|
                    #![auto]
                    0 <= py && py + 1 < trows && 0 <= px < tcols && pos_before(py, px, ty, tx)
                        && tile_at_id(c, s, cw, ch, py + 1, px, a) && tile_at_id(
                        c,
                        s,
                        cw,
                        ch,
                        py,
                        px,
                        b,
                    );
                assert(pos_before(py, px, ty, tx + 1));
                assert(adj_seen(c, s, cw, ch, trows, tcols, ty, tx + 1, a, b, d));
            }
        },
    }
}

/// At the end of a row, the scan front moves to the head of the next row
/// without gaining or losing facts.
proof fn lemma_adj_seen_wrap(
    c: TileCatalog,
    s: Seq<Seq<u32>>,
    cw: int,
    ch: int,
    trows: int,
    tcols: int,
    ty: int,
    a: usize,
    b: usize,
    d: Direction,
)
    ensures
        adj_seen(c, s, cw, ch, trows, tcols, ty, tcols, a, b, d) == adj_seen(
            c,
            s,
            cw,
            ch,
            trows,
            tcols,
            ty + 1,
            0,
            a,
            b,
            d,
        ),
{
    let lhs = adj_seen(c, s, cw, ch, trows, tcols, ty, tcols, a, b, d);
    let rhs = adj_seen(c, s, cw, ch, trows, tcols, ty + 1, 0, a, b, d);
    match d {
        Direction::Right => {
            if lhs {
                let (py, px) = choose|py: int, px: int|
                    #![auto]
                    0 <= py < trows && 0 <= px && px + 1 < tcols && pos_before(py, px, ty, tcols)
                        && tile_at_id(c, s, cw, ch, py, px, a) && tile_at_id(
                        c,
                        s,
                        cw,
                        ch,
                        py,
                        px + 1,
                        b,
                    );
                assert(pos_before(py, px, ty + 1, 0));
                assert(rhs);
            }
            if rhs {
                let (py, px) = choose|py: int, px: int|
                    #![auto]
                    0 <= py < trows && 0 <= px && px + 1 < tcols && pos_before(py, px, ty + 1, 0)
                        && tile_at_id(c, s, cw, ch, py, px, a) && tile_at_id(
                        c,
                        s,
                        cw,
                        ch,
                        py,
                        px + 1,
                        b,
                    );
                assert(pos_before(py, px, ty, tcols));
                assert(lhs);
            }
        },
        Direction::Left => {
            if lhs {
                let (py, px) = choose|py: int, px: int|
                    #![auto]
                    0 <= py < trows && 0 <= px && px + 1 < tcols && pos_before(py, px, ty, tcols)
                        && tile_at_id(c, s, cw, ch, py, px + 1, a) && tile_at_id(
                        c,
                        s,
                        cw,
                        ch,
                        py,
                        px,
                        b,
                    );
                assert(pos_before(py, px, ty + 1, 0));
                assert(rhs);
            }
            if rhs {
                let (py, px) = choose|py: int, px: int|
                    #![auto]
                    0 <= py < trows && 0 <= px && px + 1 < tcols && pos_before(py, px, ty + 1, 0)
                        && tile_at_id(c, s, cw, ch, py, px + 1, a) && tile_at_id(
                        c,
                        s,
                        cw,
                        ch,
                        py,
                        px,
                        b,
                    );
                assert(pos_before(py, px, ty, tcols));
                assert(lhs);
            }
        },
        Direction::Down => {
            if lhs {
                let (py, px) = choose|py: int, px: int|
                    #![auto]
                    0 <= py && py + 1 < trows && 0 <= px < tcols && pos_before(py, px, ty, tcols)
                        && tile_at_id(c, s, cw, ch, py, px, a) && tile_at_id(
                        c,
                        s,
                        cw,
                        ch,
                        py + 1,
                        px,
                        b,
                    );
                assert(pos_before(py, px, ty + 1, 0));
                assert(rhs);
            }
            if rhs {
                let (py, px) = choose|py: int, px: int|
                    #![auto]
                    0 <= py && py + 1 < trows && 0 <= px < tcols && pos_before(py, px, ty + 1, 0)
                        && tile_at_id(c, s, cw, ch, py, px, a) && tile_at_id(
                        c,
                        s,
                        cw,
                        ch,
                        py + 1,
                        px,
                        b,
                    );
                assert(pos_before(py, px, ty, tcols));
                assert(lhs);
            }
        },
        Direction::Up => {
            if lhs {
                let (py, px) = choose|py: int, px: int|
                    #![auto]
                    0 <= py && py + 1 < trows && 0 <= px < tcols && pos_before(py, px, ty, tcols)
                        && tile_at_id(c, s, cw, ch, py + 1, px, a) && tile_at_id(
                        c,
                        s,
                        cw,
                        ch,
                        py,
                        px,
                        b,
                    );
                assert(pos_before(py, px, ty + 1, 0));
                assert(rhs);
            }
            if rhs {
                let (py, px) = choose|py: int, px: int|
                    #![auto]
                    0 <= py && py + 1 < trows && 0 <= px < tcols && pos_before(py, px, ty + 1, 0)
                        && tile_at_id(c, s, cw, ch, py + 1, px, a) && tile_at_id(
                        c,
                        s,
                        cw,
                        ch,
                        py,
                        px,
                        b,
                    );
                assert(pos_before(py, px, ty, tcols));
                assert(lhs);
            }
        },
    }
}

/// Once every position is scanned, the seen facts are the sample's
/// adjacencies.
proof fn lemma_adj_seen_full(
    c: TileCatalog,
    s: Seq<Seq<u32>>,
    cw: int,
    ch: int,
    trows: int,
    tcols: int,
    a: usize,
    b: usize,
    d: Direction,
)
    ensures
        adj_seen(c, s, cw, ch, trows, tcols, trows, 0, a, b, d) == sample_has_adjacency(
            c,
            s,
            cw,
            ch,
            trows,
            tcols,
            a,
            b,
            d,
        ),
{
    let lhs = adj_seen(c, s, cw, ch, trows, tcols, trows, 0, a, b, d);
    let rhs = sample_has_adjacency(c, s, cw, ch, trows, tcols, a, b, d);
    match d {
        Direction::Right => {
            if lhs {
                let (py, px) = choose|py: int, px: int|
                    #![auto]
                    0 <= py < trows && 0 <= px && px + 1 < tcols && pos_before(py, px, trows, 0)
                        && tile_at_id(c, s, cw, ch, py, px, a) && tile_at_id(
                        c,
                        s,
                        cw,
                        ch,
                        py,
                        px + 1,
                        b,
                    );
                assert(rhs);
            }
            if rhs {
                let (py, px) = choose|py: int, px: int|
                    #![auto]
                    0 <= py < trows && 0 <= px && px + 1 < tcols && tile_at_id(
                        c,
                        s,
                        cw,
                        ch,
                        py,
                        px,
                        a,
                    ) && tile_at_id(c, s, cw, ch, py, px + 1, b);
                assert(pos_before(py, px, trows, 0));
                assert(lhs);
            }
        },
        Direction::Left => {
            if lhs {
                let (py, px) = choose|py: int, px: int|
                    #![auto]
                    0 <= py < trows && 0 <= px && px + 1 < tcols && pos_before(py, px, trows, 0)
                        && tile_at_id(c, s, cw, ch, py, px + 1, a) && tile_at_id(
                        c,
                        s,
                        cw,
                        ch,
                        py,
                        px,
                        b,
                    );
                assert(rhs);
            }
            if rhs {
                let (py, px) = choose|py: int, px: int|
                    #![auto]
                    0 <= py < trows && 0 <= px && px + 1 < tcols && tile_at_id(
                        c,
                        s,
                        cw,
                        ch,
                        py,
                        px + 1,
                        a,
                    ) && tile_at_id(c, s, cw, ch, py, px, b);
                assert(pos_before(py, px, trows, 0));
                assert(lhs);
            }
        },
        Direction::Down => {
            if lhs {
                let (py, px) = choose|py: int, px: int|
                    #![auto]
                    0 <= py && py + 1 < trows && 0 <= px < tcols && pos_before(py, px, trows, 0)
                        && tile_at_id(c, s, cw, ch, py, px, a) && tile_at_id(
                        c,
                        s,
                        cw,
                        ch,
                        py + 1,
                        px,
                        b,
                    );
                assert(rhs);
            }
            if rhs {
                let (py, px) = choose|py: int, px: int|
                    #![auto]
                    0 <= py && py + 1 < trows && 0 <= px < tcols && tile_at_id(
                        c,
                        s,
                        cw,
                        ch,
                        py,
                        px,
                        a,
                    ) && tile_at_id(c, s, cw, ch, py + 1, px, b);
                assert(pos_before(py, px, trows, 0));
                assert(lhs);
            }
        },
        Direction::Up => {
            if lhs {
                let (py, px) = choose|py: int, px: int|
                    #![auto]
                    0 <= py && py + 1 < trows && 0 <= px < tcols && pos_before(py, px, trows, 0)
                        && tile_at_id(c, s, cw, ch, py + 1, px, a) && tile_at_id(
                        c,
                        s,
                        cw,
                        ch,
                        py,
                        px,
                        b,
                    );
                assert(rhs);
            }
            if rhs {
                let (py, px) = choose|py: int, px: int|
                    #![auto]
                    0 <= py && py + 1 < trows && 0 <= px < tcols && tile_at_id(
                        c,
                        s,
                        cw,
                        ch,
                        py + 1,
                        px,
                        a,
                    ) && tile_at_id(c, s, cw, ch, py, px, b);
                assert(pos_before(py, px, trows, 0));
                assert(lhs);
            }
        },
    }
}

/// Copies the tile at tile position `(ty, tx)` out of the sample.
#[verifier::loop_isolation(false)]
fn extract_tile(sample: &Vec<Vec<u32>>, cw: usize, ch: usize, ty: usize, tx: usize) -> (t: Tile)
    requires
        cw >= 1,
        ch >= 1,
        (ty + 1) * ch <= sview(sample).len(),
        (ty + 1) * ch <= usize::MAX,
        (tx + 1) * cw <= usize::MAX,
        forall|y: int|
            0 <= y < sview(sample).len() ==> (tx + 1) * cw <= (#[trigger] sview(sample)[y]).len(),
    ensures
        t.wf(),
        t.width == cw,
        t.height == ch,
        t.key() == block_key(sview(sample), cw as int, ch as int, ty as int, tx as int),
{
    proof {
        assert((ty + 1) * ch == ty * ch + ch) by (nonlinear_arith);
        assert((tx + 1) * cw == tx * cw + cw) by (nonlinear_arith);
        assert(ty * ch >= 0 && tx * cw >= 0) by (nonlinear_arith)
            requires
                ty >= 0,
                tx >= 0,
                ch >= 1,
                cw >= 1,
        ;
    }
    let base_y = ty * ch;
    let mut pixels: Vec<u32> = Vec::new();
    let mut y_in: usize = 0;
    while y_in < ch
        invariant
            y_in <= ch,
            pixels@.len() == y_in * cw,
            forall|k: int|
                0 <= k < pixels@.len() ==> #[trigger] pixels@[k] == sview(sample)[ty as int
                    * ch + k / (cw as int)][tx as int * cw + k % (cw as int)],
        decreases ch - y_in,
    {
        let mut x_in: usize = 0;
        proof {
            assert(y_in * cw + cw == (y_in + 1) * cw) by (nonlinear_arith);
            assert((y_in + 1) * cw <= ch * cw) by (nonlinear_arith)
                requires
                    y_in + 1 <= ch,
                    cw >= 1,
            ;
        }
        while x_in < cw
            invariant
                x_in <= cw,
                y_in < ch,
                pixels@.len() == y_in * cw + x_in,
                forall|k: int|
                    0 <= k < pixels@.len() ==> #[trigger] pixels@[k] == sview(sample)[ty as int
                        * ch + k / (cw as int)][tx as int * cw + k % (cw as int)],
            decreases cw - x_in,
        {
            let py = base_y + y_in;
            proof {
                assert(tx * cw + x_in < (tx + 1) * cw) by (nonlinear_arith)
                    requires
                        x_in < cw,
                ;
                assert(sview(sample)[py as int].len() >= (tx + 1) * cw);
                assert(sview(sample)[py as int] == sample@[py as int]@);
            }
            let px = tx * cw + x_in;
            let v = sample[py][px];
            proof {
                lemma_fundamental_div_mod_converse(
                    (y_in * cw + x_in) as int,
                    cw as int,
                    y_in as int,
                    x_in as int,
                );
            }
            pixels.push(v);
            x_in += 1;
        }
        y_in += 1;
    }
    let t = Tile { pixels, width: cw, height: ch };
    proof {
        assert(cw * ch == ch * cw) by (nonlinear_arith);
        assert(t.pixels@ =~= block_pixels(
            sview(sample),
            cw as int,
            ch as int,
            ty as int,
            tx as int,
        ));
    }
    t
}

/// Every entry of the id grid names the tile standing at its position.
pub open spec fn ids_grid_ok(
    c: TileCatalog,
    s: Seq<Seq<u32>>,
    cw: int,
    ch: int,
    ids: Seq<Seq<usize>>,
) -> bool {
    forall|yy: int, xx: int|
        #![trigger ids[yy][xx]]
        0 <= yy < ids.len() && 0 <= xx < ids[yy].len() ==> tile_at_id(
            c,
            s,
            cw,
            ch,
            yy,
            xx,
            ids[yy][xx],
        )
}

/// A cell's domain: its candidate tile ids, strictly increasing (hence
/// distinct), all valid for a catalog of `n` tiles.
pub open spec fn domain_wf(d: Seq<usize>, n: int) -> bool {
    &&& forall|p: int, q: int| 0 <= p < q < d.len() ==> #[trigger] d[p] < #[trigger] d[q]
    &&& forall|p: int| 0 <= p < d.len() ==> 1 <= #[trigger] d[p] && d[p] <= n
}

/// The solver's wave-grid invariant: one domain per cell, every domain well
/// formed for a catalog of `n` tiles, and every cell before the scan front
/// `visited` already collapsed to one candidate.
pub open spec fn waves_wf(waves: Seq<Vec<usize>>, total: int, visited: int, n: int) -> bool {
    &&& waves.len() == total
    &&& forall|i: int| 0 <= i < total ==> domain_wf((#[trigger] waves[i])@, n)
    &&& forall|i: int| 0 <= i < visited ==> (#[trigger] waves[i])@.len() == 1
}

/// No cell's domain has emptied.
pub open spec fn all_nonempty(waves: Seq<Vec<usize>>, total: int) -> bool {
    forall|i: int| 0 <= i < total ==> (#[trigger] waves[i])@.len() >= 1
}

/// What the row-major sweep guarantees on a one-row grid: every cell
/// strictly beyond the front `visited` still holds the untouched full
/// domain; the front cell's remaining candidates are all permitted beside
/// the tile its left neighbour drew; and the collapsed prefix is pairwise
/// consistent.
pub open spec fn row_progress(
    rules: &AdjacencyRuleSet,
    waves: Seq<Vec<usize>>,
    full: Seq<usize>,
    total: int,
    visited: int,
) -> bool {
    &&& forall|i: int| visited < i < total ==> (#[trigger] waves[i])@ == full
    &&& (1 <= visited && visited < total ==> forall|id: usize|
        #[trigger] waves[visited]@.contains(id) ==> rules.spec_contains(
            waves[visited - 1]@[0],
            id,
            Direction::Right,
        ))
    &&& forall|k: int|
        0 <= k && k + 1 < visited ==> rules.spec_contains(
            (#[trigger] waves[k])@[0],
            waves[k + 1]@[0],
            Direction::Right,
        )
}

/// Intersects a domain with the ids permitted in direction `d` from a cell
/// collapsed to `origin`: keeps exactly the candidates `id` with a rule
/// `(origin, id, d)`, in order.
#[verifier::loop_isolation(false)]
fn restrict(rules: &AdjacencyRuleSet, dom: &Vec<usize>, origin: usize, d: Direction) -> (r: Vec<
    usize,
>)
    requires
        forall|p: int, q: int| 0 <= p < q < dom@.len() ==> #[trigger] dom@[p] < #[trigger] dom@[q],
    ensures
        forall|p: int, q: int| 0 <= p < q < r@.len() ==> #[trigger] r@[p] < #[trigger] r@[q],
        forall|id: usize|
            #[trigger] r@.contains(id) == (dom@.contains(id) && rules.spec_contains(origin, id, d)),
{
    let mut r: Vec<usize> = Vec::new();
    let mut i: usize = 0;
    while i < dom.len()
        invariant
            i <= dom@.len(),
            forall|k: int|
                0 <= k < r@.len() ==> ((exists|j: int| 0 <= j < i && dom@[j] == #[trigger] r@[k])
                    && rules.spec_contains(origin, r@[k], d)),
            forall|j: int|
                0 <= j < i && rules.spec_contains(origin, #[trigger] dom@[j], d) ==> r@.contains(
                    dom@[j],
                ),
            forall|p: int, q: int| 0 <= p < q < r@.len() ==> #[trigger] r@[p] < #[trigger] r@[q],
        decreases dom@.len() - i,
    {
        let id = dom[i];
        if rules.contains(origin, id, d) {
            proof {
                assert forall|k: int| 0 <= k < r@.len() implies #[trigger] r@[k] < id by {
                    let j = choose|j: int| 0 <= j < i && dom@[j] == r@[k];
                    assert(dom@[j] < dom@[i as int]);
                }
            }
            let ghost r0 = r@;
            r.push(id);
            proof {
                assert(r@ == r0.push(id));
                assert forall|j: int|
                    0 <= j < i + 1 && rules.spec_contains(origin, #[trigger] dom@[j], d) implies r@
                    .contains(dom@[j]) by {
                    if j < i {
                        let k = choose|k: int| 0 <= k < r0.len() && r0[k] == dom@[j];
                        assert(r@[k] == dom@[j]);
                    } else {
                        assert(r@[r@.len() - 1] == dom@[j]);
                    }
                }
            }
        } else {
            proof {
                assert forall|j: int|
                    0 <= j < i + 1 && rules.spec_contains(origin, #[trigger] dom@[j], d) implies r@
                    .contains(dom@[j]) by {}
            }
        }
        i += 1;
    }
    proof {
        assert forall|id: usize| #[trigger] r@.contains(id) == (dom@.contains(id)
            && rules.spec_contains(origin, id, d)) by {
            if r@.contains(id) {
                let k = choose|k: int| 0 <= k < r@.len() && r@[k] == id;
                let j = choose|j: int| 0 <= j < i && dom@[j] == r@[k];
                assert(dom@[j] == id);
                assert(dom@.contains(id));
            }
            if dom@.contains(id) && rules.spec_contains(origin, id, d) {
                let j = choose|j: int| 0 <= j < dom@.len() && dom@[j] == id;
                assert(r@.contains(dom@[j]));
            }
        }
    }
    r
}

/// The model mined from a sample: a tile catalog and an adjacency rule set,
/// read-only once built and shared by every generation attempt.
#[derive(Debug)]
pub struct Generator {
    pub catalog: TileCatalog,
    pub rules: AdjacencyRuleSet,
}

impl Generator {
    pub open spec fn wf(&self) -> bool {
        self.catalog.wf() && self.rules.wf(self.catalog.tiles@.len())
    }

    /// The generator is exactly the model of the given sample: the catalog
    /// holds the sample's distinct tiles in first-seen scan order with their
    /// occurrence counts as weights, and the rules are exactly the observed
    /// adjacencies.
    pub open spec fn models(&self, s: Seq<Seq<u32>>, cw: int, ch: int) -> bool {
        let trows = s.len() as int / ch;
        let tcols = s[0].len() as int / cw;
        &&& catalog_models(self.catalog, scan_keys(s, cw, ch, trows, tcols))
        &&& self.catalog.tile_width == cw
        &&& self.catalog.tile_height == ch
        &&& forall|a: usize, b: usize, d: Direction|
            #[trigger] self.rules.spec_contains(a, b, d) == sample_has_adjacency(
                self.catalog,
                s,
                cw,
                ch,
                trows,
                tcols,
                a,
                b,
                d,
            )
    }

    /// Builds the model from a sample: assigns ids and weights in one scan,
    /// then mines adjacency rules in a second scan.  Rejects a sample that
    /// is empty, ragged, or not evenly divisible into
    /// `cell_width` x `cell_height` blocks.
    #[verifier::loop_isolation(false)]
    #[verifier::rlimit(30)]
    pub fn new(sample: &Vec<Vec<u32>>, cell_width: usize, cell_height: usize) -> (r: Result<
        Generator,
        WfcError,
    >)
        requires
            sview(sample).len() <= u32::MAX,
            forall|y: int|
                0 <= y < sview(sample).len() ==> (#[trigger] sview(sample)[y]).len() <= u32::MAX,
        ensures
            match r {
                Ok(g) => valid_sample(sview(sample), cell_width as int, cell_height as int)
                    && g.wf() && g.models(sview(sample), cell_width as int, cell_height as int),
                Err(e) => e == WfcError::InvalidSampleDimensions && !valid_sample(
                    sview(sample),
                    cell_width as int,
                    cell_height as int,
                ),
            },
    {
        let ghost s = sview(sample);
        if cell_width == 0 || cell_height == 0 {
            return Err(WfcError::InvalidSampleDimensions);
        }
        let rows = sample.len();
        if rows == 0 || rows % cell_height != 0 {
            return Err(WfcError::InvalidSampleDimensions);
        }
        let cols = sample[0].len();
        if cols == 0 || cols % cell_width != 0 {
            return Err(WfcError::InvalidSampleDimensions);
        }
        let mut y: usize = 0;
        while y < rows
            invariant
                y <= rows,
                forall|yy: int| 0 <= yy < y ==> (#[trigger] s[yy]).len() == cols,
            decreases rows - y,
        {
            if sample[y].len() != cols {
                proof {
                    assert(s[y as int] =~= sample@[y as int]@);
                    assert(s[0] =~= sample@[0]@);
                    assert(s[y as int].len() != s[0].len());
                }
                return Err(WfcError::InvalidSampleDimensions);
            }
            proof {
                assert(s[y as int] =~= sample@[y as int]@);
                assert(s[0] =~= sample@[0]@);
            }
            y += 1;
        }
        assert(valid_sample(s, cell_width as int, cell_height as int));
        let cw = cell_width;
        let ch = cell_height;
        let trows = rows / ch;
        let tcols = cols / cw;
        proof {
            lemma_fundamental_div_mod(rows as int, ch as int);
            lemma_fundamental_div_mod(cols as int, cw as int);
            assert(trows * ch == rows && trows >= 1) by (nonlinear_arith)
                requires
                    rows as int == ch as int * (trows as int) + rows as int % ch as int,
                    rows as int % ch as int == 0,
                    rows >= 1,
                    ch >= 1,
                    trows == rows as int / ch as int,
            ;
            assert(tcols * cw == cols && tcols >= 1) by (nonlinear_arith)
                requires
                    cols as int == cw as int * (tcols as int) + cols as int % cw as int,
                    cols as int % cw as int == 0,
                    cols >= 1,
                    cw >= 1,
                    tcols == cols as int / cw as int,
            ;
            assert(trows * tcols + 1 <= u64::MAX) by (nonlinear_arith)
                requires
                    1 <= trows <= u32::MAX,
                    1 <= tcols <= u32::MAX,
            ;
        }
        let ghost scan = scan_keys(s, cw as int, ch as int, trows as int, tcols as int);
        let mut catalog = TileCatalog::empty(cw, ch);
        let mut idgrid: Vec<Vec<usize>> = Vec::new();
        proof {
            assert(scan.take(0) =~= Seq::<TileKey>::empty());
            assert(catalog.keys() =~= firsts(scan.take(0)));
            assert(sum_weights(catalog.weights@) == 0);
        }
        let mut ty: usize = 0;
        while ty < trows
            invariant
                ty <= trows,
                idgrid.deep_view().len() == ty,
                forall|yy: int| 0 <= yy < ty ==> (#[trigger] idgrid.deep_view()[yy]).len() == tcols,
                catalog.wf(),
                catalog.tile_width == cw,
                catalog.tile_height == ch,
                catalog_models(catalog, scan.take(ty as int * tcols as int)),
                sum_weights(catalog.weights@) == ty as int * tcols as int,
                ids_grid_ok(catalog, s, cw as int, ch as int, idgrid.deep_view()),
            decreases trows - ty,
        {
            proof {
                assert(ty as int * tcols as int >= 0 && (ty + 1) as int * tcols as int <= trows
                    as int * tcols as int) by (nonlinear_arith)
                    requires
                        0 <= ty < trows,
                        tcols >= 1,
                ;
                assert((ty + 1) as int * tcols as int == ty as int * tcols as int + tcols as int)
                    by (nonlinear_arith);
                assert((ty + 1) * ch <= trows * ch) by (nonlinear_arith)
                    requires
                        ty + 1 <= trows,
                        ch >= 1,
                ;
            }
            let mut row: Vec<usize> = Vec::new();
            let mut tx: usize = 0;
            while tx < tcols
                invariant
                    tx <= tcols,
                    ty < trows,
                    row@.len() == tx,
                    catalog.wf(),
                    catalog.tile_width == cw,
                    catalog.tile_height == ch,
                    catalog_models(catalog, scan.take(ty as int * tcols as int + tx as int)),
                    sum_weights(catalog.weights@) == ty as int * tcols as int + tx as int,
                    ids_grid_ok(catalog, s, cw as int, ch as int, idgrid.deep_view()),
                    forall|xx: int|
                        0 <= xx < tx ==> tile_at_id(
                            catalog,
                            s,
                            cw as int,
                            ch as int,
                            ty as int,
                            xx,
                            #[trigger] row@[xx],
                        ),
                decreases tcols - tx,
            {
                proof {
                    assert((tx + 1) * cw <= tcols * cw) by (nonlinear_arith)
                        requires
                            tx + 1 <= tcols,
                            cw >= 1,
                    ;
                }
                let t = extract_tile(sample, cw, ch, ty, tx);
                let ghost m = ty as int * tcols as int + tx as int;
                proof {
                    lemma_scan_at(
                        s,
                        cw as int,
                        ch as int,
                        trows as int,
                        tcols as int,
                        ty as int,
                        tx as int,
                    );
                    assert(scan[m] == t.key());
                    assert(m + 1 <= trows as int * tcols as int) by (nonlinear_arith)
                        requires
                            0 <= ty < trows,
                            0 <= tx < tcols,
                            m == ty as int * tcols as int + tx as int,
                    ;
                }
                let ghost pre = catalog;
                let id = catalog.observe(t);
                proof {
                    if pre.keys().contains(t.key()) {
                        assert(catalog.keys() == pre.keys());
                        crate::catalog::lemma_sum_element_le(pre.weights@, id - 1);
                    } else {
                        assert(catalog.keys() =~= pre.keys().push(t.key()));
                    }
                    lemma_models_observe(pre, catalog, scan.take(m), scan[m], id);
                    assert(scan.take(m + 1) =~= scan.take(m).push(scan[m]));
                    assert(catalog_models(catalog, scan.take(m + 1)));
                    assert forall|yy: int, xx: int|
                        0 <= yy < idgrid.deep_view().len() && 0 <= xx < idgrid.deep_view()[yy].len()
                            implies tile_at_id(
                        catalog,
                        s,
                        cw as int,
                        ch as int,
                        yy,
                        xx,
                        #[trigger] idgrid.deep_view()[yy][xx],
                    ) by {
                        assert(tile_at_id(pre, s, cw as int, ch as int, yy, xx,
                        idgrid.deep_view()[yy][xx]));
                    }
                    assert forall|xx: int| 0 <= xx < tx implies tile_at_id(
                        catalog,
                        s,
                        cw as int,
                        ch as int,
                        ty as int,
                        xx,
                        #[trigger] row@[xx],
                    ) by {
                        assert(tile_at_id(pre, s, cw as int, ch as int, ty as int, xx, row@[xx]));
                    }
                }
                row.push(id);
                tx += 1;
            }
            let ghost pre_grid = idgrid.deep_view();
            idgrid.push(row);
            proof {
                assert(row.deep_view() =~= row@);
                assert(idgrid.deep_view()[ty as int] == row.deep_view());
                assert forall|yy: int| 0 <= yy < ty + 1 implies (#[trigger] idgrid.deep_view()[
                    yy]).len() == tcols by {
                    if yy < ty {
                        assert(idgrid.deep_view()[yy] == pre_grid[yy]);
                    }
                }
                assert forall|yy: int, xx: int|
                    0 <= yy < idgrid.deep_view().len() && 0 <= xx < idgrid.deep_view()[yy].len()
                        implies tile_at_id(
                    catalog,
                    s,
                    cw as int,
                    ch as int,
                    yy,
                    xx,
                    #[trigger] idgrid.deep_view()[yy][xx],
                ) by {
                    if yy < ty {
                        assert(idgrid.deep_view()[yy] == pre_grid[yy]);
                        assert(tile_at_id(catalog, s, cw as int, ch as int, yy, xx,
                        pre_grid[yy][xx]));
                    } else {
                        assert(idgrid.deep_view()[yy][xx] == row@[xx]);
                        assert(tile_at_id(catalog, s, cw as int, ch as int, ty as int, xx,
                        row@[xx]));
                    }
                }
            }
            ty += 1;
        }
        proof {
            assert(scan.take(trows as int * tcols as int) =~= scan);
        }
        let n = catalog.len();
        let mut rules = AdjacencyRuleSet::empty();
        proof {
            assert forall|x: usize, y: usize, e: Direction| !adj_seen(
                catalog,
                s,
                cw as int,
                ch as int,
                trows as int,
                tcols as int,
                0,
                0,
                x,
                y,
                e,
            ) by {
                if adj_seen(catalog, s, cw as int, ch as int, trows as int, tcols as int, 0, 0, x,
                y, e) {
                    match e {
                        Direction::Right => {
                            let (py, px) = choose|py: int, px: int|
                                #![auto]
                                0 <= py < trows as int && 0 <= px && px + 1 < tcols as int
                                    && pos_before(py, px, 0, 0) && tile_at_id(catalog, s, cw as int,
                                ch as int, py, px, x) && tile_at_id(catalog, s, cw as int, ch as int,
                                py, px + 1, y);
                            assert(false);
                        },
                        Direction::Left => {
                            let (py, px) = choose|py: int, px: int|
                                #![auto]
                                0 <= py < trows as int && 0 <= px && px + 1 < tcols as int
                                    && pos_before(py, px, 0, 0) && tile_at_id(catalog, s, cw as int,
                                ch as int, py, px + 1, x) && tile_at_id(catalog, s, cw as int, ch
                                as int, py, px, y);
                            assert(false);
                        },
                        Direction::Down => {
                            let (py, px) = choose|py: int, px: int|
                                #![auto]
                                0 <= py && py + 1 < trows as int && 0 <= px < tcols as int
                                    && pos_before(py, px, 0, 0) && tile_at_id(catalog, s, cw as int,
                                ch as int, py, px, x) && tile_at_id(catalog, s, cw as int, ch as int,
                                py + 1, px, y);
                            assert(false);
                        },
                        Direction::Up => {
                            let (py, px) = choose|py: int, px: int|
                                #![auto]
                                0 <= py && py + 1 < trows as int && 0 <= px < tcols as int
                                    && pos_before(py, px, 0, 0) && tile_at_id(catalog, s, cw as int,
                                ch as int, py + 1, px, x) && tile_at_id(catalog, s, cw as int, ch
                                as int, py, px, y);
                            assert(false);
                        },
                    }
                }
            }
        }
        let mut ty2: usize = 0;
        while ty2 < trows
            invariant
                ty2 <= trows,
                rules.wf(n as nat),
                n == catalog.tiles@.len(),
                idgrid.deep_view().len() == trows,
                forall|yy: int|
                    0 <= yy < trows ==> (#[trigger] idgrid.deep_view()[yy]).len() == tcols,
                ids_grid_ok(catalog, s, cw as int, ch as int, idgrid.deep_view()),
                forall|x: usize, y: usize, e: Direction|
                    #[trigger] rules.spec_contains(x, y, e) == adj_seen(
                        catalog,
                        s,
                        cw as int,
                        ch as int,
                        trows as int,
                        tcols as int,
                        ty2 as int,
                        0,
                        x,
                        y,
                        e,
                    ),
            decreases trows - ty2,
        {
            let mut tx2: usize = 0;
            while tx2 < tcols
                invariant
                    tx2 <= tcols,
                    ty2 < trows,
                    rules.wf(n as nat),
                    n == catalog.tiles@.len(),
                    idgrid.deep_view().len() == trows,
                    forall|yy: int|
                        0 <= yy < trows ==> (#[trigger] idgrid.deep_view()[yy]).len() == tcols,
                    ids_grid_ok(catalog, s, cw as int, ch as int, idgrid.deep_view()),
                    forall|x: usize, y: usize, e: Direction|
                        #[trigger] rules.spec_contains(x, y, e) == adj_seen(
                            catalog,
                            s,
                            cw as int,
                            ch as int,
                            trows as int,
                            tcols as int,
                            ty2 as int,
                            tx2 as int,
                            x,
                            y,
                            e,
                        ),
                decreases tcols - tx2,
            {
                proof {
                    assert(idgrid.deep_view()[ty2 as int].len() == tcols);
                    assert(idgrid@[ty2 as int]@.len() == tcols);
                }
                let a = idgrid[ty2][tx2];
                proof {
                    assert(idgrid@[ty2 as int].deep_view() =~= idgrid@[ty2 as int]@);
                    assert(idgrid.deep_view()[ty2 as int][tx2 as int] == a);
                    assert(tile_at_id(catalog, s, cw as int, ch as int, ty2 as int, tx2 as int, a));
                }
                if tx2 + 1 < tcols {
                    let b = idgrid[ty2][tx2 + 1];
                    proof {
                        assert(idgrid.deep_view()[ty2 as int][tx2 as int + 1] == b);
                        assert(tile_at_id(
                            catalog,
                            s,
                            cw as int,
                            ch as int,
                            ty2 as int,
                            tx2 as int + 1,
                            b,
                        ));
                    }
                    rules.add_observed(a, b, Direction::Right, n);
                }
                if ty2 + 1 < trows {
                    proof {
                        assert(idgrid.deep_view()[ty2 as int + 1].len() == tcols);
                        assert(idgrid@[ty2 as int + 1]@.len() == tcols);
                        assert(idgrid@[ty2 as int + 1].deep_view() =~= idgrid@[ty2 as int + 1]@);
                    }
                    let b2 = idgrid[ty2 + 1][tx2];
                    proof {
                        assert(idgrid.deep_view()[ty2 as int + 1][tx2 as int] == b2);
                        assert(tile_at_id(
                            catalog,
                            s,
                            cw as int,
                            ch as int,
                            ty2 as int + 1,
                            tx2 as int,
                            b2,
                        ));
                    }
                    rules.add_observed(a, b2, Direction::Down, n);
                }
                proof {
                    assert forall|x: usize, y: usize, e: Direction|
                        #[trigger] rules.spec_contains(x, y, e) == adj_seen(
                            catalog,
                            s,
                            cw as int,
                            ch as int,
                            trows as int,
                            tcols as int,
                            ty2 as int,
                            tx2 as int + 1,
                            x,
                            y,
                            e,
                        ) by {
                        lemma_adj_seen_extend(
                            catalog,
                            s,
                            cw as int,
                            ch as int,
                            trows as int,
                            tcols as int,
                            ty2 as int,
                            tx2 as int,
                            x,
                            y,
                            e,
                        );
                        match e {
                            Direction::Right => {
                                if tx2 + 1 < tcols && tile_at_id(catalog, s, cw as int, ch as int,
                                ty2 as int, tx2 as int, x) && tile_at_id(catalog, s, cw as int, ch
                                as int, ty2 as int, tx2 as int + 1, y) {
                                    lemma_tile_id_unique(catalog, s, cw as int, ch as int,
                                    ty2 as int, tx2 as int, x, a);
                                    lemma_tile_id_unique(catalog, s, cw as int, ch as int,
                                    ty2 as int, tx2 as int + 1, y,
                                    idgrid.deep_view()[ty2 as int][tx2 as int + 1]);
                                }
                            },
                            Direction::Left => {
                                if tx2 + 1 < tcols && tile_at_id(catalog, s, cw as int, ch as int,
                                ty2 as int, tx2 as int + 1, x) && tile_at_id(catalog, s, cw as int,
                                ch as int, ty2 as int, tx2 as int, y) {
                                    lemma_tile_id_unique(catalog, s, cw as int, ch as int,
                                    ty2 as int, tx2 as int + 1, x,
                                    idgrid.deep_view()[ty2 as int][tx2 as int + 1]);
                                    lemma_tile_id_unique(catalog, s, cw as int, ch as int,
                                    ty2 as int, tx2 as int, y, a);
                                }
                            },
                            Direction::Down => {
                                if ty2 + 1 < trows && tile_at_id(catalog, s, cw as int, ch as int,
                                ty2 as int, tx2 as int, x) && tile_at_id(catalog, s, cw as int, ch
                                as int, ty2 as int + 1, tx2 as int, y) {
                                    lemma_tile_id_unique(catalog, s, cw as int, ch as int,
                                    ty2 as int, tx2 as int, x, a);
                                    lemma_tile_id_unique(catalog, s, cw as int, ch as int,
                                    ty2 as int + 1, tx2 as int, y,
                                    idgrid.deep_view()[ty2 as int + 1][tx2 as int]);
                                }
                            },
                            Direction::Up => {
                                if ty2 + 1 < trows && tile_at_id(catalog, s, cw as int, ch as int,
                                ty2 as int + 1, tx2 as int, x) && tile_at_id(catalog, s, cw as int,
                                ch as int, ty2 as int, tx2 as int, y) {
                                    lemma_tile_id_unique(catalog, s, cw as int, ch as int,
                                    ty2 as int + 1, tx2 as int, x,
                                    idgrid.deep_view()[ty2 as int + 1][tx2 as int]);
                                    lemma_tile_id_unique(catalog, s, cw as int, ch as int,
                                    ty2 as int, tx2 as int, y, a);
                                }
                            },
                        }
                    }
                }
                tx2 += 1;
            }
            proof {
                assert forall|x: usize, y: usize, e: Direction|
                    #[trigger] rules.spec_contains(x, y, e) == adj_seen(
                        catalog,
                        s,
                        cw as int,
                        ch as int,
                        trows as int,
                        tcols as int,
                        ty2 as int + 1,
                        0,
                        x,
                        y,
                        e,
                    ) by {
                    lemma_adj_seen_wrap(
                        catalog,
                        s,
                        cw as int,
                        ch as int,
                        trows as int,
                        tcols as int,
                        ty2 as int,
                        x,
                        y,
                        e,
                    );
                }
            }
            ty2 += 1;
        }
        proof {
            assert forall|x: usize, y: usize, e: Direction|
                #[trigger] rules.spec_contains(x, y, e) == sample_has_adjacency(
                    catalog,
                    s,
                    cw as int,
                    ch as int,
                    trows as int,
                    tcols as int,
                    x,
                    y,
                    e,
                ) by {
                lemma_adj_seen_full(
                    catalog,
                    s,
                    cw as int,
                    ch as int,
                    trows as int,
                    tcols as int,
                    x,
                    y,
                    e,
                );
            }
        }
        let g = Generator { catalog, rules };
        Ok(g)
    }

    /// One collapse attempt over a fresh `width` x `height` wave grid.
    /// Every cell starts with the full catalog as its domain.  The attempt
    /// visits every cell once, in row-major order — including a cell whose
    /// domain a propagation already narrowed to one candidate: the draw then
    /// returns that candidate and the visit propagates it onward, which is
    /// what lets a fully determined sample reproduce itself.  Each visit
    /// collapses the cell to one candidate by a weighted draw and intersects
    /// each not-yet-collapsed immediate neighbour's domain with the ids the
    /// rules permit beside the drawn tile.  An emptied domain ends the
    /// attempt with `Contradiction`; otherwise the fully collapsed grid
    /// comes back in row-major order.
    ///
    /// Success is owed where no draw can empty a domain: on a single-cell
    /// grid, and whenever the rule set permits every pair of catalog ids.
    /// On a one-row grid over at least two tiles, a successful result is
    /// moreover locally consistent: each cell is constrained by its left
    /// neighbour before it is drawn.
    #[verifier::loop_isolation(false)]
    #[verifier::rlimit(100)]
    pub fn generate(&self, width: usize, height: usize) -> (r: Result<Vec<usize>, WfcError>)
        requires
            self.wf(),
            width >= 1,
            height >= 1,
            width * height <= usize::MAX,
        ensures
            match r {
                Ok(grid) => grid@.len() == width * height && (forall|i: int|
                    0 <= i < grid@.len() ==> self.catalog.valid_id(#[trigger] grid@[i])) && (height
                    == 1 && self.catalog.tiles@.len() >= 2 ==> spec_locally_consistent(
                    &self.rules,
                    grid@,
                    width as int,
                    height as int,
                )),
                Err(e) => e == WfcError::Contradiction,
            },
            width == 1 && height == 1 && self.catalog.tiles@.len() >= 1 ==> r is Ok,
            self.catalog.tiles@.len() >= 1 && self.rules.permits_all(
                self.catalog.tiles@.len() as int,
            ) ==> r is Ok,
    {
        let n = self.catalog.len();
        let total = width * height;
        let mut full: Vec<usize> = Vec::new();
        let mut next: usize = 0;
        while next < n
            invariant
                next <= n,
                full@.len() == next,
                forall|k: int| 0 <= k < next ==> #[trigger] full@[k] == k + 1,
            decreases n - next,
        {
            full.push(next + 1);
            next += 1;
        }
        let mut waves: Vec<Vec<usize>> = Vec::new();
        let mut filled: usize = 0;
        while filled < total
            invariant
                filled <= total,
                waves@.len() == filled,
                forall|i: int| 0 <= i < filled ==> (#[trigger] waves@[i])@ == full@,
            decreases total - filled,
        {
            let copy = full.clone();
            proof {
                assert(copy@ =~= full@);
            }
            waves.push(copy);
            filled += 1;
        }
        let mut visited: usize = 0;
        loop
            invariant
                visited <= total,
                full@.len() == n,
                forall|k: int| 0 <= k < n ==> #[trigger] full@[k] == k + 1,
                waves_wf(waves@, total as int, visited as int, n as int),
                ((width == 1 && height == 1) || self.rules.permits_all(n as int)) && n >= 1
                    ==> all_nonempty(waves@, total as int),
                height == 1 && n >= 2 ==> row_progress(
                    &self.rules,
                    waves@,
                    full@,
                    total as int,
                    visited as int,
                ),
            decreases total - visited,
        {
            let mut all_one = true;
            let mut any_empty = false;
            let mut i: usize = 0;
            while i < total
                invariant
                    i <= total,
                    all_one ==> forall|j: int| 0 <= j < i ==> (#[trigger] waves@[j])@.len() == 1,
                    !all_one ==> exists|j: int| 0 <= j < i && (#[trigger] waves@[j])@.len() != 1,
                    any_empty ==> exists|j: int| 0 <= j < i && (#[trigger] waves@[j])@.len() == 0,
                    !any_empty ==> forall|j: int| 0 <= j < i ==> (#[trigger] waves@[j])@.len() >= 1,
                decreases total - i,
            {
                let len = waves[i].len();
                if len == 0 {
                    any_empty = true;
                }
                if len != 1 {
                    all_one = false;
                }
                i += 1;
            }
            if any_empty {
                return Err(WfcError::Contradiction);
            }
            if all_one {
                let mut out: Vec<usize> = Vec::new();
                let mut k: usize = 0;
                while k < total
                    invariant
                        k <= total,
                        out@.len() == k,
                        forall|j: int| 0 <= j < k ==> self.catalog.valid_id(#[trigger] out@[j]),
                        forall|j: int| 0 <= j < k ==> #[trigger] out@[j] == waves@[j]@[0],
                    decreases total - k,
                {
                    let v = waves[k][0];
                    proof {
                        assert(waves@[k as int]@.contains(waves@[k as int]@[0]));
                    }
                    out.push(v);
                    k += 1;
                }
                proof {
                    if height == 1 && n >= 2 {
                        if visited as int + 1 < total {
                            assert(waves@[visited as int + 1]@ == full@);
                            assert(waves@[visited as int + 1]@.len() == 1);
                            assert(false);
                        }
                        assert forall|y: int, x: int|
                            0 <= y < height as int && 0 <= x && x + 1 < width as int implies self
                            .rules.spec_contains(
                            #[trigger] cell_at(out@, width as int, y, x),
                            cell_at(out@, width as int, y, x + 1),
                            Direction::Right,
                        ) by {
                            assert(y == 0);
                            assert(cell_at(out@, width as int, y, x) == out@[x]);
                            assert(cell_at(out@, width as int, y, x + 1) == out@[x + 1]);
                            assert(out@[x] == waves@[x]@[0]);
                            assert(out@[x + 1] == waves@[x + 1]@[0]);
                            if x + 1 == visited as int {
                                assert(waves@[visited as int]@.len() == 1);
                                assert(waves@[visited as int]@.contains(
                                    waves@[visited as int]@[0],
                                ));
                            } else {
                                assert(x + 1 < visited as int);
                            }
                        }
                        assert forall|y: int, x: int|
                            0 <= y && y + 1 < height as int && 0 <= x < width as int implies self
                            .rules.spec_contains(
                            #[trigger] cell_at(out@, width as int, y, x),
                            cell_at(out@, width as int, y + 1, x),
                            Direction::Down,
                        ) by {
                            assert(false);
                        }
                        assert(spec_locally_consistent(
                            &self.rules,
                            out@,
                            width as int,
                            height as int,
                        ));
                    }
                }
                return Ok(out);
            }
            proof {
                let j = choose|j: int| 0 <= j < total && (#[trigger] waves@[j])@.len() != 1;
                assert(j >= visited as int);
            }
            self.collapse_step(&mut waves, &full, visited, width, height);
            visited += 1;
        }
    }

    /// Visits one cell: draws a candidate from its domain by catalog weight,
    /// collapses the cell to the drawn id, and intersects each
    /// not-yet-collapsed immediate neighbour's domain with the ids the rules
    /// permit beside it.
    #[verifier::loop_isolation(false)]
    #[verifier::rlimit(100)]
    fn collapse_step(
        &self,
        waves: &mut Vec<Vec<usize>>,
        full: &Vec<usize>,
        visited: usize,
        width: usize,
        height: usize,
    )
        requires
            self.wf(),
            width >= 1,
            height >= 1,
            width * height <= usize::MAX,
            visited < width * height,
            full@.len() == self.catalog.tiles@.len(),
            forall|k: int| 0 <= k < full@.len() ==> #[trigger] full@[k] == k + 1,
            waves_wf(
                old(waves)@,
                (width * height) as int,
                visited as int,
                self.catalog.tiles@.len() as int,
            ),
            old(waves)@[visited as int]@.len() >= 1,
            ((width == 1 && height == 1) || self.rules.permits_all(
                self.catalog.tiles@.len() as int,
            )) && self.catalog.tiles@.len() >= 1 ==> all_nonempty(
                old(waves)@,
                (width * height) as int,
            ),
            height == 1 && self.catalog.tiles@.len() >= 2 ==> row_progress(
                &self.rules,
                old(waves)@,
                full@,
                (width * height) as int,
                visited as int,
            ),
        ensures
            waves_wf(
                final(waves)@,
                (width * height) as int,
                visited as int + 1,
                self.catalog.tiles@.len() as int,
            ),
            ((width == 1 && height == 1) || self.rules.permits_all(
                self.catalog.tiles@.len() as int,
            )) && self.catalog.tiles@.len() >= 1 ==> all_nonempty(
                final(waves)@,
                (width * height) as int,
            ),
            height == 1 && self.catalog.tiles@.len() >= 2 ==> row_progress(
                &self.rules,
                final(waves)@,
                full@,
                (width * height) as int,
                visited as int + 1,
            ),
    {
        let ghost n = self.catalog.tiles@.len() as int;
        let total = width * height;
        let cell = visited;
        let dom = &waves[cell];
        let mut dist: Vec<u64> = Vec::new();
        let mut k2: usize = 0;
        while k2 < dom.len()
            invariant
                k2 <= dom@.len(),
                dist@.len() == k2,
                forall|k: int|
                    0 <= k < k2 ==> #[trigger] dist@[k] == self.catalog.weights@[dom@[k] - 1],
            decreases dom@.len() - k2,
        {
            dist.push(self.catalog.weights[dom[k2] - 1]);
            k2 += 1;
        }
        proof {
            lemma_sum_of_picked_list(self.catalog.weights@, dom@, dist@);
            lemma_sum_picked_le(self.catalog.weights@, dom@);
        }
        let pick = sample_weighted_index(&dist);
        let chosen = dom[pick];
        let ghost pre_waves = waves@;
        proof {
            assert(pre_waves[cell as int]@[pick as int] == chosen);
            assert(pre_waves[cell as int]@.contains(chosen));
        }
        let mut single: Vec<usize> = Vec::new();
        single.push(chosen);
        waves[cell] = single;
        let y = cell / width;
        let x = cell % width;
        proof {
            lemma_fundamental_div_mod(cell as int, width as int);
            lemma_mod_bound(cell as int, width as int);
            assert(y < height) by (nonlinear_arith)
                requires
                    cell as int == width as int * (y as int) + x as int,
                    0 <= x as int && (x as int) < width as int,
                    (cell as int) < width as int * (height as int),
                    width >= 1,
            ;
            assert(y as int * width as int <= cell as int) by (nonlinear_arith)
                requires
                    cell as int == width as int * (y as int) + x as int,
                    0 <= x as int,
            ;
            assert(width as int * (y as int) >= 0) by (nonlinear_arith)
                requires
                    width as int >= 0,
                    y as int >= 0,
            ;
            assert((y as int + 1) * (width as int) <= (height as int) * (width as int))
                by (nonlinear_arith)
                requires
                    y as int + 1 <= height as int,
                    width as int >= 0,
            ;
            assert((y as int + 1) * (width as int) == (width as int) * (y as int) + width as int)
                by (nonlinear_arith);
            assert((height as int) * (width as int) == (width as int) * (height as int))
                by (nonlinear_arith);
            assert(y as int >= 1 ==> (width as int) * (y as int) >= width as int)
                by (nonlinear_arith)
                requires
                    width as int >= 0,
            ;
        }
        if x > 0 {
            let j = cell - 1;
            if waves[j].len() != 1 {
                let nd = restrict(&self.rules, &waves[j], chosen, Direction::Left);
                proof {
                    lemma_restricted_domain_wf(waves@[j as int]@, nd@, n);
                    if self.rules.permits_all(n) && n >= 1 {
                        let d0 = waves@[j as int]@[0];
                        assert(waves@[j as int]@.contains(d0));
                        assert(self.rules.spec_contains(chosen, d0, Direction::Left));
                        assert(nd@.contains(d0));
                        let q = choose|q: int| 0 <= q < nd@.len() && nd@[q] == d0;
                        assert(nd@.len() >= 1);
                    }
                }
                waves[j] = nd;
            }
        }
        if x + 1 < width {
            let j = cell + 1;
            if waves[j].len() != 1 {
                let nd = restrict(&self.rules, &waves[j], chosen, Direction::Right);
                proof {
                    lemma_restricted_domain_wf(waves@[j as int]@, nd@, n);
                    if self.rules.permits_all(n) && n >= 1 {
                        let d0 = waves@[j as int]@[0];
                        assert(waves@[j as int]@.contains(d0));
                        assert(self.rules.spec_contains(chosen, d0, Direction::Right));
                        assert(nd@.contains(d0));
                        let q = choose|q: int| 0 <= q < nd@.len() && nd@[q] == d0;
                        assert(nd@.len() >= 1);
                    }
                }
                waves[j] = nd;
            }
        }
        if y > 0 {
            let j = cell - width;
            if waves[j].len() != 1 {
                let nd = restrict(&self.rules, &waves[j], chosen, Direction::Up);
                proof {
                    lemma_restricted_domain_wf(waves@[j as int]@, nd@, n);
                    if self.rules.permits_all(n) && n >= 1 {
                        let d0 = waves@[j as int]@[0];
                        assert(waves@[j as int]@.contains(d0));
                        assert(self.rules.spec_contains(chosen, d0, Direction::Up));
                        assert(nd@.contains(d0));
                        let q = choose|q: int| 0 <= q < nd@.len() && nd@[q] == d0;
                        assert(nd@.len() >= 1);
                    }
                }
                waves[j] = nd;
            }
        }
        if y + 1 < height {
            proof {
                assert((cell as int + width as int) < (width as int) * (height as int))
                    by (nonlinear_arith)
                    requires
                        cell as int == width as int * (y as int) + x as int,
                        0 <= x as int && (x as int) < width as int,
                        y as int + 1 < height as int,
                        width >= 1,
                ;
            }
            let j = cell + width;
            if waves[j].len() != 1 {
                let nd = restrict(&self.rules, &waves[j], chosen, Direction::Down);
                proof {
                    lemma_restricted_domain_wf(waves@[j as int]@, nd@, n);
                    if self.rules.permits_all(n) && n >= 1 {
                        let d0 = waves@[j as int]@[0];
                        assert(waves@[j as int]@.contains(d0));
                        assert(self.rules.spec_contains(chosen, d0, Direction::Down));
                        assert(nd@.contains(d0));
                        let q = choose|q: int| 0 <= q < nd@.len() && nd@[q] == d0;
                        assert(nd@.len() >= 1);
                    }
                }
                waves[j] = nd;
            }
        }
        proof {
            if height == 1 && self.catalog.tiles@.len() >= 2 {
                assert(y == 0);
                assert(x == cell);
                assert(total == width);
                assert forall|i: int|
                    visited as int + 1 < i && i < total implies (#[trigger] waves@[i])@
                    == full@ by {
                    assert(pre_waves[i]@ == full@);
                }
                if visited as int + 1 < total {
                    assert(waves@[visited as int]@[0] == chosen);
                    assert forall|id: usize|
                        #[trigger] waves@[visited as int + 1]@.contains(id) implies self
                        .rules.spec_contains(
                        waves@[visited as int]@[0],
                        id,
                        Direction::Right,
                    ) by {}
                }
                assert forall|k: int|
                    0 <= k && k + 1 < visited as int + 1 implies self.rules.spec_contains(
                    (#[trigger] waves@[k])@[0],
                    waves@[k + 1]@[0],
                    Direction::Right,
                ) by {
                    if k + 1 == visited as int {
                        assert(pre_waves[visited as int]@.contains(chosen));
                        assert(waves@[k]@ == pre_waves[k]@);
                        assert(waves@[k + 1]@[0] == chosen);
                    } else {
                        assert(waves@[k]@ == pre_waves[k]@);
                        assert(waves@[k + 1]@ == pre_waves[k + 1]@);
                    }
                }
            }
            if ((width == 1 && height == 1) || self.rules.permits_all(n)) && self.catalog.tiles@.len() >= 1 {
                assert forall|i: int| 0 <= i < total implies (#[trigger] waves@[i])@.len()
                    >= 1 by {}
            }
        }
    }
    /// Repeats collapse attempts until one succeeds, up to `max_attempts`.
    /// Zero output width or height is rejected as `InvalidDimensions` before
    /// any attempt; when every attempt ends in a contradiction, the call
    /// surfaces `GenerationFailed`.  A successful result is a row-major grid
    /// of catalog tile ids.  Where a single attempt cannot fail — a
    /// single-cell grid, or a rule set permitting every pair — success is
    /// owed as soon as one attempt is allowed, and a successful one-row
    /// grid over at least two tiles is locally consistent.
    pub fn gen_smart(&self, width: usize, height: usize, max_attempts: usize) -> (r: Result<
        Vec<usize>,
        WfcError,
    >)
        requires
            self.wf(),
            width * height <= usize::MAX,
        ensures
            (width == 0 || height == 0) <==> r == Err::<Vec<usize>, WfcError>(
                WfcError::InvalidDimensions,
            ),
            width >= 1 && height >= 1 && max_attempts == 0 ==> r == Err::<Vec<usize>, WfcError>(
                WfcError::GenerationFailed,
            ),
            width >= 1 && height >= 1 ==> match r {
                Ok(grid) => grid@.len() == width * height && (forall|i: int|
                    0 <= i < grid@.len() ==> self.catalog.valid_id(#[trigger] grid@[i])) && (height
                    == 1 && self.catalog.tiles@.len() >= 2 ==> spec_locally_consistent(
                    &self.rules,
                    grid@,
                    width as int,
                    height as int,
                )),
                Err(e) => e == WfcError::GenerationFailed,
            },
            width == 1 && height == 1 && self.catalog.tiles@.len() >= 1 && max_attempts >= 1
                ==> r is Ok,
            width >= 1 && height >= 1 && self.catalog.tiles@.len() >= 1 && self.rules.permits_all(
                self.catalog.tiles@.len() as int,
            ) && max_attempts >= 1 ==> r is Ok,
    {
        if width == 0 || height == 0 {
            return Err(WfcError::InvalidDimensions);
        }
        let mut attempt: usize = 0;
        while attempt < max_attempts
            invariant
                self.wf(),
                width >= 1,
                height >= 1,
                width * height <= usize::MAX,
                ((width == 1 && height == 1) || self.rules.permits_all(
                    self.catalog.tiles@.len() as int,
                )) && self.catalog.tiles@.len() >= 1 ==> attempt == 0,
            decreases max_attempts - attempt,
        {
            match self.generate(width, height) {
                Ok(grid) => {
                    return Ok(grid);
                },
                Err(_) => {},
            }
            attempt += 1;
        }
        Err(WfcError::GenerationFailed)
    }

    /// Maps a fully collapsed row-major id grid back to pixels: each cell's
    /// resolved tile is copied to the cell's position, scaled by the tile
    /// block dimensions.  Pure lookup and copy.
    #[verifier::loop_isolation(false)]
    #[verifier::rlimit(30)]
    pub fn render(&self, grid: &Vec<usize>, width: usize, height: usize) -> (img: Vec<Vec<u32>>)
        requires
            self.wf(),
            width * height <= usize::MAX,
            grid@.len() == width * height,
            forall|i: int| 0 <= i < grid@.len() ==> self.catalog.valid_id(#[trigger] grid@[i]),
            (height as int) * (self.catalog.tile_height as int) <= usize::MAX,
            (width as int) * (self.catalog.tile_width as int) <= usize::MAX,
        ensures
            img.deep_view().len() == (height as int) * (self.catalog.tile_height as int),
            forall|py: int|
                0 <= py < img.deep_view().len() ==> (#[trigger] img.deep_view()[py]).len() == (
                width as int) * (self.catalog.tile_width as int),
            forall|py: int, px: int|
                #![trigger img.deep_view()[py][px]]
                0 <= py < img.deep_view().len() && 0 <= px < img.deep_view()[py].len()
                    ==> img.deep_view()[py][px] == self.catalog.tiles@[grid@[(py
                    / (self.catalog.tile_height as int)) * (width as int) + px / (
                self.catalog.tile_width as int)] - 1].pixels@[(py % (self.catalog.tile_height
                    as int)) * (self.catalog.tile_width as int) + px % (self.catalog.tile_width
                    as int)],
    {
        let tw = self.catalog.tile_width;
        let th = self.catalog.tile_height;
        let out_h = height * th;
        let out_w = width * tw;
        let mut img: Vec<Vec<u32>> = Vec::new();
        let mut py: usize = 0;
        while py < out_h
            invariant
                py <= out_h,
                img.deep_view().len() == py,
                forall|yy: int|
                    0 <= yy < py ==> (#[trigger] img.deep_view()[yy]).len() == out_w,
                forall|yy: int, xx: int|
                    #![trigger img.deep_view()[yy][xx]]
                    0 <= yy < py && 0 <= xx < out_w ==> img.deep_view()[yy][xx]
                        == self.catalog.tiles@[grid@[(yy / (th as int)) * (width as int) + xx / (tw
                        as int)] - 1].pixels@[(yy % (th as int)) * (tw as int) + xx % (tw as int)],
            decreases out_h - py,
        {
            let cy = py / th;
            let ry = py % th;
            proof {
                lemma_fundamental_div_mod(py as int, th as int);
                lemma_mod_bound(py as int, th as int);
                assert(cy < height) by (nonlinear_arith)
                    requires
                        py as int == th as int * (cy as int) + ry as int,
                        0 <= ry as int && (ry as int) < th as int,
                        (py as int) < (height as int) * (th as int),
                        th >= 1,
                ;
                assert((cy as int) * (width as int) + width as int <= (height as int) * (width
                    as int)) by (nonlinear_arith)
                    requires
                        cy as int + 1 <= height as int,
                        width as int >= 0,
                ;
                assert((height as int) * (width as int) == (width as int) * (height as int))
                    by (nonlinear_arith);
                assert((cy as int) * (width as int) >= 0) by (nonlinear_arith)
                    requires
                        cy as int >= 0,
                        width as int >= 0,
                ;
            }
            let row_base = cy * width;
            let mut row: Vec<u32> = Vec::new();
            let mut px: usize = 0;
            while px < out_w
                invariant
                    px <= out_w,
                    row@.len() == px,
                    cy < height,
                    cy == py as int / (th as int),
                    ry == py as int % (th as int),
                    row_base == (cy as int) * (width as int),
                    row_base + width <= width * height,
                    ry < th,
                    forall|xx: int|
                        0 <= xx < px ==> #[trigger] row@[xx] == self.catalog.tiles@[grid@[(py
                            as int / (th as int)) * (width as int) + xx / (tw as int)]
                            - 1].pixels@[(py as int % (th as int)) * (tw as int) + xx % (tw
                            as int)],
                decreases out_w - px,
            {
                let cx = px / tw;
                let rx = px % tw;
                proof {
                    lemma_fundamental_div_mod(px as int, tw as int);
                    lemma_mod_bound(px as int, tw as int);
                    assert(cx < width) by (nonlinear_arith)
                        requires
                            px as int == tw as int * (cx as int) + rx as int,
                            0 <= rx as int && (rx as int) < tw as int,
                            (px as int) < (width as int) * (tw as int),
                            tw >= 1,
                    ;
                }
                let cell = row_base + cx;
                let id = grid[cell];
                let tile = &self.catalog.tiles[id - 1];
                let plen = tile.pixels.len();
                proof {
                    assert(self.catalog.tiles@[id - 1].wf());
                    assert(plen == (tw as int) * (th as int));
                    assert(((ry as int) * (tw as int) + rx as int) < (th as int) * (tw as int))
                        by (nonlinear_arith)
                        requires
                            0 <= rx as int && (rx as int) < tw as int,
                            0 <= ry as int && (ry as int) < th as int,
                    ;
                    assert((th as int) * (tw as int) == (tw as int) * (th as int))
                        by (nonlinear_arith);
                }
                let v = tile.pixels[ry * tw + rx];
                row.push(v);
                px += 1;
            }
            let ghost pre_img = img.deep_view();
            img.push(row);
            proof {
                assert(row.deep_view() =~= row@);
                assert(img.deep_view()[py as int] == row.deep_view());
                assert forall|yy: int| 0 <= yy < py + 1 implies (#[trigger] img.deep_view()[
                    yy]).len() == out_w by {
                    if yy < py {
                        assert(img.deep_view()[yy] == pre_img[yy]);
                    }
                }
                assert forall|yy: int, xx: int|
                    #![trigger img.deep_view()[yy][xx]]
                    0 <= yy < py + 1 && 0 <= xx < out_w implies img.deep_view()[yy][xx]
                    == self.catalog.tiles@[grid@[(yy / (th as int)) * (width as int) + xx / (tw
                    as int)] - 1].pixels@[(yy % (th as int)) * (tw as int) + xx % (tw as int)] by {
                    if yy < py {
                        assert(img.deep_view()[yy] == pre_img[yy]);
                        assert(pre_img[yy][xx] == self.catalog.tiles@[grid@[(yy / (th as int)) * (
                        width as int) + xx / (tw as int)] - 1].pixels@[(yy % (th as int)) * (tw
                        as int) + xx % (tw as int)]);
                    } else {
                        assert(img.deep_view()[yy][xx] == row@[xx]);
                    }
                }
            }
            py += 1;
        }
        img
    }
}

/// The id in row `y`, column `x` of a row-major grid.
pub open spec fn cell_at(grid: Seq<usize>, width: int, y: int, x: int) -> usize {
    grid[y * width + x]
}

/// Every horizontally adjacent pair of a collapsed grid is permitted by a
/// Right rule and every vertically adjacent pair by a Down rule.  With a
/// symmetric rule set this says each cell is consistent with all four of its
/// neighbours.
pub open spec fn spec_locally_consistent(
    rules: &AdjacencyRuleSet,
    grid: Seq<usize>,
    width: int,
    height: int,
) -> bool {
    &&& forall|y: int, x: int|
        0 <= y < height && 0 <= x && x + 1 < width ==> rules.spec_contains(
            #[trigger] cell_at(grid, width, y, x),
            cell_at(grid, width, y, x + 1),
            Direction::Right,
        )
    &&& forall|y: int, x: int|
        0 <= y && y + 1 < height && 0 <= x < width ==> rules.spec_contains(
            #[trigger] cell_at(grid, width, y, x),
            cell_at(grid, width, y + 1, x),
            Direction::Down,
        )
}

/// The consistency facts already checked for the positions a row-major scan
/// visits before `(ty, tx)`.
pub open spec fn lc_seen(
    rules: &AdjacencyRuleSet,
    grid: Seq<usize>,
    width: int,
    height: int,
    ty: int,
    tx: int,
) -> bool {
    &&& forall|y: int, x: int|
        0 <= y < height && 0 <= x && x + 1 < width && pos_before(y, x, ty, tx)
            ==> rules.spec_contains(
            #[trigger] cell_at(grid, width, y, x),
            cell_at(grid, width, y, x + 1),
            Direction::Right,
        )
    &&& forall|y: int, x: int|
        0 <= y && y + 1 < height && 0 <= x < width && pos_before(y, x, ty, tx)
            ==> rules.spec_contains(
            #[trigger] cell_at(grid, width, y, x),
            cell_at(grid, width, y + 1, x),
            Direction::Down,
        )
}

/// With a symmetric rule set, the Right/Down checks of
/// `spec_locally_consistent` give each cell a permitting rule towards every
/// neighbour it has, in all four directions.
pub proof fn lemma_consistent_all_directions(
    rules: &AdjacencyRuleSet,
    grid: Seq<usize>,
    width: int,
    height: int,
    y: int,
    x: int,
)
    requires
        rules.symmetric(),
        spec_locally_consistent(rules, grid, width, height),
        0 <= y < height,
        0 <= x < width,
    ensures
        x + 1 < width ==> rules.spec_contains(
            cell_at(grid, width, y, x),
            cell_at(grid, width, y, x + 1),
            Direction::Right,
        ),
        x - 1 >= 0 ==> rules.spec_contains(
            cell_at(grid, width, y, x),
            cell_at(grid, width, y, x - 1),
            Direction::Left,
        ),
        y + 1 < height ==> rules.spec_contains(
            cell_at(grid, width, y, x),
            cell_at(grid, width, y + 1, x),
            Direction::Down,
        ),
        y - 1 >= 0 ==> rules.spec_contains(
            cell_at(grid, width, y, x),
            cell_at(grid, width, y - 1, x),
            Direction::Up,
        ),
{
    if x - 1 >= 0 {
        assert(rules.spec_contains(
            cell_at(grid, width, y, x - 1),
            cell_at(grid, width, y, x),
            Direction::Right,
        ));
        assert(opposite_spec(Direction::Right) == Direction::Left);
    }
    if y - 1 >= 0 {
        assert(rules.spec_contains(
            cell_at(grid, width, y - 1, x),
            cell_at(grid, width, y, x),
            Direction::Down,
        ));
        assert(opposite_spec(Direction::Down) == Direction::Up);
    }
}

/// Decides local consistency of a collapsed row-major grid.  The solver's
/// single-hop propagation does not promise it for every result; this checker
/// settles it for a result in hand.
#[verifier::loop_isolation(false)]
pub fn locally_consistent(
    rules: &AdjacencyRuleSet,
    grid: &Vec<usize>,
    width: usize,
    height: usize,
) -> (r: bool)
    requires
        width * height <= usize::MAX,
        grid@.len() == width * height,
    ensures
        r == spec_locally_consistent(rules, grid@, width as int, height as int),
{
    let mut ty: usize = 0;
    while ty < height
        invariant
            ty <= height,
            lc_seen(rules, grid@, width as int, height as int, ty as int, 0),
        decreases height - ty,
    {
        proof {
            assert((ty as int) * (width as int) >= 0 && ((ty as int) + 1) * (width as int) <= (
            height as int) * (width as int)) by (nonlinear_arith)
                requires
                    0 <= ty as int && (ty as int) < height as int,
                    width as int >= 0,
            ;
            assert(((ty as int) + 1) * (width as int) == (ty as int) * (width as int) + (width
                as int)) by (nonlinear_arith);
            assert((height as int) * (width as int) == (width as int) * (height as int))
                by (nonlinear_arith);
        }
        let row_base = ty * width;
        let mut tx: usize = 0;
        while tx < width
            invariant
                tx <= width,
                ty < height,
                row_base == (ty as int) * (width as int),
                row_base + width <= width * height,
                lc_seen(rules, grid@, width as int, height as int, ty as int, tx as int),
            decreases width - tx,
        {
            let a = grid[row_base + tx];
            proof {
                assert(cell_at(grid@, width as int, ty as int, tx as int) == a);
            }
            if tx + 1 < width {
                let b = grid[row_base + tx + 1];
                proof {
                    assert(cell_at(grid@, width as int, ty as int, tx as int + 1) == b);
                }
                if !rules.contains(a, b, Direction::Right) {
                    return false;
                }
            }
            if ty + 1 < height {
                proof {
                    assert(((ty as int) + 1) * (width as int) == (ty as int) * (width as int) + (
                    width as int)) by (nonlinear_arith);
                    assert(((ty as int) + 2) * (width as int) <= (height as int) * (width as int))
                        by (nonlinear_arith)
                        requires
                            (ty as int) + 2 <= height as int,
                            width as int >= 0,
                    ;
                    assert(((ty as int) + 2) * (width as int) == ((ty as int) + 1) * (width as int)
                        + (width as int)) by (nonlinear_arith);
                }
                let b2 = grid[row_base + width + tx];
                proof {
                    assert(cell_at(grid@, width as int, ty as int + 1, tx as int) == b2);
                }
                if !rules.contains(a, b2, Direction::Down) {
                    return false;
                }
            }
            proof {
                assert forall|y: int, x: int|
                    0 <= y < height as int && 0 <= x && x + 1 < width as int && pos_before(
                        y,
                        x,
                        ty as int,
                        tx as int + 1,
                    ) implies rules.spec_contains(
                    #[trigger] cell_at(grid@, width as int, y, x),
                    cell_at(grid@, width as int, y, x + 1),
                    Direction::Right,
                ) by {
                    assert(pos_before(y, x, ty as int, tx as int) || (y == ty as int && x == tx
                        as int));
                }
                assert forall|y: int, x: int|
                    0 <= y && y + 1 < height as int && 0 <= x < width as int && pos_before(
                        y,
                        x,
                        ty as int,
                        tx as int + 1,
                    ) implies rules.spec_contains(
                    #[trigger] cell_at(grid@, width as int, y, x),
                    cell_at(grid@, width as int, y + 1, x),
                    Direction::Down,
                ) by {
                    assert(pos_before(y, x, ty as int, tx as int) || (y == ty as int && x == tx
                        as int));
                }
            }
            tx += 1;
        }
        proof {
            assert forall|y: int, x: int|
                0 <= y < height as int && 0 <= x && x + 1 < width as int && pos_before(
                    y,
                    x,
                    ty as int + 1,
                    0,
                ) implies rules.spec_contains(
                #[trigger] cell_at(grid@, width as int, y, x),
                cell_at(grid@, width as int, y, x + 1),
                Direction::Right,
            ) by {
                assert(pos_before(y, x, ty as int, width as int));
            }
            assert forall|y: int, x: int|
                0 <= y && y + 1 < height as int && 0 <= x < width as int && pos_before(
                    y,
                    x,
                    ty as int + 1,
                    0,
                ) implies rules.spec_contains(
                #[trigger] cell_at(grid@, width as int, y, x),
                cell_at(grid@, width as int, y + 1, x),
                Direction::Down,
            ) by {
                assert(pos_before(y, x, ty as int, width as int));
            }
        }
        ty += 1;
    }
    true
}

/// A domain restricted by `restrict` is still well formed: it stays sorted,
/// and every survivor was already a valid candidate.
proof fn lemma_restricted_domain_wf(dom: Seq<usize>, nd: Seq<usize>, n: int)
    requires
        domain_wf(dom, n),
        forall|p: int, q: int| 0 <= p < q < nd.len() ==> #[trigger] nd[p] < #[trigger] nd[q],
        forall|id: usize| #[trigger] nd.contains(id) ==> dom.contains(id),
    ensures
        domain_wf(nd, n),
{
    assert forall|p: int| 0 <= p < nd.len() implies 1 <= #[trigger] nd[p] && nd[p] <= n by {
        assert(nd.contains(nd[p]));
        let j = choose|j: int| 0 <= j < dom.len() && dom[j] == nd[p];
    }
}

} // verus!
