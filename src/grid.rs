//! Uniform-grid broad phase: which bodies share a grid cell, which of those
//! pairs may interact, and which bodies lie near a region.
//!
//! Geometry enters as inclusive ranges of integer cell coordinates; turning a
//! world-space bounding box into such a range is the caller's business.

use crate::collision::{layers_collide, lemma_layers_collide_symmetric, CollisionLayer};
use crate::pool::PoolIndex;
use std::collections::BTreeMap;
use vstd::laws_cmp::obeys_cmp;
use vstd::prelude::*;

verus! {

broadcast use {vstd::laws_cmp::group_laws_cmp, vstd::std_specs::btree::group_btree_axioms};

/// Handle of a body.
pub type BodyId = PoolIndex;

/// The coordinates of one grid cell, `(x, y)`.
pub type GridCellIndex = (i32, i32);

/// Number of bodies in one cell above which the grid is considered too coarse.
pub const CELL_OCCUPANCY_WARNING: usize = 32;

/// An inclusive rectangle of grid cells.
#[derive(Copy, Clone, Debug, PartialEq, Eq, Structural)]
pub struct CellRange {
    pub min_x: i32,
    pub min_y: i32,
    pub max_x: i32,
    pub max_y: i32,
}

/// Row-major order on cells: by row first, then by column.
pub open spec fn cell_before(a: GridCellIndex, b: GridCellIndex) -> bool {
    a.1 < b.1 || (a.1 == b.1 && a.0 < b.0)
}

pub open spec fn min_i32(a: i32, b: i32) -> i32 {
    if a <= b {
        a
    } else {
        b
    }
}

pub open spec fn max_i32(a: i32, b: i32) -> i32 {
    if a <= b {
        b
    } else {
        a
    }
}

impl CellRange {
    pub open spec fn contains(&self, c: GridCellIndex) -> bool {
        &&& self.min_x <= c.0 <= self.max_x
        &&& self.min_y <= c.1 <= self.max_y
    }

    /// The cells spanned by two opposite corner cells, given in either order.
    pub fn from_corners(a: GridCellIndex, b: GridCellIndex) -> (r: CellRange)
        ensures
            r.min_x == min_i32(a.0, b.0),
            r.max_x == max_i32(a.0, b.0),
            r.min_y == min_i32(a.1, b.1),
            r.max_y == max_i32(a.1, b.1),
    {
        let (min_x, max_x) = if a.0 <= b.0 {
            (a.0, b.0)
        } else {
            (b.0, a.0)
        };
        let (min_y, max_y) = if a.1 <= b.1 {
            (a.1, b.1)
        } else {
            (b.1, a.1)
        };
        CellRange { min_x, min_y, max_x, max_y }
    }
}

/// Every cell of `range`, each once, in row-major order.
pub fn for_grid_cells_in_aabb(range: &CellRange) -> (cells: Vec<GridCellIndex>)
    ensures
        forall|k: int| 0 <= k < cells@.len() ==> range.contains(#[trigger] cells@[k]),
        forall|c: GridCellIndex|
            range.contains(c) ==> exists|k: int| 0 <= k < cells@.len() && #[trigger] cells@[k] == c,
        forall|k: int, l: int| 0 <= k < l < cells@.len() ==> cell_before(cells@[k], cells@[l]),
{
    let mut cells: Vec<GridCellIndex> = Vec::new();
    let mut y: i64 = range.min_y as i64;
    while y <= range.max_y as i64
        invariant
            range.min_y <= y,
            range.min_y <= range.max_y ==> y <= range.max_y + 1,
            forall|k: int|
                0 <= k < cells@.len() ==> range.contains(#[trigger] cells@[k]) && cells@[k].1 < y,
            forall|c: GridCellIndex|
                range.contains(c) && c.1 < y ==> exists|k: int|
                    0 <= k < cells@.len() && #[trigger] cells@[k] == c,
            forall|k: int, l: int|
                0 <= k < l < cells@.len() ==> cell_before(cells@[k], cells@[l]),
        decreases range.max_y + 1 - y,
    {
        let mut x: i64 = range.min_x as i64;
        while x <= range.max_x as i64
            invariant
                range.min_x <= x,
                range.min_x <= range.max_x ==> x <= range.max_x + 1,
                range.min_y <= y <= range.max_y,
                forall|k: int|
                    0 <= k < cells@.len() ==> range.contains(#[trigger] cells@[k]) && (cells@[k].1
                        < y || (cells@[k].1 == y && cells@[k].0 < x)),
                forall|c: GridCellIndex|
                    range.contains(c) && (c.1 < y || (c.1 == y && c.0 < x)) ==> exists|k: int|
                        0 <= k < cells@.len() && #[trigger] cells@[k] == c,
                forall|k: int, l: int|
                    0 <= k < l < cells@.len() ==> cell_before(cells@[k], cells@[l]),
            decreases range.max_x + 1 - x,
        {
            let ghost before = cells@;
            let cell: GridCellIndex = (x as i32, y as i32);
            cells.push(cell);
            proof {
                assert forall|c: GridCellIndex|
                    range.contains(c) && (c.1 < y || (c.1 == y && c.0 <= x)) implies exists|k: int|
                        0 <= k < cells@.len() && #[trigger] cells@[k] == c by {
                    if c == cell {
                        assert(cells@[before.len() as int] == c);
                    } else {
                        let k = choose|k: int| 0 <= k < before.len() && #[trigger] before[k] == c;
                        assert(cells@[k] == c);
                    }
                }
            }
            x = x + 1;
        }
        y = y + 1;
    }
    cells
}


/// A body as the broad phase sees it: its handle, its layer and the cells its
/// bounding box touches.
#[derive(Copy, Clone, Debug, PartialEq, Eq, Structural)]
pub struct BodyProxy {
    pub id: BodyId,
    pub layer: CollisionLayer,
    pub cells: CellRange,
}

/// What a grid cell records of a body that touches it.
#[derive(Copy, Clone, Debug, PartialEq, Eq, Structural)]
pub struct GridEntry {
    pub id: BodyId,
    pub layer: CollisionLayer,
}

/// Whether some entry of `es` is for body `id`.
pub open spec fn holds_id(es: Seq<GridEntry>, id: BodyId) -> bool {
    exists|k: int| 0 <= k < es.len() && (#[trigger] es[k]).id == id
}

/// The entries cell `c` holds once `proxies` have been inserted in order: each
/// body whose range covers `c`, once, in the order the bodies were inserted.
pub open spec fn occupants(proxies: Seq<BodyProxy>, c: GridCellIndex) -> Seq<GridEntry>
    decreases proxies.len(),
{
    if proxies.len() == 0 {
        Seq::empty()
    } else {
        let before = occupants(proxies.drop_last(), c);
        let p = proxies.last();
        if p.cells.contains(c) && !holds_id(before, p.id) {
            before.push(GridEntry { id: p.id, layer: p.layer })
        } else {
            before
        }
    }
}

proof fn lemma_occupants_step(proxies: Seq<BodyProxy>, k: int)
    requires
        0 <= k < proxies.len(),
    ensures
        forall|c: GridCellIndex| #[trigger]
            occupants(proxies.take(k + 1), c) == {
                let before = occupants(proxies.take(k), c);
                let p = proxies[k];
                if p.cells.contains(c) && !holds_id(before, p.id) {
                    before.push(GridEntry { id: p.id, layer: p.layer })
                } else {
                    before
                }
            },
{
    assert(proxies.take(k + 1).drop_last() =~= proxies.take(k));
}

fn holds_entry_for(list: &Vec<GridEntry>, id: BodyId) -> (r: bool)
    ensures
        r == holds_id(list@, id),
{
    let mut k: usize = 0;
    while k < list.len()
        invariant
            0 <= k <= list@.len(),
            forall|m: int| 0 <= m < k ==> (#[trigger] list@[m]).id != id,
        decreases list@.len() - k,
    {
        if list[k].id == id {
            return true;
        }
        k += 1;
    }
    false
}

/// Whether cell entries `es` record bodies `a` and `b` as distinct entries on
/// layers that interact.
pub open spec fn pairs_in_cell(es: Seq<GridEntry>, a: BodyId, b: BodyId) -> bool {
    exists|i: int, j: int|
        0 <= i < es.len() && 0 <= j < es.len() && i != j && (#[trigger] es[i]).id == a && (
        #[trigger] es[j]).id == b && layers_collide(es[i].layer, es[j].layer)
}

/// Appends `id` unless `ids` already holds it.
fn push_unique_id(ids: &mut Vec<BodyId>, id: BodyId)
    ensures
        old(ids)@.no_duplicates() ==> final(ids)@.no_duplicates(),
        forall|x: BodyId| #[trigger] final(ids)@.contains(x) <==> (old(ids)@.contains(x) || x == id),
{
    let mut k: usize = 0;
    while k < ids.len()
        invariant
            0 <= k <= ids@.len(),
            forall|m: int| 0 <= m < k ==> #[trigger] ids@[m] != id,
        decreases ids@.len() - k,
    {
        if ids[k] == id {
            proof {
                assert forall|x: BodyId| #[trigger] ids@.contains(x) <==> (ids@.contains(x) || x == id) by {
                    if x == id {
                        assert(ids@[k as int] == x);
                    }
                }
            }
            return;
        }
        k += 1;
    }
    let ghost before = ids@;
    ids.push(id);
    proof {
        assert forall|x: BodyId| #[trigger] ids@.contains(x) <==> (before.contains(x) || x == id) by {
            if x == id {
                assert(ids@[before.len() as int] == x);
            }
            if before.contains(x) {
                let m = choose|m: int| 0 <= m < before.len() && before[m] == x;
                assert(ids@[m] == x);
            }
            if ids@.contains(x) && x != id {
                let m = choose|m: int| 0 <= m < ids@.len() && ids@[m] == x;
                assert(before[m] == x);
            }
        }
    }
}

/// Appends `pair` unless `pairs` already holds it.
fn push_unique_pair(pairs: &mut Vec<(BodyId, BodyId)>, pair: (BodyId, BodyId))
    ensures
        old(pairs)@.no_duplicates() ==> final(pairs)@.no_duplicates(),
        forall|x: (BodyId, BodyId)| #[trigger] final(pairs)@.contains(x) <==> (old(pairs)@.contains(x) || x == pair),
{
    let mut k: usize = 0;
    while k < pairs.len()
        invariant
            0 <= k <= pairs@.len(),
            forall|m: int| 0 <= m < k ==> #[trigger] pairs@[m] != pair,
        decreases pairs@.len() - k,
    {
        if pairs[k].0 == pair.0 && pairs[k].1 == pair.1 {
            proof {
                assert forall|x: (BodyId, BodyId)| #[trigger] pairs@.contains(x) <==> (pairs@.contains(x) || x == pair) by {
                    if x == pair {
                        assert(pairs@[k as int] == x);
                    }
                }
            }
            return;
        }
        k += 1;
    }
    let ghost before = pairs@;
    pairs.push(pair);
    proof {
        assert forall|x: (BodyId, BodyId)| #[trigger] pairs@.contains(x) <==> (before.contains(x) || x == pair) by {
            if x == pair {
                assert(pairs@[before.len() as int] == x);
            }
            if before.contains(x) {
                let m = choose|m: int| 0 <= m < before.len() && before[m] == x;
                assert(pairs@[m] == x);
            }
            if pairs@.contains(x) && x != pair {
                let m = choose|m: int| 0 <= m < pairs@.len() && pairs@[m] == x;
                assert(before[m] == x);
            }
        }
    }
}

/// Entries `x < y` of `es` are bodies `a` and `b`, in either order, on
/// interacting layers.
pub open spec fn cell_pair_at(es: Seq<GridEntry>, x: int, y: int, a: BodyId, b: BodyId) -> bool {
    &&& 0 <= x < y < es.len()
    &&& layers_collide(es[x].layer, es[y].layer)
    &&& ((es[x].id == a && es[y].id == b) || (es[x].id == b && es[y].id == a))
}

/// Some entry pair `(x, y)` before `(i, j)` in scan order is `a` and `b`.
pub open spec fn found_before(es: Seq<GridEntry>, i: int, j: int, a: BodyId, b: BodyId) -> bool {
    exists|x: int, y: int|
        #![trigger cell_pair_at(es, x, y, a, b)]
        cell_pair_at(es, x, y, a, b) && (x < i || (x == i && y < j))
}

proof fn lemma_found_all(es: Seq<GridEntry>, a: BodyId, b: BodyId)
    ensures
        found_before(es, es.len() as int, es.len() + 1int, a, b) <==> (pairs_in_cell(es, a, b)
            || pairs_in_cell(es, b, a)),
{
    let n = es.len() as int;
    if found_before(es, n, n + 1, a, b) {
        let (x, y) = choose|x: int, y: int|
            #![trigger cell_pair_at(es, x, y, a, b)]
            cell_pair_at(es, x, y, a, b) && (x < n || (x == n && y < n + 1));
        assert(es[x] == es[x] && es[y] == es[y]);
        lemma_layers_collide_symmetric(es[x].layer, es[y].layer);
    }
    if pairs_in_cell(es, a, b) {
        let (i, j) = choose|i: int, j: int|
            0 <= i < es.len() && 0 <= j < es.len() && i != j && (#[trigger] es[i]).id == a && (
            #[trigger] es[j]).id == b && layers_collide(es[i].layer, es[j].layer);
        lemma_layers_collide_symmetric(es[i].layer, es[j].layer);
        if i < j {
            assert(cell_pair_at(es, i, j, a, b));
        } else {
            assert(cell_pair_at(es, j, i, a, b));
        }
    }
    if pairs_in_cell(es, b, a) {
        let (i, j) = choose|i: int, j: int|
            0 <= i < es.len() && 0 <= j < es.len() && i != j && (#[trigger] es[i]).id == b && (
            #[trigger] es[j]).id == a && layers_collide(es[i].layer, es[j].layer);
        lemma_layers_collide_symmetric(es[i].layer, es[j].layer);
        if i < j {
            assert(cell_pair_at(es, i, j, a, b));
        } else {
            assert(cell_pair_at(es, j, i, a, b));
        }
    }
}

/// Adds to `pairs` every pair of distinct-slot bodies that `list` records on
/// interacting layers, lower slot index first, skipping pairs already present.
fn add_cell_pairs(pairs: &mut Vec<(BodyId, BodyId)>, list: &Vec<GridEntry>)
    ensures
        old(pairs)@.no_duplicates() ==> final(pairs)@.no_duplicates(),
        forall|pr: (BodyId, BodyId)| #[trigger]
            final(pairs)@.contains(pr) <==> (old(pairs)@.contains(pr) || (pr.0.spec_index()
                < pr.1.spec_index() && pairs_in_cell(list@, pr.0, pr.1))),
{
    let ghost start = pairs@;
    let ghost es = list@;
    let mut i: usize = 0;
    while i < list.len()
        invariant
            0 <= i <= es.len(),
            es == list@,
            start.no_duplicates() ==> pairs@.no_duplicates(),
            forall|pr: (BodyId, BodyId)| #[trigger]
                pairs@.contains(pr) <==> (start.contains(pr) || (pr.0.spec_index()
                    < pr.1.spec_index() && found_before(es, i as int, i + 1, pr.0, pr.1))),
        decreases es.len() - i,
    {
        let mut j: usize = i + 1;
        while j < list.len()
            invariant
                0 <= i < es.len(),
                i + 1 <= j <= es.len(),
                es == list@,
                start.no_duplicates() ==> pairs@.no_duplicates(),
                forall|pr: (BodyId, BodyId)| #[trigger]
                    pairs@.contains(pr) <==> (start.contains(pr) || (pr.0.spec_index()
                        < pr.1.spec_index() && found_before(es, i as int, j as int, pr.0, pr.1))),
            decreases es.len() - j,
        {
            let first = list[i];
            let second = list[j];
            let ghost before = pairs@;
            if first.layer.collides_with(second.layer) {
                if first.id.index() < second.id.index() {
                    push_unique_pair(pairs, (first.id, second.id));
                } else if second.id.index() < first.id.index() {
                    push_unique_pair(pairs, (second.id, first.id));
                }
            }
            proof {
                assert forall|pr: (BodyId, BodyId)| #[trigger]
                    pairs@.contains(pr) <==> (start.contains(pr) || (pr.0.spec_index()
                        < pr.1.spec_index() && found_before(es, i as int, j + 1, pr.0, pr.1))) by {
                    if cell_pair_at(es, i as int, j as int, pr.0, pr.1) && pr.0.spec_index()
                        < pr.1.spec_index() {
                        PoolIndex::lemma_eq_fields(pr.0, pr.1);
                    }
                    if found_before(es, i as int, j + 1, pr.0, pr.1) {
                        let (x, y) = choose|x: int, y: int|
                            #![trigger cell_pair_at(es, x, y, pr.0, pr.1)]
                            cell_pair_at(es, x, y, pr.0, pr.1) && (x < i || (x == i && y < j + 1));
                        if !(x == i && y == j) {
                            assert(found_before(es, i as int, j as int, pr.0, pr.1));
                        }
                    }
                    if found_before(es, i as int, j as int, pr.0, pr.1) {
                        let (x, y) = choose|x: int, y: int|
                            #![trigger cell_pair_at(es, x, y, pr.0, pr.1)]
                            cell_pair_at(es, x, y, pr.0, pr.1) && (x < i || (x == i && y < j));
                        assert(found_before(es, i as int, j + 1, pr.0, pr.1));
                    }
                }
            }
            j += 1;
        }
        proof {
            assert forall|pr: (BodyId, BodyId)| #[trigger]
                pairs@.contains(pr) <==> (start.contains(pr) || (pr.0.spec_index()
                    < pr.1.spec_index() && found_before(es, i + 1, i + 2, pr.0, pr.1))) by {
                if found_before(es, i + 1, i + 2, pr.0, pr.1) {
                    let (x, y) = choose|x: int, y: int|
                        #![trigger cell_pair_at(es, x, y, pr.0, pr.1)]
                        cell_pair_at(es, x, y, pr.0, pr.1) && (x < i + 1 || (x == i + 1 && y < i + 2));
                    assert(found_before(es, i as int, j as int, pr.0, pr.1));
                }
                if found_before(es, i as int, j as int, pr.0, pr.1) {
                    let (x, y) = choose|x: int, y: int|
                        #![trigger cell_pair_at(es, x, y, pr.0, pr.1)]
                        cell_pair_at(es, x, y, pr.0, pr.1) && (x < i || (x == i && y < j));
                    assert(found_before(es, i + 1, i + 2, pr.0, pr.1));
                }
            }
        }
        i += 1;
    }
    proof {
        assert forall|pr: (BodyId, BodyId)| #[trigger]
            pairs@.contains(pr) <==> (start.contains(pr) || (pr.0.spec_index() < pr.1.spec_index()
                && pairs_in_cell(es, pr.0, pr.1))) by {
            lemma_found_all(es, pr.0, pr.1);
            if found_before(es, i as int, i + 1, pr.0, pr.1) {
                let (x, y) = choose|x: int, y: int|
                    #![trigger cell_pair_at(es, x, y, pr.0, pr.1)]
                    cell_pair_at(es, x, y, pr.0, pr.1) && (x < i || (x == i && y < i + 1));
                assert(found_before(es, es.len() as int, es.len() + 1int, pr.0, pr.1));
            }
            if found_before(es, es.len() as int, es.len() + 1int, pr.0, pr.1) {
                let (x, y) = choose|x: int, y: int|
                    #![trigger cell_pair_at(es, x, y, pr.0, pr.1)]
                    cell_pair_at(es, x, y, pr.0, pr.1) && (x < es.len() || (x == es.len() && y
                        < es.len() + 1));
                assert(found_before(es, i as int, i + 1, pr.0, pr.1));
            }
            if pairs_in_cell(es, pr.1, pr.0) && pr.0.spec_index() < pr.1.spec_index() {
                assert(pairs_in_cell(es, pr.0, pr.1)) by {
                    let (x, y) = choose|x: int, y: int|
                        0 <= x < es.len() && 0 <= y < es.len() && x != y && (#[trigger] es[x]).id
                            == pr.1 && (#[trigger] es[y]).id == pr.0 && layers_collide(
                            es[x].layer,
                            es[y].layer,
                        );
                    lemma_layers_collide_symmetric(es[x].layer, es[y].layer);
                    assert(es[y].id == pr.0 && es[x].id == pr.1);
                }
            }
        }
    }
}

/// The uniform grid: for each occupied cell, the bodies touching it.
pub struct SpatialGrid {
    cells: BTreeMap<GridCellIndex, Vec<GridEntry>>,
}

impl SpatialGrid {
    /// The entries of cell `c`, in insertion order; empty for an unoccupied cell.
    pub closed spec fn entries_at(&self, c: GridCellIndex) -> Seq<GridEntry> {
        if self.cells@.contains_key(c) {
            self.cells@[c]@
        } else {
            Seq::empty()
        }
    }

    pub fn new() -> (g: SpatialGrid)
        ensures
            forall|c: GridCellIndex| #[trigger] g.entries_at(c) == Seq::<GridEntry>::empty(),
    {
        SpatialGrid { cells: BTreeMap::new() }
    }

    /// Records `entry` in `cell` unless that cell already holds its body.
    fn insert_entry(&mut self, cell: GridCellIndex, entry: GridEntry)
        ensures
            forall|c: GridCellIndex|
                c != cell ==> #[trigger] final(self).entries_at(c) == old(self).entries_at(c),
            final(self).entries_at(cell) == if holds_id(old(self).entries_at(cell), entry.id) {
                old(self).entries_at(cell)
            } else {
                old(self).entries_at(cell).push(entry)
            },
    {
        proof {
            assert(obeys_cmp::<GridCellIndex>());
        }
        let mut list = match self.cells.remove(&cell) {
            Some(list) => list,
            None => Vec::new(),
        };
        if !holds_entry_for(&list, entry.id) {
            list.push(entry);
        }
        self.cells.insert(cell, list);
    }

    /// Clears the grid and inserts every proxy, in order, into each cell its
    /// range covers; a body already present in a cell is not added again.
    pub fn rebuild(&mut self, proxies: &Vec<BodyProxy>)
        ensures
            forall|c: GridCellIndex| #[trigger]
                final(self).entries_at(c) == occupants(proxies@, c),
    {
        self.cells.clear();
        let mut k: usize = 0;
        while k < proxies.len()
            invariant
                0 <= k <= proxies@.len(),
                forall|c: GridCellIndex| #[trigger]
                    self.entries_at(c) == occupants(proxies@.take(k as int), c),
            decreases proxies@.len() - k,
        {
            let p = proxies[k];
            let entry = GridEntry { id: p.id, layer: p.layer };
            let covered = for_grid_cells_in_aabb(&p.cells);
            proof {
                lemma_occupants_step(proxies@, k as int);
            }
            let mut j: usize = 0;
            while j < covered.len()
                invariant
                    0 <= j <= covered@.len(),
                    k < proxies@.len(),
                    p == proxies@[k as int],
                    entry == (GridEntry { id: p.id, layer: p.layer }),
                    forall|m: int| 0 <= m < covered@.len() ==> p.cells.contains(#[trigger] covered@[m]),
                    forall|c: GridCellIndex|
                        p.cells.contains(c) ==> exists|m: int|
                            0 <= m < covered@.len() && #[trigger] covered@[m] == c,
                    forall|m: int, l: int|
                        0 <= m < l < covered@.len() ==> cell_before(covered@[m], covered@[l]),
                    forall|c: GridCellIndex| #[trigger]
                        self.entries_at(c) == if covered@.take(j as int).contains(c) {
                            occupants(proxies@.take(k + 1), c)
                        } else {
                            occupants(proxies@.take(k as int), c)
                        },
                decreases covered@.len() - j,
            {
                let cell = covered[j];
                proof {
                    assert(!covered@.take(j as int).contains(cell)) by {
                        if covered@.take(j as int).contains(cell) {
                            let m = choose|m: int|
                                0 <= m < j && #[trigger] covered@.take(j as int)[m] == cell;
                            assert(cell_before(covered@[m], covered@[j as int]));
                        }
                    }
                    assert forall|c: GridCellIndex|
                        covered@.take(j + 1).contains(c) <==> (covered@.take(j as int).contains(c)
                            || c == cell) by {
                        if covered@.take(j + 1).contains(c) {
                            let m = choose|m: int|
                                0 <= m < j + 1 && #[trigger] covered@.take(j + 1)[m] == c;
                            if m < j {
                                assert(covered@.take(j as int)[m] == c);
                            }
                        }
                        if covered@.take(j as int).contains(c) {
                            let m = choose|m: int|
                                0 <= m < j && #[trigger] covered@.take(j as int)[m] == c;
                            assert(covered@.take(j + 1)[m] == c);
                        }
                        if c == cell {
                            assert(covered@.take(j + 1)[j as int] == c);
                        }
                    }
                }
                let ghost prior = *self;
                self.insert_entry(cell, entry);
                proof {
                    lemma_occupants_step(proxies@, k as int);
                    assert(prior.entries_at(cell) == occupants(proxies@.take(k as int), cell));
                    assert(p.cells.contains(cell));
                    assert(occupants(proxies@.take(k + 1), cell) == if holds_id(
                        prior.entries_at(cell),
                        p.id,
                    ) {
                        prior.entries_at(cell)
                    } else {
                        prior.entries_at(cell).push(entry)
                    });
                    assert forall|c: GridCellIndex| #[trigger]
                        self.entries_at(c) == if covered@.take(j + 1).contains(c) {
                            occupants(proxies@.take(k + 1), c)
                        } else {
                            occupants(proxies@.take(k as int), c)
                        } by {
                        if c != cell {
                            assert(self.entries_at(c) == prior.entries_at(c));
                        }
                    }
                }
                j += 1;
            }
            proof {
                assert forall|c: GridCellIndex| #[trigger]
                    self.entries_at(c) == occupants(proxies@.take(k + 1), c) by {
                    if p.cells.contains(c) {
                        let m = choose|m: int| 0 <= m < covered@.len() && #[trigger] covered@[m] == c;
                        assert(covered@.take(j as int)[m] == c);
                    } else if covered@.take(j as int).contains(c) {
                        let m = choose|m: int|
                            0 <= m < j && #[trigger] covered@.take(j as int)[m] == c;
                        assert(covered@[m] == c);
                    }
                }
            }
            k += 1;
        }
        proof {
            assert(proxies@.take(k as int) =~= proxies@);
        }
    }

    /// The bodies recorded in `cell`, in insertion order.
    pub fn bodies_in(&self, cell: GridCellIndex) -> (ids: Vec<BodyId>)
        ensures
            ids@.len() == self.entries_at(cell).len(),
            forall|k: int| 0 <= k < ids@.len() ==> #[trigger] ids@[k] == self.entries_at(cell)[k].id,
    {
        proof {
            assert(obeys_cmp::<GridCellIndex>());
        }
        let mut ids: Vec<BodyId> = Vec::new();
        if let Some(list) = self.cells.get(&cell) {
            let mut k: usize = 0;
            while k < list.len()
                invariant
                    0 <= k <= list@.len(),
                    list@ == self.entries_at(cell),
                    ids@.len() == k,
                    forall|m: int| 0 <= m < k ==> #[trigger] ids@[m] == list@[m].id,
                decreases list@.len() - k,
            {
                ids.push(list[k].id);
                k += 1;
            }
        }
        ids
    }

    /// Whether `a` and `b`, in this order, form a candidate pair: `a` has the lower
    /// slot index and some cell records both on interacting layers.
    pub open spec fn is_candidate_pair(&self, a: BodyId, b: BodyId) -> bool {
        &&& a.spec_index() < b.spec_index()
        &&& exists|c: GridCellIndex| pairs_in_cell(#[trigger] self.entries_at(c), a, b)
    }

    /// Whether some cell of `range` records body `id`.
    pub open spec fn seen_in(&self, range: CellRange, id: BodyId) -> bool {
        exists|c: GridCellIndex| range.contains(c) && holds_id(#[trigger] self.entries_at(c), id)
    }

    /// The bodies recorded in any cell of `range`, each once. This is a broad-phase
    /// answer: it lists every body near the region, not only those overlapping it.
    pub fn query(&self, range: &CellRange) -> (ids: Vec<BodyId>)
        ensures
            ids@.no_duplicates(),
            forall|id: BodyId| #[trigger] ids@.contains(id) <==> self.seen_in(*range, id),
    {
        proof {
            assert(obeys_cmp::<GridCellIndex>());
        }
        let covered = for_grid_cells_in_aabb(range);
        let mut ids: Vec<BodyId> = Vec::new();
        let mut j: usize = 0;
        while j < covered.len()
            invariant
                0 <= j <= covered@.len(),
                forall|m: int| 0 <= m < covered@.len() ==> range.contains(#[trigger] covered@[m]),
                forall|c: GridCellIndex|
                    range.contains(c) ==> exists|m: int|
                        0 <= m < covered@.len() && #[trigger] covered@[m] == c,
                ids@.no_duplicates(),
                forall|id: BodyId| #[trigger]
                    ids@.contains(id) <==> exists|m: int|
                        0 <= m < j && holds_id(self.entries_at(#[trigger] covered@[m]), id),
            decreases covered@.len() - j,
        {
            let cell = covered[j];
            if let Some(list) = self.cells.get(&cell) {
                let mut t: usize = 0;
                while t < list.len()
                    invariant
                        0 <= t <= list@.len(),
                        0 <= j < covered@.len(),
                        cell == covered@[j as int],
                        list@ == self.entries_at(cell),
                        ids@.no_duplicates(),
                        forall|id: BodyId| #[trigger]
                            ids@.contains(id) <==> (exists|m: int|
                                0 <= m < j && holds_id(self.entries_at(#[trigger] covered@[m]), id))
                                || exists|u: int| 0 <= u < t && (#[trigger] list@[u]).id == id,
                    decreases list@.len() - t,
                {
                    let ghost before = ids@;
                    push_unique_id(&mut ids, list[t].id);
                    proof {
                        assert forall|id: BodyId| #[trigger] ids@.contains(id) <==> (exists|m: int|
                            0 <= m < j && holds_id(self.entries_at(#[trigger] covered@[m]), id))
                            || exists|u: int| 0 <= u < t + 1 && (#[trigger] list@[u]).id == id by {
                            if id == list@[t as int].id {
                                assert(list@[t as int].id == id);
                            }
                            if exists|u: int| 0 <= u < t + 1 && (#[trigger] list@[u]).id == id {
                                let u = choose|u: int| 0 <= u < t + 1 && (#[trigger] list@[u]).id == id;
                                if u < t {
                                    assert(before.contains(id));
                                }
                            }
                        }
                    }
                    t += 1;
                }
                proof {
                    assert forall|id: BodyId| #[trigger] ids@.contains(id) <==> exists|m: int|
                        0 <= m < j + 1 && holds_id(self.entries_at(#[trigger] covered@[m]), id) by {
                        if exists|u: int| 0 <= u < t && (#[trigger] list@[u]).id == id {
                            assert(holds_id(self.entries_at(covered@[j as int]), id));
                        }
                        if exists|m: int|
                            0 <= m < j + 1 && holds_id(self.entries_at(#[trigger] covered@[m]), id) {
                            let m = choose|m: int|
                                0 <= m < j + 1 && holds_id(self.entries_at(#[trigger] covered@[m]), id);
                            if m == j {
                                let u = choose|u: int| 0 <= u < list@.len() && (#[trigger] list@[u]).id == id;
                                assert(list@[u].id == id);
                            }
                        }
                    }
                }
            } else {
                proof {
                    assert forall|id: BodyId| #[trigger] ids@.contains(id) <==> exists|m: int|
                        0 <= m < j + 1 && holds_id(self.entries_at(#[trigger] covered@[m]), id) by {
                        if exists|m: int|
                            0 <= m < j + 1 && holds_id(self.entries_at(#[trigger] covered@[m]), id) {
                            let m = choose|m: int|
                                0 <= m < j + 1 && holds_id(self.entries_at(#[trigger] covered@[m]), id);
                            assert(m != j);
                        }
                    }
                }
            }
            j += 1;
        }
        proof {
            assert forall|id: BodyId| #[trigger] ids@.contains(id) <==> self.seen_in(*range, id) by {
                if self.seen_in(*range, id) {
                    let c = choose|c: GridCellIndex|
                        range.contains(c) && holds_id(#[trigger] self.entries_at(c), id);
                    let m = choose|m: int| 0 <= m < covered@.len() && #[trigger] covered@[m] == c;
                    assert(holds_id(self.entries_at(covered@[m]), id));
                }
                if ids@.contains(id) {
                    let m = choose|m: int|
                        0 <= m < j && holds_id(self.entries_at(#[trigger] covered@[m]), id);
                    assert(range.contains(covered@[m]));
                }
            }
        }
        ids
    }

    /// Every candidate pair of the grid, lower slot index first, each once: two
    /// bodies that share a cell and whose layers interact. Cells are visited in
    /// key order.
    pub fn collision_pairs(&self) -> (pairs: Vec<(BodyId, BodyId)>)
        ensures
            pairs@.no_duplicates(),
            forall|pr: (BodyId, BodyId)| #[trigger]
                pairs@.contains(pr) <==> self.is_candidate_pair(pr.0, pr.1),
            forall|k: int|
                0 <= k < pairs@.len() ==> (#[trigger] pairs@[k]).0.spec_index()
                    < pairs@[k].1.spec_index(),
    {
        proof {
            assert(obeys_cmp::<GridCellIndex>());
        }
        let mut pairs: Vec<(BodyId, BodyId)> = Vec::new();
        for cell in it: self.cells.keys()
            invariant
                pairs@.no_duplicates(),
                forall|pr: (BodyId, BodyId)| #[trigger]
                    pairs@.contains(pr) <==> (pr.0.spec_index() < pr.1.spec_index() && exists|m: int|
                        0 <= m < it.index() && pairs_in_cell(
                            self.entries_at(*#[trigger] it.seq()[m]),
                            pr.0,
                            pr.1,
                        )),
        {
            if let Some(list) = self.cells.get(cell) {
                add_cell_pairs(&mut pairs, list);
            }
        }
        proof {
            assert forall|k: int| 0 <= k < pairs@.len() implies (#[trigger] pairs@[k]).0.spec_index()
                < pairs@[k].1.spec_index() by {
                assert(pairs@.contains(pairs@[k]));
            }
        }
        pairs
    }

    /// The largest number of bodies any one cell records; 0 for an empty grid.
    /// A high value means the grid is too coarse for the scene.
    pub fn busiest_cell(&self) -> (n: usize)
        ensures
            forall|c: GridCellIndex| #[trigger] self.entries_at(c).len() <= n,
            n == 0 || exists|c: GridCellIndex| #[trigger] self.entries_at(c).len() == n,
    {
        proof {
            assert(obeys_cmp::<GridCellIndex>());
        }
        let mut n: usize = 0;
        for cell in it: self.cells.keys()
            invariant
                forall|m: int|
                    0 <= m < it.index() ==> self.entries_at(*#[trigger] it.seq()[m]).len() <= n,
                n == 0 || exists|c: GridCellIndex| #[trigger] self.entries_at(c).len() == n,
        {
            if let Some(list) = self.cells.get(cell) {
                if list.len() > n {
                    n = list.len();
                }
            }
        }
        n
    }
}


proof fn lemma_occupants_cover(proxies: Seq<BodyProxy>, k: int, c: GridCellIndex)
    requires
        0 <= k < proxies.len(),
        proxies[k].cells.contains(c),
    ensures
        holds_id(occupants(proxies, c), proxies[k].id),
    decreases proxies.len(),
{
    let before = occupants(proxies.drop_last(), c);
    if k < proxies.len() - 1 {
        lemma_occupants_cover(proxies.drop_last(), k, c);
        let m = choose|m: int| 0 <= m < before.len() && (#[trigger] before[m]).id == proxies[k].id;
        assert(occupants(proxies, c)[m] == before[m]);
    } else if !holds_id(before, proxies[k].id) {
        assert(occupants(proxies, c)[before.len() as int].id == proxies[k].id);
    }
}

proof fn lemma_occupants_come_from_proxies(proxies: Seq<BodyProxy>, c: GridCellIndex, m: int)
    requires
        0 <= m < occupants(proxies, c).len(),
    ensures
        exists|k: int|
            0 <= k < proxies.len() && (GridEntry { id: proxies[k].id, layer: proxies[k].layer })
                == #[trigger] occupants(proxies, c)[m],
    decreases proxies.len(),
{
    let before = occupants(proxies.drop_last(), c);
    if m < before.len() {
        lemma_occupants_come_from_proxies(proxies.drop_last(), c, m);
        let k = choose|k: int|
            0 <= k < proxies.drop_last().len() && (GridEntry {
                id: proxies.drop_last()[k].id,
                layer: proxies.drop_last()[k].layer,
            }) == #[trigger] occupants(proxies.drop_last(), c)[m];
        assert(proxies[k] == proxies.drop_last()[k]);
    } else {
        let k = proxies.len() - 1;
        assert(occupants(proxies, c)[m] == (GridEntry {
            id: proxies[k].id,
            layer: proxies[k].layer,
        }));
    }
}

/// After a rebuild, each body is recorded in every cell its range covers, and a
/// query over any region that includes one of those cells finds it.
pub proof fn lemma_body_recorded_in_covered_cells(
    grid: SpatialGrid,
    proxies: Seq<BodyProxy>,
    k: int,
    c: GridCellIndex,
    region: CellRange,
)
    requires
        forall|x: GridCellIndex| #[trigger] grid.entries_at(x) == occupants(proxies, x),
        0 <= k < proxies.len(),
        proxies[k].cells.contains(c),
        region.contains(c),
    ensures
        holds_id(grid.entries_at(c), proxies[k].id),
        grid.seen_in(region, proxies[k].id),
{
    lemma_occupants_cover(proxies, k, c);
    assert(holds_id(grid.entries_at(c), proxies[k].id));
}

proof fn lemma_no_shared_cell_pair(grid: SpatialGrid, proxies: Seq<BodyProxy>, a: int, b: int)
    requires
        forall|x: GridCellIndex| #[trigger] grid.entries_at(x) == occupants(proxies, x),
        forall|i: int, j: int|
            0 <= i < proxies.len() && 0 <= j < proxies.len() && #[trigger] proxies[i].id
                == #[trigger] proxies[j].id ==> i == j,
        0 <= a < proxies.len(),
        0 <= b < proxies.len(),
        !layers_collide(proxies[a].layer, proxies[b].layer),
    ensures
        forall|c: GridCellIndex|
            !pairs_in_cell(#[trigger] grid.entries_at(c), proxies[a].id, proxies[b].id),
{
    assert forall|c: GridCellIndex|
        !pairs_in_cell(#[trigger] grid.entries_at(c), proxies[a].id, proxies[b].id) by {
        let es = grid.entries_at(c);
        if pairs_in_cell(es, proxies[a].id, proxies[b].id) {
            let (i, j) = choose|i: int, j: int|
                0 <= i < es.len() && 0 <= j < es.len() && i != j && (#[trigger] es[i]).id
                    == proxies[a].id && (#[trigger] es[j]).id == proxies[b].id && layers_collide(
                    es[i].layer,
                    es[j].layer,
                );
            lemma_occupants_come_from_proxies(proxies, c, i);
            lemma_occupants_come_from_proxies(proxies, c, j);
            let ki = choose|k: int|
                0 <= k < proxies.len() && (GridEntry { id: proxies[k].id, layer: proxies[k].layer })
                    == #[trigger] occupants(proxies, c)[i];
            let kj = choose|k: int|
                0 <= k < proxies.len() && (GridEntry { id: proxies[k].id, layer: proxies[k].layer })
                    == #[trigger] occupants(proxies, c)[j];
            assert(proxies[ki].id == proxies[a].id);
            assert(proxies[kj].id == proxies[b].id);
        }
    }
}

/// Two bodies on layers that do not interact never form a candidate pair,
/// however their cells overlap.
pub proof fn lemma_exempt_layers_never_pair(
    grid: SpatialGrid,
    proxies: Seq<BodyProxy>,
    a: int,
    b: int,
)
    requires
        forall|x: GridCellIndex| #[trigger] grid.entries_at(x) == occupants(proxies, x),
        forall|i: int, j: int|
            0 <= i < proxies.len() && 0 <= j < proxies.len() && #[trigger] proxies[i].id
                == #[trigger] proxies[j].id ==> i == j,
        0 <= a < proxies.len(),
        0 <= b < proxies.len(),
        !layers_collide(proxies[a].layer, proxies[b].layer),
    ensures
        !grid.is_candidate_pair(proxies[a].id, proxies[b].id),
        !grid.is_candidate_pair(proxies[b].id, proxies[a].id),
{
    lemma_layers_collide_symmetric(proxies[a].layer, proxies[b].layer);
    lemma_no_shared_cell_pair(grid, proxies, a, b);
    lemma_no_shared_cell_pair(grid, proxies, b, a);
}

} // verus!
