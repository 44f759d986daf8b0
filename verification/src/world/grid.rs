//! The grid of cells, its model and the rules on footprints.

use vstd::prelude::*;
use vstd::arithmetic::div_mod::lemma_fundamental_div_mod_converse;
use crate::world::{Cell, MAX_SIDE};
use crate::world;

verus! {

/// A position as mathematical integers.
pub open spec fn pos(p: (usize, usize)) -> (int, int) {
    (p.0 as int, p.1 as int)
}

/// A list of positions as mathematical integers.
pub open spec fn pos_list(v: Seq<(usize, usize)>) -> Seq<(int, int)> {
    v.map_values(|p: (usize, usize)| pos(p))
}

/// An optional position as mathematical integers.
pub open spec fn pos_option(p: Option<(usize, usize)>) -> Option<(int, int)> {
    match p {
        Some(p) => Some(pos(p)),
        None => None,
    }
}

/// A list of signed positions as mathematical integers.
pub open spec fn tile_list(v: Seq<(i32, i32)>) -> Seq<(int, int)> {
    v.map_values(|p: (i32, i32)| (p.0 as int, p.1 as int))
}

/// The contents of a grid: its sides, its cells row by row, and which tiles are
/// blocked.
#[verifier::ext_equal]
pub struct GridView {
    pub width: nat,
    pub height: nat,
    pub cells: Seq<Cell>,
    pub obstacle: Seq<bool>,
}

impl GridView {
    /// The grid with nothing on it.
    pub open spec fn blank(width: nat, height: nat) -> GridView {
        GridView {
            width,
            height,
            cells: Seq::new(width * height, |i: int| world::empty_cell()),
            obstacle: Seq::new(width * height, |i: int| false),
        }
    }

    /// One cell and one obstacle flag for every tile.
    pub open spec fn valid(self) -> bool {
        &&& self.width <= MAX_SIDE
        &&& self.height <= MAX_SIDE
        &&& self.cells.len() == self.width * self.height
        &&& self.obstacle.len() == self.width * self.height
    }

    /// Where a tile is stored.
    pub open spec fn slot(self, x: int, y: int) -> int {
        y * self.width + x
    }

    pub open spec fn inside(self, x: int, y: int) -> bool {
        0 <= x < self.width && 0 <= y < self.height
    }

    pub open spec fn at(self, x: int, y: int) -> Cell {
        self.cells[self.slot(x, y)]
    }

    pub open spec fn blocked(self, x: int, y: int) -> bool {
        self.obstacle[self.slot(x, y)]
    }

    pub open spec fn put(self, x: int, y: int, cell: Cell) -> GridView {
        GridView { cells: self.cells.update(self.slot(x, y), cell), ..self }
    }

    pub open spec fn block(self, x: int, y: int, v: bool) -> GridView {
        GridView { obstacle: self.obstacle.update(self.slot(x, y), v), ..self }
    }

    /// Columns and rows of the footprint of whatever is stored at a tile.
    pub open spec fn extent_at(self, x: int, y: int) -> (int, int) {
        self.at(x, y).entity.extent(self.at(x, y).direction)
    }

    /// Whether an entity is stored at `(ax, ay)` whose footprint holds `(x, y)`.
    pub open spec fn covers(self, ax: int, ay: int, x: int, y: int) -> bool {
        &&& self.inside(ax, ay)
        &&& self.at(ax, ay).entity !is Empty
        &&& ax <= x < ax + self.extent_at(ax, ay).0
        &&& ay <= y < ay + self.extent_at(ax, ay).1
    }

    /// The first entity in row order that covers a tile, looking only at the
    /// stored cells from the `k`-th of the nine that lie up to two columns to the
    /// left and up to two rows above. No footprint reaches further.
    pub open spec fn cover_from(self, x: int, y: int, k: int) -> Option<(int, int)>
        decreases 9 - k,
    {
        if k >= 9 {
            None
        } else if self.covers(x - 2 + k % 3, y - 2 + k / 3, x, y) {
            Some((x - 2 + k % 3, y - 2 + k / 3))
        } else {
            self.cover_from(x, y, k + 1)
        }
    }

    /// The entity that stands on a tile, named by its anchor: the one stored at
    /// the tile itself, or else the first one whose footprint covers it.
    pub open spec fn anchor_of(self, x: int, y: int) -> Option<(int, int)> {
        if self.at(x, y).entity !is Empty {
            Some((x, y))
        } else {
            self.cover_from(x, y, 0)
        }
    }

    /// Whether the entity stored at `(ax, ay)` has its ground to itself: every
    /// tile of its footprint is on the board, free of obstacles and covered by no
    /// other entity.
    pub open spec fn stands_clear(self, ax: int, ay: int) -> bool {
        forall|x: int, y: int| #[trigger]
            self.covers(ax, ay, x, y) ==> {
                &&& self.inside(x, y)
                &&& !self.blocked(x, y)
                &&& forall|bx: int, by: int| #[trigger]
                    self.covers(bx, by, x, y) ==> bx == ax && by == ay
            }
    }

    /// Whether every entity has its ground to itself.
    pub open spec fn legal(self) -> bool {
        forall|ax: int, ay: int| #[trigger] self.inside(ax, ay) ==> self.stands_clear(ax, ay)
    }

    /// A well-formed factory: consistent cells on legal ground.
    #[verifier::opaque]
    pub open spec fn consistent(self) -> bool {
        &&& forall|i: int| 0 <= i < self.cells.len() ==> (#[trigger] self.cells[i]).consistent()
        &&& self.legal()
    }

    /// The footprint of whatever is stored at a tile, row by row.
    pub open spec fn footprint_tiles(self, x: int, y: int) -> Seq<(int, int)> {
        let (w, h) = self.extent_at(x, y);
        Seq::new((w * h) as nat, |k: int| (x + k % w, y + k / w))
    }

    /// The tiles that share an edge with the footprint: those above it, those to
    /// the right, those below and those to the left, on the board or not.
    pub open spec fn ring(self, x: int, y: int) -> Seq<(int, int)> {
        let (w, h) = self.extent_at(x, y);
        Seq::new(
            (2 * (w + h)) as nat,
            |k: int|
                if k < w {
                    (x + k, y - 1)
                } else if k < w + h {
                    (x + w, y + (k - w))
                } else if k < 2 * w + h {
                    (x + (k - w - h), y + h)
                } else {
                    (x - 1, y + (k - 2 * w - h))
                },
        )
    }

    /// The tiles of a list that are on the board, in the order of the list.
    pub open spec fn on_board(self, tiles: Seq<(int, int)>) -> Seq<(int, int)>
        decreases tiles.len(),
    {
        if tiles.len() == 0 {
            seq![]
        } else {
            let rest = self.on_board(tiles.drop_last());
            if self.inside(tiles.last().0, tiles.last().1) {
                rest.push(tiles.last())
            } else {
                rest
            }
        }
    }

    /// The tiles around an entity from which it can be loaded or unloaded.
    pub open spec fn loading_slots(self, x: int, y: int) -> Seq<(int, int)> {
        self.on_board(self.ring(x, y))
    }
}

/// Tiles on the board have their own slot.
pub broadcast proof fn lemma_slot(g: GridView, x: int, y: int)
    requires
        g.inside(x, y),
    ensures
        0 <= #[trigger] g.slot(x, y) < g.width * g.height,
{
    assert(0 <= y * g.width + x < g.width * g.height) by (nonlinear_arith)
        requires
            0 <= x < g.width,
            0 <= y < g.height,
    ;
}

/// Different tiles on the board have different slots.
pub proof fn lemma_slot_injective(g: GridView, x1: int, y1: int, x2: int, y2: int)
    requires
        g.inside(x1, y1),
        g.inside(x2, y2),
        g.slot(x1, y1) == g.slot(x2, y2),
    ensures
        x1 == x2,
        y1 == y2,
{
    let w = g.width as int;
    assert(y1 == y2) by (nonlinear_arith)
        requires
            0 <= x1 < w,
            0 <= x2 < w,
            y1 * w + x1 == y2 * w + x2,
    ;
}

/// The slot of a tile gives the tile back.
pub proof fn lemma_slot_inverse(g: GridView, x: int, y: int)
    requires
        g.inside(x, y),
    ensures
        g.slot(x, y) % (g.width as int) == x,
        g.slot(x, y) / (g.width as int) == y,
{
    lemma_fundamental_div_mod_converse(g.slot(x, y), g.width as int, y, x);
}

/// Every slot is that of a tile on the board.
pub proof fn lemma_slot_surjective(g: GridView, i: int)
    requires
        0 <= i < g.width * g.height,
    ensures
        g.inside(i % (g.width as int), i / (g.width as int)),
        g.slot(i % (g.width as int), i / (g.width as int)) == i,
{
    let w = g.width as int;
    let h = g.height as int;
    assert(w > 0) by (nonlinear_arith)
        requires
            0 <= i < w * h,
            w >= 0,
    ;
    vstd::arithmetic::div_mod::lemma_fundamental_div_mod(i, w);
    assert(0 <= i / w < h && (i / w) * w == w * (i / w)) by (nonlinear_arith)
        requires
            0 <= i < w * h,
            w > 0,
            i == w * (i / w) + i % w,
            0 <= i % w < w,
    ;
}

/// Writing one tile changes that tile and no other.
pub broadcast proof fn lemma_put_at(g: GridView, a: int, b: int, c: Cell, x: int, y: int)
    requires
        g.valid(),
        g.inside(a, b),
        g.inside(x, y),
    ensures
        #[trigger] g.put(a, b, c).at(x, y) == (if x == a && y == b { c } else { g.at(x, y) }),
{
    lemma_slot(g, a, b);
    lemma_slot(g, x, y);
    if g.slot(a, b) == g.slot(x, y) {
        lemma_slot_injective(g, a, b, x, y);
    }
}

/// Blocking one tile changes that tile and no other.
pub broadcast proof fn lemma_block_at(g: GridView, a: int, b: int, v: bool, x: int, y: int)
    requires
        g.valid(),
        g.inside(a, b),
        g.inside(x, y),
    ensures
        #[trigger] g.block(a, b, v).blocked(x, y) == (if x == a && y == b { v } else {
            g.blocked(x, y)
        }),
{
    lemma_slot(g, a, b);
    lemma_slot(g, x, y);
    if g.slot(a, b) == g.slot(x, y) {
        lemma_slot_injective(g, a, b, x, y);
    }
}

/// A tile of the blank grid is empty and free.
pub broadcast proof fn lemma_blank_at(w: nat, h: nat, x: int, y: int)
    requires
        GridView::blank(w, h).inside(x, y),
    ensures
        #[trigger] GridView::blank(w, h).at(x, y) == world::empty_cell(),
{
    lemma_slot(GridView::blank(w, h), x, y);
}

/// The search for a covering entity finds one exactly where there is one among
/// the stored cells it looks at.
pub proof fn lemma_cover_from(g: GridView, x: int, y: int, k: int)
    requires
        0 <= k <= 9,
    ensures
        match g.cover_from(x, y, k) {
            Some((ax, ay)) => g.covers(ax, ay, x, y),
            None => forall|ax: int, ay: int|
                3 * (ay - y + 2) + (ax - x + 2) >= k ==> !#[trigger] g.covers(ax, ay, x, y),
        },
    decreases 9 - k,
{
    if k < 9 && !g.covers(x - 2 + k % 3, y - 2 + k / 3, x, y) {
        lemma_cover_from(g, x, y, k + 1);
        if g.cover_from(x, y, k + 1) is None {
            assert forall|ax: int, ay: int|
                3 * (ay - y + 2) + (ax - x + 2) >= k implies !#[trigger] g.covers(
                ax,
                ay,
                x,
                y,
            ) by {
                if g.covers(ax, ay, x, y) && 3 * (ay - y + 2) + (ax - x + 2) == k {
                    assert(0 <= ax - x + 2 <= 2);
                }
            }
        }
    }
}

/// Some entity stands on a tile exactly where one covers it, and the anchor
/// names one that does.
pub proof fn lemma_anchor_of(g: GridView, x: int, y: int)
    requires
        g.inside(x, y),
    ensures
        match g.anchor_of(x, y) {
            Some((ax, ay)) => g.covers(ax, ay, x, y),
            None => forall|ax: int, ay: int| !#[trigger] g.covers(ax, ay, x, y),
        },
{
    lemma_cover_from(g, x, y, 0);
    if g.anchor_of(x, y) is None {
        assert forall|ax: int, ay: int| !#[trigger] g.covers(ax, ay, x, y) by {
            if g.covers(ax, ay, x, y) {
                assert(3 * (ay - y + 2) + (ax - x + 2) >= 0);
            }
        }
    }
}

/// On legal ground the entity that stands on a tile is the only one that covers
/// it.
pub proof fn law_anchor_is_unique_on_legal_ground(g: GridView, ax: int, ay: int, x: int, y: int)
    requires
        g.legal(),
        g.covers(ax, ay, x, y),
    ensures
        g.inside(x, y),
        g.anchor_of(x, y) == Some((ax, ay)),
{
    assert(g.stands_clear(ax, ay));
    lemma_anchor_of(g, x, y);
}

/// A grid of cells, stored row by row.
///
/// `obstacle` marks the tiles that are permanently blocked. It is terrain, given
/// with the task, and nothing may be built on it.
#[derive(Debug, PartialEq, Eq)]
pub struct Grid {
    pub width: usize,
    pub height: usize,
    pub cells: Vec<Cell>,
    pub obstacle: Vec<bool>,
}

impl View for Grid {
    type V = GridView;

    open spec fn view(&self) -> GridView {
        GridView {
            width: self.width as nat,
            height: self.height as nat,
            cells: self.cells@,
            obstacle: self.obstacle@,
        }
    }
}

impl Clone for Grid {
    fn clone(&self) -> (r: Self)
        ensures
            r@ == self@,
    {
        let r = Grid {
            width: self.width,
            height: self.height,
            cells: self.cells.clone(),
            obstacle: self.obstacle.clone(),
        };
        assert(r.cells@ =~= self.cells@);
        assert(r.obstacle@ =~= self.obstacle@);
        r
    }
}

impl Grid {
    /// One cell and one obstacle flag for every tile.
    pub open spec fn wf(&self) -> bool {
        self@.valid()
    }

    /// A grid with nothing on it.
    pub fn new(width: usize, height: usize) -> (r: Self)
        requires
            width <= MAX_SIDE,
            height <= MAX_SIDE,
            width * height <= usize::MAX,
        ensures
            r.wf(),
            r@ == GridView::blank(width as nat, height as nat),
    {
        let n: usize = width * height;
        let r = Grid { width, height, cells: vec![Cell::default(); n], obstacle: vec![false; n] };
        assert(r@ =~= GridView::blank(width as nat, height as nat));
        r
    }

    /// Where a tile is stored.
    pub fn idx(&self, x: usize, y: usize) -> (r: usize)
        requires
            y * self.width + x <= usize::MAX,
        ensures
            r == self@.slot(x as int, y as int),
    {
        assert(y * self.width <= usize::MAX) by (nonlinear_arith)
            requires
                y * self.width + x <= usize::MAX,
                x >= 0,
        ;
        y * self.width + x
    }

    /// Whether a tile is on the board.
    pub fn in_bounds(&self, x: i32, y: i32) -> (r: bool)
        ensures
            r == self@.inside(x as int, y as int),
    {
        x >= 0 && y >= 0 && (x as usize) < self.width && (y as usize) < self.height
    }

    /// The cell stored for a tile.
    pub fn get(&self, x: usize, y: usize) -> (r: Cell)
        requires
            y * self.width + x < self.cells.len(),
        ensures
            r == self@.at(x as int, y as int),
    {
        self.cells[self.idx(x, y)]
    }

    /// Store a cell for a tile.
    pub fn set(&mut self, x: usize, y: usize, cell: Cell)
        requires
            y * old(self).width + x < old(self).cells.len(),
        ensures
            final(self)@ == old(self)@.put(x as int, y as int, cell),
            final(self).wf() == old(self).wf(),
    {
        let i = self.idx(x, y);
        self.cells.set(i, cell);
    }

    /// Whether a tile is blocked.
    pub fn is_obstacle(&self, x: usize, y: usize) -> (r: bool)
        requires
            y * self.width + x < self.obstacle.len(),
        ensures
            r == self@.blocked(x as int, y as int),
    {
        self.obstacle[self.idx(x, y)]
    }

    /// Block or free a tile.
    pub fn set_obstacle(&mut self, x: usize, y: usize, v: bool)
        requires
            y * old(self).width + x < old(self).obstacle.len(),
        ensures
            final(self)@ == old(self)@.block(x as int, y as int, v),
            final(self).wf() == old(self).wf(),
    {
        let i = self.idx(x, y);
        self.obstacle.set(i, v);
    }

    /// Number of cells.
    pub fn len(&self) -> (r: usize)
        ensures
            r == self@.cells.len(),
    {
        self.cells.len()
    }

    /// Whether the grid has no cells at all.
    pub fn is_empty(&self) -> (r: bool)
        ensures
            r == (self@.cells.len() == 0),
    {
        self.cells.is_empty()
    }

    /// Whether the entity stored at `(ax, ay)` covers `(x, y)`.
    fn covers_tile(&self, ax: usize, ay: usize, x: usize, y: usize) -> (r: bool)
        requires
            self.wf(),
            self@.inside(ax as int, ay as int),
        ensures
            r == self@.covers(ax as int, ay as int, x as int, y as int),
    {
        proof {
            lemma_slot(self@, ax as int, ay as int);
        }
        let cell = self.get(ax, ay);
        let (w, h) = cell.entity.footprint(cell.direction);
        !cell.is_empty() && ax <= x && x - ax < w && ay <= y && y - ay < h
    }

    /// The entity that stands on a tile, named by its anchor: the tile itself
    /// when something is stored there, otherwise the entity whose footprint
    /// covers it.
    pub fn anchor_at(&self, x: usize, y: usize) -> (r: Option<(usize, usize)>)
        requires
            self.wf(),
            self@.inside(x as int, y as int),
        ensures
            pos_option(r) == self@.anchor_of(x as int, y as int),
            r matches Some(a) ==> self@.covers(a.0 as int, a.1 as int, x as int, y as int),
            r is None ==> forall|ax: int, ay: int|
                !#[trigger] self@.covers(ax, ay, x as int, y as int),
    {
        proof {
            lemma_slot(self@, x as int, y as int);
            lemma_anchor_of(self@, x as int, y as int);
        }
        if !self.get(x, y).is_empty() {
            return Some((x, y));
        }
        let mut k: usize = 0;
        while k < 9
            invariant
                self.wf(),
                self@.inside(x as int, y as int),
                self@.at(x as int, y as int).entity is Empty,
                0 <= k <= 9,
                self@.cover_from(x as int, y as int, 0) == self@.cover_from(
                    x as int,
                    y as int,
                    k as int,
                ),
            decreases 9 - k,
        {
            let back: usize = 2 - k % 3;
            let up: usize = 2 - k / 3;
            if back <= x && up <= y {
                if self.covers_tile(x - back, y - up, x, y) {
                    return Some((x - back, y - up));
                }
            }
            k = k + 1;
        }
        None
    }

    /// Whether no entity but the one stored at `(ax, ay)` covers `(x, y)`.
    fn covered_only_by(&self, ax: usize, ay: usize, x: usize, y: usize) -> (r: bool)
        requires
            self.wf(),
            self@.inside(x as int, y as int),
        ensures
            r == forall|bx: int, by: int| #[trigger]
                self@.covers(bx, by, x as int, y as int) ==> bx == ax && by == ay,
    {
        let mut k: usize = 0;
        while k < 9
            invariant
                self.wf(),
                self@.inside(x as int, y as int),
                0 <= k <= 9,
                forall|bx: int, by: int|
                    3 * (by - y + 2) + (bx - x + 2) < k && #[trigger] self@.covers(
                        bx,
                        by,
                        x as int,
                        y as int,
                    ) ==> bx == ax && by == ay,
            decreases 9 - k,
        {
            let back: usize = 2 - k % 3;
            let up: usize = 2 - k / 3;
            if back <= x && up <= y && (x - back != ax || y - up != ay) {
                if self.covers_tile(x - back, y - up, x, y) {
                    return false;
                }
            }
            assert forall|bx: int, by: int|
                3 * (by - y + 2) + (bx - x + 2) < k + 1 && #[trigger] self@.covers(
                    bx,
                    by,
                    x as int,
                    y as int,
                ) implies bx == ax && by == ay by {
                if 3 * (by - y + 2) + (bx - x + 2) == k {
                    assert(0 <= bx - x + 2 <= 2);
                }
            }
            k = k + 1;
        }
        assert forall|bx: int, by: int| #[trigger]
            self@.covers(bx, by, x as int, y as int) implies bx == ax && by == ay by {
            assert(3 * (by - y + 2) + (bx - x + 2) < 9);
        }
        true
    }

    /// Whether the entity stored at `(ax, ay)` has its ground to itself.
    fn has_clear_ground(&self, ax: usize, ay: usize) -> (r: bool)
        requires
            self.wf(),
            self@.inside(ax as int, ay as int),
        ensures
            r == self@.stands_clear(ax as int, ay as int),
    {
        proof {
            lemma_slot(self@, ax as int, ay as int);
        }
        let cell = self.get(ax, ay);
        if cell.is_empty() {
            return true;
        }
        let (w, h) = cell.entity.footprint(cell.direction);
        let mut k: usize = 0;
        while k < 9
            invariant
                self.wf(),
                self@.inside(ax as int, ay as int),
                cell == self@.at(ax as int, ay as int),
                cell.entity !is Empty,
                (w as int, h as int) == self@.extent_at(ax as int, ay as int),
                1 <= w <= 3,
                1 <= h <= 3,
                0 <= k <= 9,
                forall|x: int, y: int|
                    3 * (y - ay) + (x - ax) < k && #[trigger] self@.covers(
                        ax as int,
                        ay as int,
                        x,
                        y,
                    ) ==> {
                        &&& self@.inside(x, y)
                        &&& !self@.blocked(x, y)
                        &&& forall|bx: int, by: int| #[trigger]
                            self@.covers(bx, by, x, y) ==> bx == ax && by == ay
                    },
            decreases 9 - k,
        {
            let right: usize = k % 3;
            let down: usize = k / 3;
            if right < w && down < h {
                let x: usize = ax + right;
                let y: usize = ay + down;
                assert(self@.covers(ax as int, ay as int, x as int, y as int));
                if x >= self.width || y >= self.height {
                    return false;
                }
                proof {
                    lemma_slot(self@, x as int, y as int);
                }
                if self.is_obstacle(x, y) || !self.covered_only_by(ax, ay, x, y) {
                    return false;
                }
            }
            assert forall|x: int, y: int|
                3 * (y - ay) + (x - ax) < k + 1 && #[trigger] self@.covers(
                    ax as int,
                    ay as int,
                    x,
                    y,
                ) implies {
                &&& self@.inside(x, y)
                &&& !self@.blocked(x, y)
                &&& forall|bx: int, by: int| #[trigger]
                    self@.covers(bx, by, x, y) ==> bx == ax && by == ay
            } by {
                if 3 * (y - ay) + (x - ax) == k {
                    assert(0 <= x - ax <= 2);
                    assert(x - ax == k % 3 && y - ay == k / 3);
                }
            }
            k = k + 1;
        }
        assert forall|x: int, y: int| #[trigger]
            self@.covers(ax as int, ay as int, x, y) implies 3 * (y - ay) + (x - ax) < 9 by {}
        true
    }

    /// Whether no entity overlaps another, covers an obstacle or hangs over the
    /// edge.
    pub fn footprints_are_legal(&self) -> (r: bool)
        requires
            self.wf(),
        ensures
            r == self@.legal(),
    {
        let mut y: usize = 0;
        while y < self.height
            invariant
                self.wf(),
                y <= self.height,
                forall|ax: int, ay: int|
                    ay < y && #[trigger] self@.inside(ax, ay) ==> self@.stands_clear(ax, ay),
            decreases self.height - y,
        {
            let mut x: usize = 0;
            while x < self.width
                invariant
                    self.wf(),
                    y < self.height,
                    x <= self.width,
                    forall|ax: int, ay: int|
                        (ay < y || ay == y && ax < x) && #[trigger] self@.inside(ax, ay)
                            ==> self@.stands_clear(ax, ay),
                decreases self.width - x,
            {
                assert(self@.inside(x as int, y as int));
                if !self.has_clear_ground(x, y) {
                    return false;
                }
                x = x + 1;
            }
            y = y + 1;
        }
        true
    }

    /// Whether every cell is consistent and every entity has its ground to
    /// itself: a well-formed factory.
    pub fn is_consistent(&self) -> (r: bool)
        requires
            self.wf(),
        ensures
            r == self@.consistent(),
    {
        reveal(GridView::consistent);
        let mut i: usize = 0;
        while i < self.cells.len()
            invariant
                i <= self.cells.len(),
                forall|j: int| 0 <= j < i ==> (#[trigger] self@.cells[j]).consistent(),
            decreases self.cells.len() - i,
        {
            if !self.cells[i].is_consistent() {
                reveal(GridView::consistent);
                assert(!self@.cells[i as int].consistent());
                return false;
            }
            i = i + 1;
        }
        self.footprints_are_legal()
    }

    /// The tiles of the footprint of whatever is stored at `(x, y)`, row by row,
    /// including those that hang over the edge.
    pub fn footprint_at(&self, x: usize, y: usize) -> (r: Vec<(i32, i32)>)
        requires
            self.wf(),
            self@.inside(x as int, y as int),
        ensures
            tile_list(r@) == self@.footprint_tiles(x as int, y as int),
    {
        proof {
            lemma_slot(self@, x as int, y as int);
        }
        let cell = self.get(x, y);
        let (w, h) = cell.entity.footprint(cell.direction);
        let mut r: Vec<(i32, i32)> = Vec::new();
        let mut dy: usize = 0;
        while dy < h
            invariant
                1 <= w <= 3,
                1 <= h <= 3,
                dy <= h,
                x < MAX_SIDE,
                y < MAX_SIDE,
                r.len() == w * dy,
                forall|k: int|
                    0 <= k < r.len() ==> (#[trigger] r[k]).0 == x + k % (w as int) && r[k].1 == y + k / (
                    w as int),
            decreases h - dy,
        {
            let mut dx: usize = 0;
            while dx < w
                invariant
                    1 <= w <= 3,
                    1 <= h <= 3,
                    dy < h,
                    dx <= w,
                    x < MAX_SIDE,
                    y < MAX_SIDE,
                    r.len() == w * dy + dx,
                    forall|k: int|
                        0 <= k < r.len() ==> (#[trigger] r[k]).0 == x + k % (w as int) && r[k].1 == y
                            + k / (w as int),
                decreases w - dx,
            {
                proof {
                    assert(w * dy == dy * w) by (nonlinear_arith);
                    lemma_fundamental_div_mod_converse(
                        (w * dy + dx) as int,
                        w as int,
                        dy as int,
                        dx as int,
                    );
                }
                r.push(((x + dx) as i32, (y + dy) as i32));
                dx = dx + 1;
            }
            assert(w * (dy + 1) == w * dy + w) by (nonlinear_arith);
            dy = dy + 1;
        }
        assert(tile_list(r@) =~= self@.footprint_tiles(x as int, y as int));
        r
    }

    /// The tiles on the board that share an edge with the footprint of whatever
    /// is stored at `(x, y)`: above, right, below, left.
    pub fn perimeter(&self, x: usize, y: usize) -> (r: Vec<(usize, usize)>)
        requires
            self.wf(),
            self@.inside(x as int, y as int),
        ensures
            pos_list(r@) == self@.loading_slots(x as int, y as int),
    {
        proof {
            lemma_slot(self@, x as int, y as int);
        }
        let cell = self.get(x, y);
        let (w, h) = cell.entity.footprint(cell.direction);
        let ghost ring = self@.ring(x as int, y as int);
        let mut r: Vec<(usize, usize)> = Vec::new();
        let mut k: usize = 0;
        while k < 2 * (w + h)
            invariant
                self.wf(),
                self@.inside(x as int, y as int),
                (w as int, h as int) == self@.extent_at(x as int, y as int),
                1 <= w <= 3,
                1 <= h <= 3,
                k <= 2 * (w + h),
                ring == self@.ring(x as int, y as int),
                pos_list(r@) == self@.on_board(ring.take(k as int)),
            decreases 2 * (w + h) - k,
        {
            let (tx, ty): (i32, i32) = if k < w {
                ((x + k) as i32, y as i32 - 1)
            } else if k < w + h {
                ((x + w) as i32, (y + (k - w)) as i32)
            } else if k < 2 * w + h {
                ((x + (k - w - h)) as i32, (y + h) as i32)
            } else {
                (x as i32 - 1, (y + (k - 2 * w - h)) as i32)
            };
            assert((tx as int, ty as int) == ring[k as int]);
            assert(ring.take(k as int + 1).drop_last() =~= ring.take(k as int));
            let ghost before = r@;
            if self.in_bounds(tx, ty) {
                r.push((tx as usize, ty as usize));
                assert(pos_list(r@) =~= pos_list(before).push((tx as int, ty as int)));
            }
            k = k + 1;
        }
        assert(ring.take(ring.len() as int) =~= ring);
        r
    }
}

} // verus!
