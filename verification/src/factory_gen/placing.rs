//! Placing entities on a board, one by one, on ground that is clear.

use vstd::prelude::*;
use crate::world;
use crate::world::grid;
use crate::world::grid::GridView;
use crate::world::{Cell, Direction, Entity, Grid, Item, Misc};

verus! {

/// The cell of a source of `item`.
pub open spec fn source_cell(item: Item) -> Cell {
    Cell { entity: Entity::Source, item, ..world::empty_cell() }
}

/// The cell of a sink for `item`.
pub open spec fn sink_cell(item: Item) -> Cell {
    Cell { entity: Entity::Sink, item, ..world::empty_cell() }
}

/// The cell of an inserter.
pub open spec fn inserter_cell(direction: Direction) -> Cell {
    Cell { entity: Entity::Inserter, direction, ..world::empty_cell() }
}

/// The anchor cell of a machine that makes `recipe`.
pub open spec fn machine_cell(recipe: Item) -> Cell {
    Cell {
        entity: Entity::Assembler,
        direction: Direction::East,
        item: recipe,
        misc: Misc::Untagged,
    }
}

/// The cell of one end of a tunnel.
pub open spec fn tunnel_cell(direction: Direction, misc: Misc) -> Cell {
    Cell { entity: Entity::UndergroundBelt, direction, item: Item::Nothing, misc }
}

/// The anchor cell of a splitter.
pub open spec fn splitter_cell(direction: Direction) -> Cell {
    Cell { entity: Entity::Splitter, direction, ..world::empty_cell() }
}

/// A source of `item`.
pub fn source(item: Item) -> (r: Cell)
    ensures
        r == source_cell(item),
{
    Cell { entity: Entity::Source, direction: Direction::Nowhere, item, misc: Misc::Untagged }
}

/// A sink for `item`.
pub fn sink(item: Item) -> (r: Cell)
    ensures
        r == sink_cell(item),
{
    Cell { entity: Entity::Sink, direction: Direction::Nowhere, item, misc: Misc::Untagged }
}

/// An inserter that faces `direction`.
pub fn inserter(direction: Direction) -> (r: Cell)
    ensures
        r == inserter_cell(direction),
{
    Cell { entity: Entity::Inserter, direction, item: Item::Nothing, misc: Misc::Untagged }
}

/// A machine that makes `recipe`.
pub fn machine(recipe: Item) -> (r: Cell)
    ensures
        r == machine_cell(recipe),
{
    Cell {
        entity: Entity::Assembler,
        direction: Direction::East,
        item: recipe,
        misc: Misc::Untagged,
    }
}

/// One end of a tunnel.
pub fn tunnel(direction: Direction, misc: Misc) -> (r: Cell)
    ensures
        r == tunnel_cell(direction, misc),
{
    Cell { entity: Entity::UndergroundBelt, direction, item: Item::Nothing, misc }
}

/// A splitter that faces `direction`.
pub fn splitter(direction: Direction) -> (r: Cell)
    ensures
        r == splitter_cell(direction),
{
    Cell { entity: Entity::Splitter, direction, item: Item::Nothing, misc: Misc::Untagged }
}

/// Whether some entity stands on a tile.
#[verifier::opaque]
pub open spec fn taken(g: GridView, x: int, y: int) -> bool {
    exists|ax: int, ay: int| #[trigger] g.covers(ax, ay, x, y)
}

/// Whether `(x, y)` lies in the footprint of `cell` when it is placed at `(a, b)`.
pub open spec fn spans(cell: Cell, a: int, b: int, x: int, y: int) -> bool {
    let (w, h) = cell.entity.extent(cell.direction);
    a <= x < a + w && b <= y < b + h
}

/// Whether an entity may be placed at `(a, b)`: its whole footprint is on the board,
/// free of obstacles and of other entities.
pub open spec fn clear_for(g: GridView, a: int, b: int, cell: Cell) -> bool {
    forall|x: int, y: int| #[trigger]
        spans(cell, a, b, x, y) ==> g.inside(x, y) && !g.blocked(x, y) && !taken(g, x, y)
}

/// A tile is taken exactly where it has an anchor.
pub proof fn lemma_taken(g: GridView, x: int, y: int)
    requires
        g.inside(x, y),
    ensures
        taken(g, x, y) <==> g.anchor_of(x, y) is Some,
        taken(g, x, y) <== g.at(x, y).entity !is Empty,
{
    reveal(taken);
    grid::lemma_anchor_of(g, x, y);
    if g.at(x, y).entity !is Empty {
        assert(g.covers(x, y, x, y));
    }
}

/// Placing an entity on clear ground keeps a factory well formed, and takes the
/// tiles of its footprint and no others.
pub proof fn lemma_place(g: GridView, a: int, b: int, cell: Cell)
    requires
        g.valid(),
        g.consistent(),
        cell.consistent(),
        cell.entity !is Empty,
        clear_for(g, a, b, cell),
    ensures
        g.inside(a, b),
        g.put(a, b, cell).consistent(),
        forall|x: int, y: int| #[trigger]
            taken(g.put(a, b, cell), x, y) <==> taken(g, x, y) || spans(cell, a, b, x, y),
{
    reveal(taken);
    reveal(GridView::consistent);
    let n = g.put(a, b, cell);
    assert(spans(cell, a, b, a, b));
    grid::lemma_slot(g, a, b);
    lemma_taken(g, a, b);
    assert forall|ax: int, ay: int, x: int, y: int| #[trigger]
        n.covers(ax, ay, x, y) <==> (g.covers(ax, ay, x, y) || (ax == a && ay == b && spans(
            cell,
            a,
            b,
            x,
            y,
        ))) by {
        if g.inside(ax, ay) {
            grid::lemma_put_at(g, a, b, cell, ax, ay);
        }
    }
    assert forall|x: int, y: int| #[trigger] taken(n, x, y) <==> taken(g, x, y) || spans(
        cell,
        a,
        b,
        x,
        y,
    ) by {
        if taken(g, x, y) {
            let (ax, ay) = choose|ax: int, ay: int| #[trigger] g.covers(ax, ay, x, y);
            assert(n.covers(ax, ay, x, y));
        }
        if spans(cell, a, b, x, y) {
            assert(n.covers(a, b, x, y));
        }
    }
    assert forall|ax: int, ay: int| #[trigger] n.inside(ax, ay) implies n.stands_clear(ax, ay) by {
        assert forall|x: int, y: int| #[trigger] n.covers(ax, ay, x, y) implies {
            &&& n.inside(x, y)
            &&& !n.blocked(x, y)
            &&& forall|bx: int, by: int| #[trigger] n.covers(bx, by, x, y) ==> bx == ax && by == ay
        } by {
            if g.covers(ax, ay, x, y) {
                assert(g.stands_clear(ax, ay));
                assert(taken(g, x, y));
                assert(!spans(cell, a, b, x, y));
            } else {
                assert(!taken(g, x, y));
            }
        }
    }
    assert forall|i: int| 0 <= i < n.cells.len() implies (#[trigger] n.cells[i]).consistent() by {
        if i != g.slot(a, b) {
            assert(n.cells[i] == g.cells[i]);
        }
    }
}

/// Turning an entity of one tile into another entity of one tile keeps a factory
/// well formed and takes no other tiles.
pub proof fn lemma_replace(g: GridView, a: int, b: int, cell: Cell)
    requires
        g.valid(),
        g.consistent(),
        cell.consistent(),
        cell.entity !is Empty,
        cell.entity.extent(cell.direction) == (1int, 1int),
        g.inside(a, b),
        g.at(a, b).entity !is Empty,
        g.extent_at(a, b) == (1int, 1int),
    ensures
        g.put(a, b, cell).consistent(),
        forall|x: int, y: int| #[trigger] taken(g.put(a, b, cell), x, y) <==> taken(g, x, y),
{
    reveal(taken);
    reveal(GridView::consistent);
    let n = g.put(a, b, cell);
    grid::lemma_slot(g, a, b);
    assert forall|ax: int, ay: int, x: int, y: int| #[trigger]
        n.covers(ax, ay, x, y) <==> g.covers(ax, ay, x, y) by {
        if g.inside(ax, ay) {
            grid::lemma_put_at(g, a, b, cell, ax, ay);
        }
    }
    assert forall|x: int, y: int| #[trigger] taken(n, x, y) <==> taken(g, x, y) by {
        if taken(g, x, y) {
            let (ax, ay) = choose|ax: int, ay: int| #[trigger] g.covers(ax, ay, x, y);
            assert(n.covers(ax, ay, x, y));
        }
    }
    assert forall|ax: int, ay: int| #[trigger] n.inside(ax, ay) implies n.stands_clear(ax, ay) by {
        assert(g.inside(ax, ay));
        assert(g.stands_clear(ax, ay));
        assert forall|x: int, y: int| #[trigger] n.covers(ax, ay, x, y) implies {
            &&& n.inside(x, y)
            &&& !n.blocked(x, y)
            &&& forall|bx: int, by: int| #[trigger] n.covers(bx, by, x, y) ==> bx == ax && by == ay
        } by {
            assert(g.covers(ax, ay, x, y));
        }
    }
    assert forall|i: int| 0 <= i < n.cells.len() implies (#[trigger] n.cells[i]).consistent() by {
        if i != g.slot(a, b) {
            assert(n.cells[i] == g.cells[i]);
        }
    }
}

/// A board on which nothing is stored is well formed and nothing on it is taken,
/// whatever its obstacles are.
pub proof fn lemma_bare(g: GridView)
    requires
        g.valid(),
        forall|i: int| 0 <= i < g.cells.len() ==> #[trigger] g.cells[i] == world::empty_cell(),
    ensures
        g.consistent(),
        forall|x: int, y: int| !#[trigger] taken(g, x, y),
{
    reveal(taken);
    reveal(GridView::consistent);
    assert forall|ax: int, ay: int, x: int, y: int| !#[trigger] g.covers(ax, ay, x, y) by {
        if g.inside(ax, ay) {
            grid::lemma_slot(g, ax, ay);
        }
    }
}

/// Place an entity on clear ground.
pub fn place(grid: &mut Grid, x: usize, y: usize, cell: Cell)
    requires
        old(grid).wf(),
        old(grid)@.consistent(),
        cell.consistent(),
        cell.entity !is Empty,
        clear_for(old(grid)@, x as int, y as int, cell),
    ensures
        final(grid).wf(),
        final(grid)@ == old(grid)@.put(x as int, y as int, cell),
        final(grid)@.consistent(),
        final(grid).width == old(grid).width,
        final(grid).height == old(grid).height,
        final(grid)@.obstacle == old(grid)@.obstacle,
        forall|tx: int, ty: int| #[trigger]
            final(grid)@.blocked(tx, ty) == old(grid)@.blocked(tx, ty),
        forall|tx: int, ty: int| #[trigger]
            taken(final(grid)@, tx, ty) <==> taken(old(grid)@, tx, ty) || spans(
                cell,
                x as int,
                y as int,
                tx,
                ty,
            ),
{
    proof {
        lemma_place(grid@, x as int, y as int, cell);
        grid::lemma_slot(grid@, x as int, y as int);
    }
    grid.set(x, y, cell);
}

} // verus!
