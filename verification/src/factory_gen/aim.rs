//! Every inserter of a generated factory pushes into something.

use vstd::prelude::*;
use crate::factory_gen::canvas::{Canvas, BANK_LINES, CABLE_FEEDS, LINE_H, SHARED_LINES};
use crate::factory_gen::choices;
use crate::factory_gen::placing;
use crate::factory_gen::route;
use crate::factory_gen::routed;
use crate::factory_gen::templates;
use crate::factory_gen::works;
use crate::world::grid;
use crate::world::grid::GridView;
use crate::world::{Direction, Item};

verus! {

broadcast use {grid::lemma_slot, grid::lemma_put_at, grid::lemma_blank_at, grid::lemma_block_at};

/// The tile that a cell's direction points at.
pub open spec fn ahead(g: GridView, x: int, y: int) -> (int, int) {
    (x + g.at(x, y).direction.dx(), y + g.at(x, y).direction.dy())
}

/// Whether every inserter faces a tile of the board on which something stands. One that
/// faces an empty tile is decoration.
#[verifier::opaque]
pub open spec fn aimed(g: GridView) -> bool {
    forall|x: int, y: int| #[trigger]
        g.inside(x, y) && g.at(x, y).entity is Inserter ==> {
            let t = ahead(g, x, y);
            g.inside(t.0, t.1) && g.anchor_of(t.0, t.1) is Some
        }
}

/// An inserter that faces a tile of an entity's footprint is aimed.
proof fn lemma_faces_entity(g: GridView, x: int, y: int, ax: int, ay: int)
    requires
        g.covers(ax, ay, ahead(g, x, y).0, ahead(g, x, y).1),
        g.inside(ahead(g, x, y).0, ahead(g, x, y).1),
    ensures
        g.anchor_of(ahead(g, x, y).0, ahead(g, x, y).1) is Some,
{
    grid::lemma_anchor_of(g, ahead(g, x, y).0, ahead(g, x, y).1);
}

/// A factory without inserters has none that is badly aimed.
pub proof fn lemma_no_inserters(g: GridView)
    requires
        forall|x: int, y: int| #[trigger] g.inside(x, y) ==> g.at(x, y).entity !is Inserter,
    ensures
        aimed(g),
{
    reveal(aimed);
}

/// What is added to a factory without new inserters leaves those it has aimed.
pub proof fn lemma_still_aimed(g: GridView, h: GridView)
    requires
        aimed(g),
        h.width == g.width,
        h.height == g.height,
        forall|x: int, y: int| #[trigger]
            h.inside(x, y) && h.at(x, y).entity is Inserter ==> g.at(x, y) == h.at(x, y),
        forall|x: int, y: int| #[trigger] placing::taken(g, x, y) ==> placing::taken(h, x, y),
    ensures
        aimed(h),
{
    reveal(aimed);
    assert forall|x: int, y: int| #[trigger]
        h.inside(x, y) && h.at(x, y).entity is Inserter implies {
        let t = ahead(h, x, y);
        h.inside(t.0, t.1) && h.anchor_of(t.0, t.1) is Some
    } by {
        let t = ahead(g, x, y);
        assert(g.inside(x, y));
        placing::lemma_taken(g, t.0, t.1);
        placing::lemma_taken(h, t.0, t.1);
    }
}

/// Belts along a route leave the inserters of a factory aimed.
pub proof fn lemma_belted_aimed(
    g: GridView,
    start: (int, int),
    goal: (int, int),
    avoid: Seq<(int, int)>,
    m: Seq<Direction>,
)
    requires
        g.valid(),
        g.consistent(),
        aimed(g),
        route::is_best_route(g, start, goal, avoid, m),
        m.len() > 0,
    ensures
        aimed(route::belted(g, start, m, (m.len() - 1) as nat)),
{
    let k = (m.len() - 1) as nat;
    let b = route::belted(g, start, m, k);
    routed::lemma_belted(g, start, goal, avoid, m, k);
    assert forall|x: int, y: int| #[trigger]
        b.inside(x, y) && b.at(x, y).entity is Inserter implies g.at(x, y) == b.at(x, y) by {
        assert(g.inside(x, y));
        placing::lemma_taken(b, x, y);
    }
    lemma_still_aimed(g, b);
}

/// The inserters of a crafting line are aimed.
pub proof fn lemma_line_aimed(canvas: Canvas, x0: int, y0: int, recipe: Item)
    requires
        canvas.holdable(),
        0 <= x0 && x0 + 7 <= canvas.width,
        0 <= y0 && y0 + 3 <= canvas.height,
    ensures
        aimed(templates::line_grid(canvas, x0, y0, recipe)),
{
    reveal(aimed);
    let g = templates::line_grid(canvas, x0, y0, recipe);
    assert(g.at(x0 + 2, y0) == placing::machine_cell(recipe));
    assert(g.at(x0 + 6, y0 + 1) == placing::sink_cell(recipe));
    assert forall|x: int, y: int| #[trigger]
        g.inside(x, y) && g.at(x, y).entity is Inserter implies {
        let t = ahead(g, x, y);
        g.inside(t.0, t.1) && g.anchor_of(t.0, t.1) is Some
    } by {
        if x == x0 + 1 {
            lemma_faces_entity(g, x, y, x0 + 2, y0);
        } else {
            lemma_faces_entity(g, x, y, x0 + 6, y0 + 1);
        }
    }
}

/// The inserters of a direct recipe are aimed.
pub proof fn lemma_direct_aimed(canvas: Canvas, x0: int, y0: int, recipe: Item, inputs: Seq<Item>)
    requires
        canvas.holdable(),
        0 <= x0 && x0 + 7 <= canvas.width,
        0 <= y0 && y0 + 5 <= canvas.height,
    ensures
        aimed(templates::direct_grid(canvas, x0, y0, recipe, inputs)),
{
    reveal(aimed);
    let g = templates::direct_grid(canvas, x0, y0, recipe, inputs);
    assert(g.at(x0 + 2, y0 + 2) == placing::machine_cell(recipe));
    assert(g.at(x0 + 6, y0 + 3) == placing::sink_cell(recipe));
    assert forall|x: int, y: int| #[trigger]
        g.inside(x, y) && g.at(x, y).entity is Inserter implies {
        let t = ahead(g, x, y);
        g.inside(t.0, t.1) && g.anchor_of(t.0, t.1) is Some
    } by {
        if x == x0 + 5 {
            lemma_faces_entity(g, x, y, x0 + 6, y0 + 3);
        } else {
            lemma_faces_entity(g, x, y, x0 + 2, y0 + 2);
        }
    }
}

/// A tunnel under a wall has no inserters.
pub proof fn lemma_cross_aimed(canvas: Canvas, x0: int, y: int, item: Item)
    requires
        canvas.holdable(),
        0 <= x0 && x0 + 7 <= canvas.width,
        0 <= y < canvas.height,
    ensures
        aimed(templates::cross_grid(canvas, x0, y, item)),
{
    lemma_no_inserters(templates::cross_grid(canvas, x0, y, item));
}

/// What the lines of a bank put on each tile.
pub proof fn lemma_bank_lines_exact(
    g: GridView,
    x0: int,
    y0: int,
    recipe: Item,
    first: int,
    end: int,
    a: int,
    b: int,
)
    requires
        g.valid(),
        0 <= x0 && x0 + 7 <= g.width,
        0 <= y0 && y0 + 9 <= g.height,
        0 <= first,
        end <= BANK_LINES,
        g.inside(a, b),
    ensures
        choices::bank_lines(g, x0, y0, recipe, first, end).at(a, b) == (if LINE_H * first <= b - y0
            < LINE_H * end && (a == x0 + 1 || a == x0 + 5) && (b - y0) % 3 == 1 {
            placing::inserter_cell(Direction::East)
        } else if LINE_H * first <= b - y0 < LINE_H * end && a == x0 + 2 && (b - y0) % 3 == 0 {
            placing::machine_cell(recipe)
        } else {
            g.at(a, b)
        }),
    decreases end - first,
{
    if end > first {
        lemma_bank_lines_exact(g, x0, y0, recipe, first, end - 1, a, b);
        works::lemma_bank_lines_at(g, x0, y0, recipe, first, end - 1, a, b);
    }
}

/// The inserters of a bank are aimed, however many of its lines are built.
pub proof fn lemma_bank_aimed(canvas: Canvas, x0: int, y0: int, recipe: Item, lines: int)
    requires
        canvas.holdable(),
        0 <= x0 && x0 + 7 <= canvas.width,
        0 <= y0 && y0 + 9 <= canvas.height,
        1 <= lines <= BANK_LINES,
    ensures
        aimed(choices::bank_grid(canvas, x0, y0, recipe, lines)),
{
    reveal(aimed);
    let ports = choices::bank_ports(canvas, x0, y0, recipe);
    let first = BANK_LINES - lines;
    let built = choices::bank_lines(ports, x0, y0, recipe, first, 3);
    let from = y0 + LINE_H * first + 1;
    let g = choices::bank_grid(canvas, x0, y0, recipe, lines);
    works::lemma_bank_lines_at(ports, x0, y0, recipe, first, 3, x0, y0);
    works::lemma_column_at(built, x0 + 6, from, y0 + 7, x0, y0);
    assert forall|x: int, y: int| #[trigger]
        g.inside(x, y) && g.at(x, y).entity is Inserter implies {
        let t = ahead(g, x, y);
        g.inside(t.0, t.1) && g.anchor_of(t.0, t.1) is Some
    } by {
        lemma_bank_lines_exact(ports, x0, y0, recipe, first, 3, x, y);
        works::lemma_column_at(built, x0 + 6, from, y0 + 7, x, y);
        let top = y - 1;
        if x == x0 + 1 {
            lemma_bank_lines_exact(ports, x0, y0, recipe, first, 3, x0 + 2, top);
            works::lemma_column_at(built, x0 + 6, from, y0 + 7, x0 + 2, top);
            assert(g.at(x0 + 2, top) == placing::machine_cell(recipe));
            lemma_faces_entity(g, x, y, x0 + 2, top);
        } else {
            lemma_bank_lines_exact(ports, x0, y0, recipe, first, 3, x0 + 6, y);
            works::lemma_column_at(built, x0 + 6, from, y0 + 7, x0 + 6, y);
            lemma_faces_entity(g, x, y, x0 + 6, y);
        }
    }
}

/// The inserters of a circuit line are aimed, however many carry cable.
pub proof fn lemma_circuit_aimed(canvas: Canvas, x0: int, y0: int, feeds: int)
    requires
        canvas.holdable(),
        0 <= x0 && x0 + 11 <= canvas.width,
        0 <= y0 && y0 + 5 <= canvas.height,
        1 <= feeds <= CABLE_FEEDS,
    ensures
        aimed(choices::circuit_grid(canvas, x0, y0, feeds)),
{
    reveal(aimed);
    let frame = choices::circuit_frame(canvas, x0, y0);
    let g = choices::circuit_grid(canvas, x0, y0, feeds);
    let cable = (x0 + 2, y0 + 2);
    let circuit = (x0 + 6, y0 + 2);
    let sink = (x0 + 10, y0 + 3);
    works::lemma_feeds_at(frame, x0, y0, feeds, cable.0, cable.1);
    works::lemma_feeds_at(frame, x0, y0, feeds, circuit.0, circuit.1);
    works::lemma_feeds_at(frame, x0, y0, feeds, sink.0, sink.1);
    assert(g.at(cable.0, cable.1) == placing::machine_cell(Item::CopperCable));
    assert(g.at(circuit.0, circuit.1) == placing::machine_cell(Item::GreenCircuit));
    assert(g.at(sink.0, sink.1) == placing::sink_cell(Item::GreenCircuit));
    assert forall|x: int, y: int| #[trigger]
        g.inside(x, y) && g.at(x, y).entity is Inserter implies {
        let t = ahead(g, x, y);
        g.inside(t.0, t.1) && g.anchor_of(t.0, t.1) is Some
    } by {
        works::lemma_feeds_at(frame, x0, y0, feeds, x, y);
        if x == x0 + 1 {
            lemma_faces_entity(g, x, y, cable.0, cable.1);
        } else if x == x0 + 9 {
            lemma_faces_entity(g, x, y, sink.0, sink.1);
        } else {
            lemma_faces_entity(g, x, y, circuit.0, circuit.1);
        }
    }
}

/// Whether every inserter faces east, into an entity whose anchor is the tile it faces.
spec fn hands_east(g: GridView) -> bool {
    forall|x: int, y: int| #[trigger]
        g.inside(x, y) && g.at(x, y).entity is Inserter ==> {
            &&& g.at(x, y).direction is East
            &&& g.inside(x + 1, y)
            &&& g.at(x + 1, y).entity !is Empty
        }
}

/// The head of a shared line has no inserters.
proof fn lemma_head_hands(canvas: Canvas, x0: int, y0: int, recipe: Item, branches: int)
    requires
        canvas.holdable(),
        0 <= x0 && x0 + 11 <= canvas.width,
        0 <= y0 && y0 + 7 <= canvas.height,
    ensures
        ({
            let ports = choices::shared_ports(canvas, x0, y0, recipe);
            let head = choices::shared_head(ports, x0, y0, branches);
            &&& head.valid()
            &&& head.width == canvas.width
            &&& head.height == canvas.height
            &&& hands_east(head)
        }),
{
}

/// The inserters of a branch face its machine and the belt behind it.
proof fn lemma_branch_hands(g: GridView, x0: int, y: int, recipe: Item)
    requires
        g.valid(),
        hands_east(g),
        0 <= x0 && x0 + 11 <= g.width,
        0 <= y < g.height,
    ensures
        choices::shared_branch(g, x0, y, recipe).valid(),
        hands_east(choices::shared_branch(g, x0, y, recipe)),
{
    let b = choices::shared_branch(g, x0, y, recipe);
    assert forall|a: int, c: int| #[trigger]
        b.inside(a, c) && b.at(a, c).entity is Inserter implies {
        &&& b.at(a, c).direction is East
        &&& b.inside(a + 1, c)
        &&& b.at(a + 1, c).entity !is Empty
    } by {
        assert(g.inside(a, c));
    }
}

/// A column of belts leaves inserters that face east aimed.
proof fn lemma_column_hands(g: GridView, x: int, from: int, end: int)
    requires
        g.valid(),
        hands_east(g),
        0 <= x < g.width,
        0 <= from,
        end <= g.height,
    ensures
        aimed(choices::south_column(g, x, from, end)),
{
    reveal(aimed);
    let b = choices::south_column(g, x, from, end);
    if from < end {
        works::lemma_column_at(g, x, from, end, x, from);
    }
    assert forall|a: int, c: int| #[trigger]
        b.inside(a, c) && b.at(a, c).entity is Inserter implies {
        let t = ahead(b, a, c);
        b.inside(t.0, t.1) && b.anchor_of(t.0, t.1) is Some
    } by {
        works::lemma_column_at(g, x, from, end, a, c);
        assert(g.inside(a, c));
        works::lemma_column_at(g, x, from, end, a + 1, c);
        lemma_faces_entity(b, a, c, a + 1, c);
    }
}

/// The inserters of a shared line are aimed, with one branch or with two.
pub proof fn lemma_shared_aimed(canvas: Canvas, x0: int, y0: int, recipe: Item, branches: int)
    requires
        canvas.holdable(),
        0 <= x0 && x0 + 11 <= canvas.width,
        0 <= y0 && y0 + 7 <= canvas.height,
        1 <= branches <= SHARED_LINES,
    ensures
        aimed(choices::shared_grid(canvas, x0, y0, recipe, branches)),
{
    let ports = choices::shared_ports(canvas, x0, y0, recipe);
    let head = choices::shared_head(ports, x0, y0, branches);
    let upper = choices::shared_branch(head, x0, y0, recipe);
    let both = if branches > 1 {
        choices::shared_branch(upper, x0, y0 + 4, recipe)
    } else {
        upper
    };
    lemma_head_hands(canvas, x0, y0, recipe, branches);
    lemma_branch_hands(head, x0, y0, recipe);
    lemma_branch_hands(upper, x0, y0 + 4, recipe);
    lemma_column_hands(both, x0 + 10, y0, y0 + 4);
}

} // verus!
