//! The fixed layouts work, and deliver along their plans.

use vstd::prelude::*;
use crate::factory_gen::canvas::{Canvas, BANK_LINES, CABLE_FEEDS, LINE_H, SHARED_LINES};
use crate::factory_gen::choices;
use crate::factory_gen::lesson;
use crate::factory_gen::placing;
use crate::factory_gen::templates;
use crate::sim;
use crate::throughput;
use crate::throughput::delivery;
use crate::world::grid;
use crate::world::grid::GridView;
use crate::world::{Cell, Direction, Item, Misc};

verus! {

broadcast use {grid::lemma_slot, grid::lemma_put_at, grid::lemma_blank_at, grid::lemma_block_at};

/// An entity that stands on one of a list of tiles is among the entities on them.
pub proof fn lemma_entity_on(
    g: GridView,
    from: (int, int),
    tiles: Seq<(int, int)>,
    i: int,
    a: (int, int),
)
    requires
        0 <= i < tiles.len(),
        g.anchor_of(tiles[i].0, tiles[i].1) == Some(a),
        a != from,
    ensures
        sim::entities_on(g, from, tiles).contains(a),
    decreases tiles.len(),
{
    let rest = sim::entities_on(g, from, tiles.drop_last());
    let all = sim::entities_on(g, from, tiles);
    if i == tiles.len() - 1 {
        if !rest.contains(a) {
            assert(all[rest.len() as int] == a);
        } else {
            assert(all[rest.index_of(a)] == a);
        }
    } else {
        assert(tiles.drop_last()[i] == tiles[i]);
        lemma_entity_on(g, from, tiles.drop_last(), i, a);
        assert(all[rest.index_of(a)] == a);
    }
}

/// A tile of a list that is on the board is among those on the board.
pub proof fn lemma_kept_on_board(g: GridView, tiles: Seq<(int, int)>, i: int)
    requires
        0 <= i < tiles.len(),
        g.inside(tiles[i].0, tiles[i].1),
    ensures
        g.on_board(tiles).contains(tiles[i]),
    decreases tiles.len(),
{
    let rest = g.on_board(tiles.drop_last());
    let all = g.on_board(tiles);
    if i == tiles.len() - 1 {
        assert(all[rest.len() as int] == tiles[i]);
    } else {
        assert(tiles.drop_last()[i] == tiles[i]);
        lemma_kept_on_board(g, tiles.drop_last(), i);
        assert(all[rest.index_of(tiles[i])] == tiles[i]);
    }
}

/// A belt or an inserter pushes into whatever stands on the tile it faces.
pub proof fn lemma_pushes_ahead(g: GridView, p: (int, int), q: (int, int))
    requires
        ({
            let e = g.at(p.0, p.1).entity;
            let d = g.at(p.0, p.1).direction;
            let t = (p.0 + d.dx(), p.1 + d.dy());
            &&& e is TransportBelt || e is Inserter
            &&& g.inside(t.0, t.1)
            &&& g.anchor_of(t.0, t.1) == Some(q)
        }),
        q != p,
    ensures
        sim::targets(g, p.0, p.1).contains(q),
{
    lemma_entity_on(g, p, sim::offers(g, p.0, p.1), 0, q);
}

/// A source or a machine offers to whatever stands on the `k`-th tile around it.
pub proof fn lemma_offers_around(g: GridView, p: (int, int), k: int, q: (int, int))
    requires
        g.at(p.0, p.1).entity is Source || g.at(p.0, p.1).entity is Assembler,
        0 <= k < g.ring(p.0, p.1).len(),
        g.inside(g.ring(p.0, p.1)[k].0, g.ring(p.0, p.1)[k].1),
        g.anchor_of(g.ring(p.0, p.1)[k].0, g.ring(p.0, p.1)[k].1) == Some(q),
        q != p,
    ensures
        sim::targets(g, p.0, p.1).contains(q),
{
    let ring = g.ring(p.0, p.1);
    let slots = g.on_board(ring);
    lemma_kept_on_board(g, ring, k);
    let i = slots.index_of(ring[k]);
    assert(slots[i] == ring[k]);
    lemma_entity_on(g, p, slots, i, q);
}

/// An entity that is among those on a list of tiles stands on one of them.
pub proof fn lemma_stands_on(
    g: GridView,
    from: (int, int),
    tiles: Seq<(int, int)>,
    a: (int, int),
)
    requires
        sim::entities_on(g, from, tiles).contains(a),
    ensures
        exists|i: int|
            0 <= i < tiles.len() && g.anchor_of((#[trigger] tiles[i]).0, tiles[i].1) == Some(a),
    decreases tiles.len(),
{
    if tiles.len() > 0 {
        let rest = sim::entities_on(g, from, tiles.drop_last());
        let all = sim::entities_on(g, from, tiles);
        let k = all.index_of(a);
        if k < rest.len() {
            assert(rest[k] == a);
            lemma_stands_on(g, from, tiles.drop_last(), a);
            let i = choose|i: int|
                0 <= i < tiles.drop_last().len() && g.anchor_of(
                    (#[trigger] tiles.drop_last()[i]).0,
                    tiles.drop_last()[i].1,
                ) == Some(a);
            assert(tiles[i] == tiles.drop_last()[i]);
        } else {
            assert(tiles[tiles.len() - 1] == tiles.last());
        }
    }
}

/// An entity is not among those it pushes into.
pub proof fn lemma_not_itself(
    g: GridView,
    from: (int, int),
    tiles: Seq<(int, int)>,
    a: (int, int),
)
    requires
        sim::entities_on(g, from, tiles).contains(a),
    ensures
        a != from,
    decreases tiles.len(),
{
    if tiles.len() > 0 {
        let rest = sim::entities_on(g, from, tiles.drop_last());
        let all = sim::entities_on(g, from, tiles);
        let k = all.index_of(a);
        if k < rest.len() {
            assert(rest[k] == a);
            lemma_not_itself(g, from, tiles.drop_last(), a);
        }
    }
}

/// A tile that is listed among those on the board is one of the list.
pub proof fn lemma_from_board(g: GridView, tiles: Seq<(int, int)>, t: (int, int))
    requires
        g.on_board(tiles).contains(t),
    ensures
        tiles.contains(t),
    decreases tiles.len(),
{
    if tiles.len() > 0 {
        let rest = g.on_board(tiles.drop_last());
        let all = g.on_board(tiles);
        let k = all.index_of(t);
        if k < rest.len() {
            assert(rest[k] == t);
            lemma_from_board(g, tiles.drop_last(), t);
            let i = tiles.drop_last().index_of(t);
            assert(tiles[i] == t);
        } else {
            assert(tiles[tiles.len() - 1] == t);
        }
    }
}

/// A conveyor takes from an entity that stands on none of the tiles it offers to.
proof fn lemma_conveyor_takes(g: GridView, p: (int, int), q: (int, int))
    requires
        ({
            let e = g.at(q.0, q.1).entity;
            e is TransportBelt || e is UndergroundBelt || e is Splitter
        }),
        forall|i: int|
            0 <= i < sim::offers(g, q.0, q.1).len() ==> g.anchor_of(
                (#[trigger] sim::offers(g, q.0, q.1)[i]).0,
                sim::offers(g, q.0, q.1)[i].1,
            ) != Some(p),
    ensures
        throughput::takes(g, q, p),
{
    if sim::targets(g, q.0, q.1).contains(p) {
        lemma_stands_on(g, q, sim::offers(g, q.0, q.1), p);
    }
}

/// A belt takes from anything that does not stand ahead of it, other than from an
/// inserter that picks up from it.
pub proof fn lemma_belt_takes(g: GridView, p: (int, int), q: (int, int))
    requires
        g.at(q.0, q.1).entity is TransportBelt,
        ({
            let d = g.at(q.0, q.1).direction;
            g.anchor_of(q.0 + d.dx(), q.1 + d.dy()) != Some(p)
        }),
        g.at(p.0, p.1).entity is Inserter ==> {
            let d = g.at(p.0, p.1).direction;
            q == (p.0 + d.dx(), p.1 + d.dy())
        },
        p != q,
    ensures
        throughput::takes(g, q, p),
{
    let offers = sim::offers(g, q.0, q.1);
    let ahead = sim::ahead(g, q.0, q.1, g.at(q.0, q.1).direction);
    let n = sim::tap(g, q.0, q.1, Direction::North);
    let e = sim::tap(g, q.0, q.1, Direction::East);
    let s = sim::tap(g, q.0, q.1, Direction::South);
    let w = sim::tap(g, q.0, q.1, Direction::West);
    assert(offers == ahead + (n + e + s + w));
    assert forall|i: int| 0 <= i < offers.len() implies g.anchor_of(
        (#[trigger] offers[i]).0,
        offers[i].1,
    ) != Some(p) by {
        if i >= ahead.len() {
            let t = offers[i];
            assert(g.at(t.0, t.1).entity is Inserter);
        }
    }
    lemma_conveyor_takes(g, p, q);
}

/// What an entity hands on is received by every conveyor that it pushes into and that
/// takes it.
pub proof fn lemma_carry(g: GridView, p: (int, int), q: (int, int), item: Item)
    requires
        g.inside(p.0, p.1),
        sim::hands_on(g, delivery::received(g), p.0, p.1, item),
        sim::targets(g, p.0, p.1).contains(q),
        sim::conveys(g.at(q.0, q.1).entity),
        throughput::takes(g, q, p),
    ensures
        delivery::received(g).contains((q.0, q.1, item)),
{
    delivery::lemma_received(g, p, q, item);
}

/// A belt or inserter carries what arrived at it one entity further.
pub proof fn lemma_pass(g: GridView, p: (int, int), q: (int, int), item: Item)
    requires
        g.inside(p.0, p.1),
        delivery::received(g).contains((p.0, p.1, item)),
        ({
            let e = g.at(p.0, p.1).entity;
            let d = g.at(p.0, p.1).direction;
            let t = (p.0 + d.dx(), p.1 + d.dy());
            &&& e is TransportBelt || e is Inserter
            &&& g.inside(t.0, t.1)
            &&& g.anchor_of(t.0, t.1) == Some(q)
        }),
        q != p,
        sim::conveys(g.at(q.0, q.1).entity),
        throughput::takes(g, q, p),
    ensures
        delivery::received(g).contains((q.0, q.1, item)),
{
    lemma_pushes_ahead(g, p, q);
    lemma_carry(g, p, q, item);
}

/// A belt or inserter that faces a sink which accepts what arrived feeds the
/// sink.
pub proof fn lemma_last_step(g: GridView, p: (int, int), q: (int, int), item: Item)
    requires
        g.inside(p.0, p.1),
        delivery::received(g).contains((p.0, p.1, item)),
        ({
            let e = g.at(p.0, p.1).entity;
            let d = g.at(p.0, p.1).direction;
            &&& e is TransportBelt || e is Inserter
            &&& q == (p.0 + d.dx(), p.1 + d.dy())
        }),
        g.inside(q.0, q.1),
        q != p,
        g.at(q.0, q.1).entity is Sink,
        sim::accepts(g.at(q.0, q.1).item, item),
    ensures
        delivery::feeds_a_sink(g),
{
    assert(g.anchor_of(q.0, q.1) == Some(q));
    lemma_pushes_ahead(g, p, q);
    assert(delivery::supplies(g, p, q, item));
}

/// A machine to which its only ingredient arrives hands its product on.
pub proof fn lemma_craft_one(g: GridView, p: (int, int))
    requires
        g.at(p.0, p.1).entity is Assembler,
        g.at(p.0, p.1).item.inputs().len() == 1,
        delivery::received(g).contains((p.0, p.1, g.at(p.0, p.1).item.inputs()[0].item)),
    ensures
        sim::hands_on(g, delivery::received(g), p.0, p.1, g.at(p.0, p.1).item),
{
}

/// A tile under a machine of a well-formed factory is traced back to the machine.
pub proof fn lemma_under_machine(g: GridView, a: (int, int), x: int, y: int)
    requires
        g.consistent(),
        g.inside(a.0, a.1),
        g.at(a.0, a.1).entity is Assembler,
        a.0 <= x < a.0 + 3,
        a.1 <= y < a.1 + 3,
    ensures
        g.inside(x, y),
        g.anchor_of(x, y) == Some(a),
{
    reveal(GridView::consistent);
    assert(g.covers(a.0, a.1, x, y));
    grid::law_anchor_is_unique_on_legal_ground(g, a.0, a.1, x, y);
}

/// Source, inserter, machine, inserter, sink in a row: the machine's anchor is one row
/// up. Such a row works wherever it stands.
proof fn lemma_row_works(g: GridView, x0: int, y: int, recipe: Item)
    requires
        g.valid(),
        g.consistent(),
        0 <= x0 && x0 + 7 <= g.width,
        1 <= y && y + 2 <= g.height,
        recipe.inputs().len() == 1,
        g.at(x0, y) == placing::source_cell(recipe.inputs()[0].item),
        g.at(x0 + 1, y) == placing::inserter_cell(Direction::East),
        g.at(x0 + 2, y - 1) == placing::machine_cell(recipe),
        g.at(x0 + 5, y) == placing::inserter_cell(Direction::East),
        g.at(x0 + 6, y) == placing::sink_cell(recipe),
    ensures
        delivery::feeds_a_sink(g),
{
    let input = recipe.inputs()[0].item;
    let m = (x0 + 2, y - 1);
    assert(g.ring(x0, y)[1] == (x0 + 1, y));
    lemma_offers_around(g, (x0, y), 1, (x0 + 1, y));
    lemma_carry(g, (x0, y), (x0 + 1, y), input);
    lemma_under_machine(g, m, x0 + 2, y);
    lemma_pass(g, (x0 + 1, y), m, input);
    lemma_craft_one(g, m);
    assert(g.ring(m.0, m.1)[4] == (x0 + 5, y));
    lemma_offers_around(g, m, 4, (x0 + 5, y));
    lemma_under_machine(g, m, x0 + 4, y);
    lemma_carry(g, m, (x0 + 5, y), recipe);
    lemma_last_step(g, (x0 + 5, y), (x0 + 6, y), recipe);
}

/// A crafting line works.
pub proof fn lemma_line_works(canvas: Canvas, x0: int, y0: int, recipe: Item)
    requires
        canvas.holdable(),
        0 <= x0 && x0 + 7 <= canvas.width,
        0 <= y0 && y0 + 3 <= canvas.height,
        recipe.inputs().len() == 1,
        templates::line_grid(canvas, x0, y0, recipe).consistent(),
    ensures
        delivery::feeds_a_sink(templates::line_grid(canvas, x0, y0, recipe)),
{
    lemma_row_works(templates::line_grid(canvas, x0, y0, recipe), x0, y0 + 1, recipe);
}

/// Whether `inputs` are the ingredients of a recipe in some order.
pub open spec fn feeds(recipe: Item, inputs: Seq<Item>) -> bool {
    match recipe {
        Item::IronGear => inputs == seq![Item::IronPlate],
        Item::CopperCable => inputs == seq![Item::CopperPlate],
        Item::GreenCircuit => inputs == seq![Item::IronPlate, Item::CopperCable] || inputs == seq![
            Item::CopperCable,
            Item::IronPlate,
        ],
        _ => false,
    }
}

/// The tiles of a direct recipe that its flow goes through.
pub open spec fn direct_tiles(
    g: GridView,
    x0: int,
    y0: int,
    recipe: Item,
    inputs: Seq<Item>,
) -> bool {
    let hand = placing::inserter_cell(Direction::East);
    &&& g.valid()
    &&& 0 <= x0 && x0 + 7 <= g.width
    &&& 0 <= y0 && y0 + 5 <= g.height
    &&& g.at(x0, y0 + 3) == placing::source_cell(inputs[0])
    &&& g.at(x0 + 1, y0 + 3) == hand
    &&& g.at(x0 + 2, y0 + 2) == placing::machine_cell(recipe)
    &&& g.at(x0 + 5, y0 + 3) == hand
    &&& g.at(x0 + 6, y0 + 3) == placing::sink_cell(recipe)
    &&& inputs.len() > 1 ==> {
        &&& g.at(x0 + 3, y0) == placing::source_cell(inputs[1])
        &&& g.at(x0 + 3, y0 + 1) == placing::inserter_cell(Direction::South)
    }
}

/// The ingredients of a direct recipe reach its machine.
proof fn lemma_direct_feeds(g: GridView, x0: int, y0: int, recipe: Item, inputs: Seq<Item>)
    requires
        direct_tiles(g, x0, y0, recipe, inputs),
        g.consistent(),
        feeds(recipe, inputs),
    ensures
        delivery::received(g).contains((x0 + 2, y0 + 2, inputs[0])),
        inputs.len() > 1 ==> delivery::received(g).contains((x0 + 2, y0 + 2, inputs[1])),
{
    let m = (x0 + 2, y0 + 2);
    let y = y0 + 3;
    assert(g.ring(x0, y)[1] == (x0 + 1, y));
    lemma_offers_around(g, (x0, y), 1, (x0 + 1, y));
    lemma_carry(g, (x0, y), (x0 + 1, y), inputs[0]);
    lemma_under_machine(g, m, x0 + 2, y);
    lemma_pass(g, (x0 + 1, y), m, inputs[0]);
    if inputs.len() > 1 {
        let s = (x0 + 3, y0);
        assert(g.ring(s.0, s.1)[2] == (x0 + 3, y0 + 1));
        lemma_offers_around(g, s, 2, (x0 + 3, y0 + 1));
        lemma_carry(g, s, (x0 + 3, y0 + 1), inputs[1]);
        lemma_under_machine(g, m, x0 + 3, y0 + 2);
        lemma_pass(g, (x0 + 3, y0 + 1), m, inputs[1]);
    }
}

/// Fed by every ingredient, the machine of a direct recipe supplies the sink.
proof fn lemma_direct_delivers(g: GridView, x0: int, y0: int, recipe: Item, inputs: Seq<Item>)
    requires
        direct_tiles(g, x0, y0, recipe, inputs),
        g.consistent(),
        feeds(recipe, inputs),
        delivery::received(g).contains((x0 + 2, y0 + 2, inputs[0])),
        inputs.len() > 1 ==> delivery::received(g).contains((x0 + 2, y0 + 2, inputs[1])),
    ensures
        delivery::feeds_a_sink(g),
{
    let m = (x0 + 2, y0 + 2);
    let y = y0 + 3;
    assert forall|k: int| 0 <= k < recipe.inputs().len() implies delivery::received(g).contains(
        (m.0, m.1, (#[trigger] recipe.inputs()[k]).item),
    ) by {}
    assert(sim::hands_on(g, delivery::received(g), m.0, m.1, recipe));
    assert(g.ring(m.0, m.1)[4] == (x0 + 5, y));
    lemma_offers_around(g, m, 4, (x0 + 5, y));
    lemma_under_machine(g, m, x0 + 4, y);
    lemma_carry(g, m, (x0 + 5, y), recipe);
    lemma_last_step(g, (x0 + 5, y), (x0 + 6, y), recipe);
}

/// A direct recipe works, whichever way its ingredients are fed.
pub proof fn lemma_direct_works(canvas: Canvas, x0: int, y0: int, recipe: Item, inputs: Seq<Item>)
    requires
        canvas.holdable(),
        0 <= x0 && x0 + 7 <= canvas.width,
        0 <= y0 && y0 + 5 <= canvas.height,
        feeds(recipe, inputs),
        templates::direct_grid(canvas, x0, y0, recipe, inputs).consistent(),
    ensures
        delivery::feeds_a_sink(templates::direct_grid(canvas, x0, y0, recipe, inputs)),
{
    let g = templates::direct_grid(canvas, x0, y0, recipe, inputs);
    assert(direct_tiles(g, x0, y0, recipe, inputs));
    lemma_direct_feeds(g, x0, y0, recipe, inputs);
    lemma_direct_delivers(g, x0, y0, recipe, inputs);
}

/// A tunnel under a wall works.
pub proof fn lemma_cross_works(canvas: Canvas, x0: int, y: int, item: Item)
    requires
        canvas.holdable(),
        0 <= x0 && x0 + 7 <= canvas.width,
        0 <= y < canvas.height,
    ensures
        delivery::feeds_a_sink(templates::cross_grid(canvas, x0, y, item)),
{
    let g = templates::cross_grid(canvas, x0, y, item);
    let down = (x0 + 2, y);
    let up = (x0 + 4, y);
    assert(g.ring(x0, y)[1] == (x0 + 1, y));
    lemma_offers_around(g, (x0, y), 1, (x0 + 1, y));
    lemma_belt_takes(g, (x0, y), (x0 + 1, y));
    lemma_carry(g, (x0, y), (x0 + 1, y), item);
    let e = Direction::East;
    assert(sim::tunnel_exit(g, down.0, down.1, e, 1) == seq![up]) by {
        reveal_with_fuel(sim::tunnel_exit, 3);
        assert(g.at(x0 + 3, y).entity is Empty);
        assert(g.at(x0 + 4, y) == placing::tunnel_cell(e, Misc::UndergroundUp));
    }
    lemma_conveyor_takes(g, (x0 + 1, y), down);
    lemma_pass(g, (x0 + 1, y), down, item);
    lemma_entity_on(g, down, sim::offers(g, down.0, down.1), 0, up);
    assert(sim::offers(g, up.0, up.1) == seq![(x0 + 5, y)]);
    lemma_conveyor_takes(g, down, up);
    lemma_carry(g, down, up, item);
    lemma_entity_on(g, up, sim::offers(g, up.0, up.1), 0, (x0 + 5, y));
    lemma_belt_takes(g, up, (x0 + 5, y));
    lemma_carry(g, up, (x0 + 5, y), item);
    lemma_last_step(g, (x0 + 5, y), (x0 + 6, y), item);
}

/// A column of belts changes its own tiles only.
pub proof fn lemma_column_at(g: GridView, x: int, from: int, end: int, a: int, b: int)
    requires
        g.valid(),
        0 <= x < g.width,
        0 <= from,
        end <= g.height,
        g.inside(a, b),
    ensures
        choices::south_column(g, x, from, end).valid(),
        choices::south_column(g, x, from, end).width == g.width,
        choices::south_column(g, x, from, end).height == g.height,
        choices::south_column(g, x, from, end).obstacle == g.obstacle,
        choices::south_column(g, x, from, end).at(a, b) == (if a == x && from <= b < end {
            Cell::belt_cell(Direction::South)
        } else {
            g.at(a, b)
        }),
    decreases end - from,
{
    if end > from {
        lemma_column_at(g, x, from, end - 1, a, b);
    }
}

/// The lines of a bank change the columns between its sources and its sink only, and
/// add no source or sink.
pub proof fn lemma_bank_lines_at(
    g: GridView,
    x0: int,
    y0: int,
    recipe: Item,
    first: int,
    end: int,
    a: int,
    b: int,
)
    requires
        g.valid(),
        0 <= x0 && x0 + 7 <= g.width,
        0 <= y0 && y0 + 9 <= g.height,
        0 <= first,
        end <= BANK_LINES,
        g.inside(a, b),
    ensures
        choices::bank_lines(g, x0, y0, recipe, first, end).valid(),
        choices::bank_lines(g, x0, y0, recipe, first, end).width == g.width,
        choices::bank_lines(g, x0, y0, recipe, first, end).height == g.height,
        choices::bank_lines(g, x0, y0, recipe, first, end).obstacle == g.obstacle,
        !(x0 + 1 <= a <= x0 + 5 && y0 <= b < y0 + 9) ==> choices::bank_lines(
            g,
            x0,
            y0,
            recipe,
            first,
            end,
        ).at(a, b) == g.at(a, b),
        !lesson::is_port(g.at(a, b)) ==> !lesson::is_port(
            choices::bank_lines(g, x0, y0, recipe, first, end).at(a, b),
        ),
    decreases end - first,
{
    if end > first {
        lemma_bank_lines_at(g, x0, y0, recipe, first, end - 1, a, b);
    }
}

/// A bank works, however many of its lines are built.
pub proof fn lemma_bank_works(canvas: Canvas, x0: int, y0: int, recipe: Item, lines: int)
    requires
        canvas.holdable(),
        0 <= x0 && x0 + 7 <= canvas.width,
        0 <= y0 && y0 + 9 <= canvas.height,
        recipe.inputs().len() == 1,
        1 <= lines <= BANK_LINES,
        choices::bank_grid(canvas, x0, y0, recipe, lines).consistent(),
    ensures
        delivery::feeds_a_sink(choices::bank_grid(canvas, x0, y0, recipe, lines)),
{
    let ports = choices::bank_ports(canvas, x0, y0, recipe);
    let first = BANK_LINES - lines;
    let upper = choices::bank_lines(ports, x0, y0, recipe, first, 2);
    let built = choices::bank_lines(ports, x0, y0, recipe, first, 3);
    let g = choices::bank_grid(canvas, x0, y0, recipe, lines);
    let y = y0 + 7;
    lemma_bank_lines_at(ports, x0, y0, recipe, first, 2, x0, y);
    lemma_bank_lines_at(ports, x0, y0, recipe, first, 2, x0 + 6, y);
    let from = y0 + LINE_H * first + 1;
    lemma_column_at(built, x0 + 6, from, y, x0, y);
    lemma_column_at(built, x0 + 6, from, y, x0 + 1, y);
    lemma_column_at(built, x0 + 6, from, y, x0 + 2, y - 1);
    lemma_column_at(built, x0 + 6, from, y, x0 + 5, y);
    lemma_column_at(built, x0 + 6, from, y, x0 + 6, y);
    lemma_row_works(g, x0, y, recipe);
}

/// The cable inserters change their own tiles only.
pub proof fn lemma_feeds_at(g: GridView, x0: int, y0: int, n: int, a: int, b: int)
    requires
        g.valid(),
        0 <= x0 && x0 + 11 <= g.width,
        0 <= y0 && y0 + 5 <= g.height,
        n <= CABLE_FEEDS,
        g.inside(a, b),
    ensures
        choices::cable_feeds(g, x0, y0, n).valid(),
        choices::cable_feeds(g, x0, y0, n).width == g.width,
        choices::cable_feeds(g, x0, y0, n).height == g.height,
        choices::cable_feeds(g, x0, y0, n).obstacle == g.obstacle,
        choices::cable_feeds(g, x0, y0, n).at(a, b) == (if a == x0 + 5 && y0 + 2 <= b < y0 + 2 + n {
            placing::inserter_cell(Direction::East)
        } else {
            g.at(a, b)
        }),
    decreases n,
{
    if n > 0 {
        lemma_feeds_at(g, x0, y0, n - 1, a, b);
    }
}

/// The tiles of a circuit line that its flow goes through.
pub open spec fn circuit_tiles(g: GridView, x0: int, y0: int) -> bool {
    let hand = placing::inserter_cell(Direction::East);
    &&& g.valid()
    &&& 0 <= x0 && x0 + 11 <= g.width
    &&& 0 <= y0 && y0 + 5 <= g.height
    &&& g.at(x0, y0 + 3) == placing::source_cell(Item::CopperPlate)
    &&& g.at(x0 + 1, y0 + 3) == hand
    &&& g.at(x0 + 2, y0 + 2) == placing::machine_cell(Item::CopperCable)
    &&& g.at(x0 + 5, y0 + 2) == hand
    &&& g.at(x0 + 6, y0) == placing::source_cell(Item::IronPlate)
    &&& g.at(x0 + 6, y0 + 1) == placing::inserter_cell(Direction::South)
    &&& g.at(x0 + 6, y0 + 2) == placing::machine_cell(Item::GreenCircuit)
    &&& g.at(x0 + 9, y0 + 3) == hand
    &&& g.at(x0 + 10, y0 + 3) == placing::sink_cell(Item::GreenCircuit)
}

/// Copper plates become cable, and the cable reaches the circuit machine.
proof fn lemma_cable_reaches_circuit(g: GridView, x0: int, y0: int)
    requires
        circuit_tiles(g, x0, y0),
        g.consistent(),
    ensures
        delivery::received(g).contains((x0 + 6, y0 + 2, Item::CopperCable)),
{
    let y = y0 + 3;
    let cable = (x0 + 2, y0 + 2);
    let circuit = (x0 + 6, y0 + 2);
    let wire = Item::CopperCable;
    assert(g.ring(x0, y)[1] == (x0 + 1, y));
    lemma_offers_around(g, (x0, y), 1, (x0 + 1, y));
    lemma_carry(g, (x0, y), (x0 + 1, y), Item::CopperPlate);
    lemma_under_machine(g, cable, x0 + 2, y);
    lemma_pass(g, (x0 + 1, y), cable, Item::CopperPlate);
    lemma_craft_one(g, cable);
    assert(g.ring(cable.0, cable.1)[3] == (x0 + 5, y0 + 2));
    lemma_offers_around(g, cable, 3, (x0 + 5, y0 + 2));
    lemma_under_machine(g, cable, x0 + 4, y0 + 2);
    lemma_carry(g, cable, (x0 + 5, y0 + 2), wire);
    lemma_under_machine(g, circuit, x0 + 6, y0 + 2);
    lemma_pass(g, (x0 + 5, y0 + 2), circuit, wire);
}

/// Iron plates reach the circuit machine.
proof fn lemma_plate_reaches_circuit(g: GridView, x0: int, y0: int)
    requires
        circuit_tiles(g, x0, y0),
        g.consistent(),
    ensures
        delivery::received(g).contains((x0 + 6, y0 + 2, Item::IronPlate)),
{
    let circuit = (x0 + 6, y0 + 2);
    lemma_under_machine(g, circuit, x0 + 6, y0 + 2);
    assert(g.ring(x0 + 6, y0)[2] == (x0 + 6, y0 + 1));
    lemma_offers_around(g, (x0 + 6, y0), 2, (x0 + 6, y0 + 1));
    lemma_carry(g, (x0 + 6, y0), (x0 + 6, y0 + 1), Item::IronPlate);
    lemma_pass(g, (x0 + 6, y0 + 1), circuit, Item::IronPlate);
}

/// With both ingredients at the circuit machine the circuit reaches the sink.
proof fn lemma_circuit_reaches_sink(g: GridView, x0: int, y0: int)
    requires
        circuit_tiles(g, x0, y0),
        g.consistent(),
        delivery::received(g).contains((x0 + 6, y0 + 2, Item::CopperCable)),
        delivery::received(g).contains((x0 + 6, y0 + 2, Item::IronPlate)),
    ensures
        delivery::feeds_a_sink(g),
{
    let y = y0 + 3;
    let circuit = (x0 + 6, y0 + 2);
    let product = Item::GreenCircuit;
    assert forall|k: int| 0 <= k < product.inputs().len() implies delivery::received(g).contains(
        (circuit.0, circuit.1, (#[trigger] product.inputs()[k]).item),
    ) by {}
    assert(sim::hands_on(g, delivery::received(g), circuit.0, circuit.1, product));
    assert(g.ring(circuit.0, circuit.1)[4] == (x0 + 9, y));
    lemma_offers_around(g, circuit, 4, (x0 + 9, y));
    lemma_under_machine(g, circuit, x0 + 8, y);
    lemma_carry(g, circuit, (x0 + 9, y), product);
    lemma_last_step(g, (x0 + 9, y), (x0 + 10, y), product);
}

/// A circuit line works, however many cable inserters it has.
pub proof fn lemma_circuit_works(canvas: Canvas, x0: int, y0: int, feeds: int)
    requires
        canvas.holdable(),
        0 <= x0 && x0 + 11 <= canvas.width,
        0 <= y0 && y0 + 5 <= canvas.height,
        1 <= feeds <= CABLE_FEEDS,
        choices::circuit_grid(canvas, x0, y0, feeds).consistent(),
    ensures
        delivery::feeds_a_sink(choices::circuit_grid(canvas, x0, y0, feeds)),
{
    let frame = choices::circuit_frame(canvas, x0, y0);
    let g = choices::circuit_grid(canvas, x0, y0, feeds);
    let y = y0 + 3;
    assert(circuit_tiles(g, x0, y0)) by {
        lemma_feeds_at(frame, x0, y0, feeds, x0, y);
        lemma_feeds_at(frame, x0, y0, feeds, x0 + 1, y);
        lemma_feeds_at(frame, x0, y0, feeds, x0 + 2, y0 + 2);
        lemma_feeds_at(frame, x0, y0, feeds, x0 + 5, y0 + 2);
        lemma_feeds_at(frame, x0, y0, feeds, x0 + 6, y0);
        lemma_feeds_at(frame, x0, y0, feeds, x0 + 6, y0 + 1);
        lemma_feeds_at(frame, x0, y0, feeds, x0 + 6, y0 + 2);
        lemma_feeds_at(frame, x0, y0, feeds, x0 + 9, y);
        lemma_feeds_at(frame, x0, y0, feeds, x0 + 10, y);
    }
    lemma_cable_reaches_circuit(g, x0, y0);
    lemma_plate_reaches_circuit(g, x0, y0);
    lemma_circuit_reaches_sink(g, x0, y0);
}

/// One branch of a shared line changes its own tiles only.
proof fn lemma_branch_at(g: GridView, x0: int, y: int, recipe: Item, a: int, b: int)
    requires
        g.valid(),
        0 <= x0 && x0 + 11 <= g.width,
        0 <= y < g.height,
        g.inside(a, b),
    ensures
        ({
            let c = choices::shared_branch(g, x0, y, recipe);
            &&& c.valid()
            &&& c.width == g.width
            &&& c.height == g.height
            &&& c.at(a, b) == (if b == y && (a == x0 + 3 || a == x0 + 9) {
                Cell::belt_cell(Direction::East)
            } else if b == y && (a == x0 + 4 || a == x0 + 8) {
                placing::inserter_cell(Direction::East)
            } else if b == y && a == x0 + 5 {
                placing::machine_cell(recipe)
            } else {
                g.at(a, b)
            })
        }),
{
}

/// The head of a shared line on the row of its source.
proof fn lemma_head_at(canvas: Canvas, x0: int, y0: int, recipe: Item, branches: int)
    requires
        canvas.holdable(),
        0 <= x0 && x0 + 11 <= canvas.width,
        0 <= y0 && y0 + 7 <= canvas.height,
    ensures
        ({
            let ports = choices::shared_ports(canvas, x0, y0, recipe);
            let c = choices::shared_head(ports, x0, y0, branches);
            &&& c.valid()
            &&& c.width == canvas.width
            &&& c.height == canvas.height
            &&& c.at(x0, y0) == placing::source_cell(recipe.inputs()[0].item)
            &&& c.at(x0 + 1, y0) == Cell::belt_cell(Direction::East)
            &&& c.at(x0 + 2, y0) == (if branches > 1 {
                placing::splitter_cell(Direction::East)
            } else {
                Cell::belt_cell(Direction::East)
            })
            &&& c.at(x0 + 10, y0 + 4) == placing::sink_cell(recipe)
        }),
{
}

/// A tile of a shared line before the belts that collect the output are laid.
proof fn lemma_branches_at(
    head: GridView,
    x0: int,
    y0: int,
    recipe: Item,
    branches: int,
    a: int,
    b: int,
)
    requires
        head.valid(),
        0 <= x0 && x0 + 11 <= head.width,
        0 <= y0 && y0 + 7 <= head.height,
        head.inside(a, b),
        b == y0 || a == x0 + 10,
    ensures
        ({
            let upper = choices::shared_branch(head, x0, y0, recipe);
            let both = if branches > 1 {
                choices::shared_branch(upper, x0, y0 + 4, recipe)
            } else {
                upper
            };
            &&& both.valid()
            &&& both.width == head.width
            &&& both.height == head.height
            &&& both.at(a, b) == upper.at(a, b)
        }),
{
    let upper = choices::shared_branch(head, x0, y0, recipe);
    lemma_branch_at(head, x0, y0, recipe, a, b);
    lemma_branch_at(upper, x0, y0 + 4, recipe, a, b);
}

/// What is stored on a tile of the row of a shared line on which its source stands, or of
/// the column of belts that collect the output.
spec fn shared_cell(x0: int, y0: int, recipe: Item, branches: int, a: int, b: int) -> Cell {
    if a == x0 {
        placing::source_cell(recipe.inputs()[0].item)
    } else if a == x0 + 2 && branches > 1 {
        placing::splitter_cell(Direction::East)
    } else if a == x0 + 4 || a == x0 + 8 {
        placing::inserter_cell(Direction::East)
    } else if a == x0 + 5 {
        placing::machine_cell(recipe)
    } else if a == x0 + 10 && b == y0 + 4 {
        placing::sink_cell(recipe)
    } else if a == x0 + 10 {
        Cell::belt_cell(Direction::South)
    } else {
        Cell::belt_cell(Direction::East)
    }
}

proof fn lemma_shared_tile(
    canvas: Canvas,
    x0: int,
    y0: int,
    recipe: Item,
    branches: int,
    a: int,
    b: int,
)
    requires
        canvas.holdable(),
        0 <= x0 && x0 + 11 <= canvas.width,
        0 <= y0 && y0 + 7 <= canvas.height,
        1 <= branches <= SHARED_LINES,
        b == y0 && (x0 <= a <= x0 + 5 || x0 + 8 <= a <= x0 + 9) || a == x0 + 10 && y0 <= b <= y0 + 4,
    ensures
        ({
            let g = choices::shared_grid(canvas, x0, y0, recipe, branches);
            &&& g.valid()
            &&& g.width == canvas.width
            &&& g.height == canvas.height
            &&& g.at(a, b) == shared_cell(x0, y0, recipe, branches, a, b)
        }),
{
    let ports = choices::shared_ports(canvas, x0, y0, recipe);
    let head = choices::shared_head(ports, x0, y0, branches);
    let upper = choices::shared_branch(head, x0, y0, recipe);
    let both = if branches > 1 {
        choices::shared_branch(upper, x0, y0 + 4, recipe)
    } else {
        upper
    };
    lemma_head_at(canvas, x0, y0, recipe, branches);
    lemma_branch_at(head, x0, y0, recipe, a, b);
    lemma_branches_at(head, x0, y0, recipe, branches, a, b);
    lemma_column_at(both, x0 + 10, y0, y0 + 4, a, b);
}

/// The row of a shared line on which its source stands, before and after the belts that
/// collect the output are laid.
pub proof fn lemma_shared_row(canvas: Canvas, x0: int, y0: int, recipe: Item, branches: int)
    requires
        canvas.holdable(),
        0 <= x0 && x0 + 11 <= canvas.width,
        0 <= y0 && y0 + 7 <= canvas.height,
        1 <= branches <= SHARED_LINES,
    ensures
        ({
            let g = choices::shared_grid(canvas, x0, y0, recipe, branches);
            let belt = Cell::belt_cell(Direction::East);
            let hand = placing::inserter_cell(Direction::East);
            &&& g.valid()
            &&& g.width == canvas.width
            &&& g.height == canvas.height
            &&& g.at(x0, y0) == placing::source_cell(recipe.inputs()[0].item)
            &&& g.at(x0 + 1, y0) == belt
            &&& g.at(x0 + 2, y0) == (if branches > 1 {
                placing::splitter_cell(Direction::East)
            } else {
                belt
            })
            &&& g.at(x0 + 3, y0) == belt
            &&& g.at(x0 + 4, y0) == hand
            &&& g.at(x0 + 5, y0) == placing::machine_cell(recipe)
            &&& g.at(x0 + 8, y0) == hand
            &&& g.at(x0 + 9, y0) == belt
            &&& g.at(x0 + 10, y0 + 4) == placing::sink_cell(recipe)
            &&& forall|b: int|
                y0 <= b < y0 + 4 ==> #[trigger] g.at(x0 + 10, b) == Cell::belt_cell(
                    Direction::South,
                )
        }),
{
    lemma_shared_tile(canvas, x0, y0, recipe, branches, x0, y0);
    lemma_shared_tile(canvas, x0, y0, recipe, branches, x0 + 1, y0);
    lemma_shared_tile(canvas, x0, y0, recipe, branches, x0 + 2, y0);
    lemma_shared_tile(canvas, x0, y0, recipe, branches, x0 + 3, y0);
    lemma_shared_tile(canvas, x0, y0, recipe, branches, x0 + 4, y0);
    lemma_shared_tile(canvas, x0, y0, recipe, branches, x0 + 5, y0);
    lemma_shared_tile(canvas, x0, y0, recipe, branches, x0 + 8, y0);
    lemma_shared_tile(canvas, x0, y0, recipe, branches, x0 + 9, y0);
    lemma_shared_tile(canvas, x0, y0, recipe, branches, x0 + 10, y0 + 4);
    let g = choices::shared_grid(canvas, x0, y0, recipe, branches);
    assert forall|b: int| y0 <= b < y0 + 4 implies #[trigger] g.at(x0 + 10, b) == Cell::belt_cell(
        Direction::South,
    ) by {
        lemma_shared_tile(canvas, x0, y0, recipe, branches, x0 + 10, b);
    }
}

/// A splitter facing east offers the tile in front of its upper half first.
proof fn lemma_splitter_offers(g: GridView, x: int, y: int)
    requires
        g.at(x, y) == placing::splitter_cell(Direction::East),
        g.inside(x + 1, y),
    ensures
        sim::offers(g, x, y).len() > 0,
        sim::offers(g, x, y)[0] == (x + 1, y),
        forall|i: int|
            0 <= i < sim::offers(g, x, y).len() ==> (#[trigger] sim::offers(g, x, y)[i]).0 == x + 1,
{
    let tiles = g.footprint_tiles(x, y);
    assert(g.extent_at(x, y) == (1int, 2int));
    assert(tiles =~= seq![(x, y), (x, y + 1)]);
    reveal_with_fuel(sim::ahead_of_all, 3);
    assert(sim::ahead_of_all(g, tiles, Direction::East, 1) =~= seq![(x + 1, y)]);
}

/// A belt stands on no tile but its own.
pub proof fn lemma_only_there(g: GridView, p: (int, int), t: (int, int))
    requires
        g.inside(t.0, t.1),
        g.extent_at(p.0, p.1) == (1int, 1int),
        t != p,
    ensures
        g.anchor_of(t.0, t.1) != Some(p),
{
    grid::lemma_anchor_of(g, t.0, t.1);
}

/// A splitter facing east takes from the belt behind its upper half.
proof fn lemma_splitter_takes(g: GridView, x: int, y: int)
    requires
        g.at(x, y) == placing::splitter_cell(Direction::East),
        g.inside(x + 1, y),
        g.at(x - 1, y).entity is TransportBelt,
    ensures
        throughput::takes(g, (x, y), (x - 1, y)),
{
    lemma_splitter_offers(g, x, y);
    sim::lemma_offers_inside(g, x, y);
    let offers = sim::offers(g, x, y);
    assert forall|i: int| 0 <= i < offers.len() implies g.anchor_of(
        (#[trigger] offers[i]).0,
        offers[i].1,
    ) != Some((x - 1, y)) by {
        lemma_only_there(g, (x - 1, y), offers[i]);
    }
    lemma_conveyor_takes(g, (x - 1, y), (x, y));
}

/// A shared line works, with one branch or with two.
pub proof fn lemma_shared_works(canvas: Canvas, x0: int, y0: int, recipe: Item, branches: int)
    requires
        canvas.holdable(),
        0 <= x0 && x0 + 11 <= canvas.width,
        0 <= y0 && y0 + 7 <= canvas.height,
        recipe.inputs().len() == 1,
        1 <= branches <= SHARED_LINES,
        choices::shared_grid(canvas, x0, y0, recipe, branches).consistent(),
    ensures
        delivery::feeds_a_sink(choices::shared_grid(canvas, x0, y0, recipe, branches)),
{
    let g = choices::shared_grid(canvas, x0, y0, recipe, branches);
    let input = recipe.inputs()[0].item;
    let m = (x0 + 5, y0);
    lemma_shared_row(canvas, x0, y0, recipe, branches);
    assert(g.ring(x0, y0)[1] == (x0 + 1, y0));
    lemma_offers_around(g, (x0, y0), 1, (x0 + 1, y0));
    lemma_belt_takes(g, (x0, y0), (x0 + 1, y0));
    lemma_carry(g, (x0, y0), (x0 + 1, y0), input);
    if branches > 1 {
        lemma_splitter_takes(g, x0 + 2, y0);
        lemma_pass(g, (x0 + 1, y0), (x0 + 2, y0), input);
        lemma_splitter_offers(g, x0 + 2, y0);
        lemma_entity_on(g, (x0 + 2, y0), sim::offers(g, x0 + 2, y0), 0, (x0 + 3, y0));
        lemma_belt_takes(g, (x0 + 2, y0), (x0 + 3, y0));
        lemma_carry(g, (x0 + 2, y0), (x0 + 3, y0), input);
    } else {
        lemma_belt_takes(g, (x0 + 1, y0), (x0 + 2, y0));
        lemma_pass(g, (x0 + 1, y0), (x0 + 2, y0), input);
        lemma_belt_takes(g, (x0 + 2, y0), (x0 + 3, y0));
        lemma_pass(g, (x0 + 2, y0), (x0 + 3, y0), input);
    }
    lemma_pass(g, (x0 + 3, y0), (x0 + 4, y0), input);
    lemma_pass(g, (x0 + 4, y0), m, input);
    lemma_craft_one(g, m);
    assert(g.ring(m.0, m.1)[3] == (x0 + 8, y0));
    lemma_offers_around(g, m, 3, (x0 + 8, y0));
    lemma_under_machine(g, m, x0 + 7, y0);
    lemma_carry(g, m, (x0 + 8, y0), recipe);
    assert(g.at(x0 + 10, y0).entity is TransportBelt);
    assert(g.at(x0 + 10, y0 + 1).entity is TransportBelt);
    assert(g.at(x0 + 10, y0 + 2).entity is TransportBelt);
    assert(g.at(x0 + 10, y0 + 3).entity is TransportBelt);
    lemma_belt_takes(g, (x0 + 8, y0), (x0 + 9, y0));
    lemma_pass(g, (x0 + 8, y0), (x0 + 9, y0), recipe);
    lemma_belt_takes(g, (x0 + 9, y0), (x0 + 10, y0));
    lemma_pass(g, (x0 + 9, y0), (x0 + 10, y0), recipe);
    lemma_belt_takes(g, (x0 + 10, y0), (x0 + 10, y0 + 1));
    lemma_pass(g, (x0 + 10, y0), (x0 + 10, y0 + 1), recipe);
    lemma_belt_takes(g, (x0 + 10, y0 + 1), (x0 + 10, y0 + 2));
    lemma_pass(g, (x0 + 10, y0 + 1), (x0 + 10, y0 + 2), recipe);
    lemma_belt_takes(g, (x0 + 10, y0 + 2), (x0 + 10, y0 + 3));
    lemma_pass(g, (x0 + 10, y0 + 2), (x0 + 10, y0 + 3), recipe);
    lemma_last_step(g, (x0 + 10, y0 + 3), (x0 + 10, y0 + 4), recipe);
}

} // verus!
