//! What stands on every tile of the fixed layouts.

use vstd::prelude::*;
use crate::factory_gen::aim;
use crate::factory_gen::canvas::{Canvas, BANK_LINES};
use crate::factory_gen::choices;
use crate::factory_gen::templates;
use crate::factory_gen::works;
use crate::world::grid;
use crate::world::grid::GridView;
use crate::world::{Cell, Direction, Entity, Item};

verus! {

broadcast use {grid::lemma_slot, grid::lemma_put_at, grid::lemma_blank_at, grid::lemma_block_at};

/// A cell without a tag.
pub open spec fn holds(c: Cell, entity: Entity, direction: Direction, item: Item) -> bool {
    c.entity == entity && c.direction == direction && c.item == item && c.misc is Untagged
}

/// Whether nothing stands on a tile.
pub open spec fn bare(c: Cell) -> bool {
    holds(c, Entity::Empty, Direction::Nowhere, Item::Nothing)
}

/// Whether a tile has the entrance of an eastward tunnel on its left and the exit on its
/// right.
pub open spec fn between_ends(g: GridView, x: int, y: int) -> bool {
    &&& g.inside(x - 1, y)
    &&& g.at(x - 1, y).entity is UndergroundBelt
    &&& g.at(x - 1, y).misc is UndergroundDown
    &&& g.at(x - 1, y).direction is East
    &&& g.inside(x + 1, y)
    &&& g.at(x + 1, y).entity is UndergroundBelt
    &&& g.at(x + 1, y).misc is UndergroundUp
    &&& g.at(x + 1, y).direction is East
}

/// In a tunnel lesson the tile between the entrance and the exit of the tunnel is blocked,
/// and no other tile is.
pub proof fn law_the_tunnel_passes_under_the_only_wall(
    canvas: Canvas,
    x0: int,
    row: int,
    item: Item,
    x: int,
    y: int,
)
    requires
        canvas.holdable(),
        0 <= x0 && x0 + 7 <= canvas.width,
        0 <= row < canvas.height,
        0 <= x < canvas.width && 0 <= y < canvas.height,
    ensures
        ({
            let g = templates::cross_grid(canvas, x0, row, item);
            &&& g.blocked(x, y) <==> between_ends(g, x, y)
            &&& g.blocked(x, y) <==> x == x0 + 3 && y == row
        }),
{
    let g = templates::cross_grid(canvas, x0, row, item);
    let wall = canvas.blank().block(x0 + 3, row, true);
    assert(g.blocked(x, y) == wall.blocked(x, y));
    assert(canvas.blank().inside(x, y));
    assert(!canvas.blank().blocked(x, y));
    law_the_tunnel_carries_its_item_along_a_row(canvas, x0, row, item, x, y);
    if g.inside(x - 1, y) {
        law_the_tunnel_carries_its_item_along_a_row(canvas, x0, row, item, x - 1, y);
    }
    if g.inside(x + 1, y) {
        law_the_tunnel_carries_its_item_along_a_row(canvas, x0, row, item, x + 1, y);
    }
}

/// A tunnel lesson is one row, eastwards: the source of its item, a belt, the entrance, the
/// wall, the exit, a belt and the sink of its item. Nothing stands anywhere else.
pub proof fn law_the_tunnel_carries_its_item_along_a_row(
    canvas: Canvas,
    x0: int,
    row: int,
    item: Item,
    x: int,
    y: int,
)
    requires
        canvas.holdable(),
        0 <= x0 && x0 + 7 <= canvas.width,
        0 <= row < canvas.height,
        0 <= x < canvas.width && 0 <= y < canvas.height,
    ensures
        ({
            let c = templates::cross_grid(canvas, x0, row, item).at(x, y);
            let k = x - x0;
            if y != row || k < 0 || k > 6 || k == 3 {
                bare(c)
            } else if k == 0 {
                holds(c, Entity::Source, Direction::Nowhere, item)
            } else if k == 6 {
                holds(c, Entity::Sink, Direction::Nowhere, item)
            } else if k == 1 || k == 5 {
                holds(c, Entity::TransportBelt, Direction::East, Item::Nothing)
            } else {
                &&& c.entity is UndergroundBelt
                &&& c.direction is East
                &&& c.item is Nothing
                &&& c.misc is UndergroundDown <==> k == 2
                &&& c.misc is UndergroundUp <==> k == 4
            }
        }),
{
}

/// Whether the tiles between the ends of a tunnel are blocked, and no others.
#[verifier::opaque]
pub open spec fn walled_between_ends(g: GridView) -> bool {
    forall|x: int, y: int| #[trigger]
        g.inside(x, y) ==> (g.blocked(x, y) <==> between_ends(g, x, y))
}

/// The only wall of a tunnel lesson is the one that its tunnel passes under.
pub proof fn lemma_cross_walled(canvas: Canvas, x0: int, row: int, item: Item)
    requires
        canvas.holdable(),
        0 <= x0 && x0 + 7 <= canvas.width,
        0 <= row < canvas.height,
    ensures
        walled_between_ends(templates::cross_grid(canvas, x0, row, item)),
{
    reveal(walled_between_ends);
    let g = templates::cross_grid(canvas, x0, row, item);
    assert forall|x: int, y: int| #[trigger] g.inside(x, y) implies (g.blocked(x, y)
        <==> between_ends(g, x, y)) by {
        law_the_tunnel_passes_under_the_only_wall(canvas, x0, row, item, x, y);
    }
}

/// A crafting line: a source of the ingredient, an inserter, the machine, an inserter and
/// the sink of the product, eastwards along the machine's middle row.
pub proof fn law_a_crafting_line_runs_through_its_machine(
    canvas: Canvas,
    x0: int,
    y0: int,
    recipe: Item,
    x: int,
    y: int,
)
    requires
        canvas.holdable(),
        0 <= x0 && x0 + 7 <= canvas.width,
        0 <= y0 && y0 + 3 <= canvas.height,
        recipe.is_crafted(),
        0 <= x < canvas.width && 0 <= y < canvas.height,
    ensures
        ({
            let g = templates::line_grid(canvas, x0, y0, recipe);
            let c = g.at(x, y);
            let (dx, dy) = (x - x0, y - y0);
            &&& g.valid()
            &&& (g.width, g.height) == (canvas.width as nat, canvas.height as nat)
            &&& !g.blocked(x, y)
            &&& if (dx, dy) == (0int, 1int) {
                holds(c, Entity::Source, Direction::Nowhere, recipe.inputs()[0].item)
            } else if (dx, dy) == (6int, 1int) {
                holds(c, Entity::Sink, Direction::Nowhere, recipe)
            } else if (dx, dy) == (2int, 0int) {
                holds(c, Entity::Assembler, Direction::East, recipe)
            } else if dy == 1 && (dx == 1 || dx == 5) {
                holds(c, Entity::Inserter, Direction::East, Item::Nothing)
            } else {
                bare(c)
            }
        }),
{
    assert(canvas.blank().inside(x, y));
    assert(!canvas.blank().blocked(x, y));
}

/// A direct recipe: like a crafting line, with the second ingredient, if there is one,
/// brought in from the north.
pub proof fn law_a_direct_recipe_is_fed_from_west_and_north(
    canvas: Canvas,
    x0: int,
    y0: int,
    recipe: Item,
    inputs: Seq<Item>,
    x: int,
    y: int,
)
    requires
        canvas.holdable(),
        0 <= x0 && x0 + 7 <= canvas.width,
        0 <= y0 && y0 + 5 <= canvas.height,
        inputs.len() > 0,
        0 <= x < canvas.width && 0 <= y < canvas.height,
    ensures
        ({
            let g = templates::direct_grid(canvas, x0, y0, recipe, inputs);
            let c = g.at(x, y);
            let (dx, dy) = (x - x0, y - y0);
            &&& g.valid()
            &&& (g.width, g.height) == (canvas.width as nat, canvas.height as nat)
            &&& !g.blocked(x, y)
            &&& if (dx, dy) == (0int, 3int) {
                holds(c, Entity::Source, Direction::Nowhere, inputs[0])
            } else if (dx, dy) == (3int, 0int) && inputs.len() > 1 {
                holds(c, Entity::Source, Direction::Nowhere, inputs[1])
            } else if (dx, dy) == (3int, 1int) && inputs.len() > 1 {
                holds(c, Entity::Inserter, Direction::South, Item::Nothing)
            } else if (dx, dy) == (6int, 3int) {
                holds(c, Entity::Sink, Direction::Nowhere, recipe)
            } else if (dx, dy) == (2int, 2int) {
                holds(c, Entity::Assembler, Direction::East, recipe)
            } else if dy == 3 && (dx == 1 || dx == 5) {
                holds(c, Entity::Inserter, Direction::East, Item::Nothing)
            } else {
                bare(c)
            }
        }),
{
    assert(canvas.blank().inside(x, y));
    assert(!canvas.blank().blocked(x, y));
}

/// A bank always has its three sources and its sink; of its lines the lowest ones are
/// built, as many as asked for, and a column of belts leads from the topmost of them down
/// to the sink.
pub proof fn law_a_bank_builds_its_lowest_lines(
    canvas: Canvas,
    x0: int,
    y0: int,
    recipe: Item,
    lines: int,
    x: int,
    y: int,
)
    requires
        canvas.holdable(),
        0 <= x0 && x0 + 7 <= canvas.width,
        0 <= y0 && y0 + 9 <= canvas.height,
        recipe.is_crafted(),
        1 <= lines <= 3,
        0 <= x < canvas.width && 0 <= y < canvas.height,
    ensures
        ({
            let g = choices::bank_grid(canvas, x0, y0, recipe, lines);
            let c = g.at(x, y);
            let (dx, dy) = (x - x0, y - y0);
            let built = 9 - 3 * lines <= dy < 9;
            &&& g.valid()
            &&& (g.width, g.height) == (canvas.width as nat, canvas.height as nat)
            &&& !g.blocked(x, y)
            &&& if dx == 0 && (dy == 1 || dy == 4 || dy == 7) {
                holds(c, Entity::Source, Direction::Nowhere, recipe.inputs()[0].item)
            } else if dx == 6 && dy == 7 {
                holds(c, Entity::Sink, Direction::Nowhere, recipe)
            } else if dx == 6 && 10 - 3 * lines <= dy < 7 {
                holds(c, Entity::TransportBelt, Direction::South, Item::Nothing)
            } else if dx == 2 && built && (dy == 0 || dy == 3 || dy == 6) {
                holds(c, Entity::Assembler, Direction::East, recipe)
            } else if (dx == 1 || dx == 5) && built && (dy == 1 || dy == 4 || dy == 7) {
                holds(c, Entity::Inserter, Direction::East, Item::Nothing)
            } else {
                bare(c)
            }
        }),
{
    assert(canvas.blank().inside(x, y));
    assert(!canvas.blank().blocked(x, y));
    let ports = choices::bank_ports(canvas, x0, y0, recipe);
    let first = BANK_LINES - lines;
    let built = choices::bank_lines(ports, x0, y0, recipe, first, 3);
    aim::lemma_bank_lines_exact(ports, x0, y0, recipe, first, 3, x, y);
    works::lemma_bank_lines_at(ports, x0, y0, recipe, first, 3, x, y);
    works::lemma_column_at(built, x0 + 6, y0 + 3 * first + 1, y0 + 7, x, y);
}

/// A circuit line: copper comes from the west into the cable machine and iron from the
/// north into the circuit machine, which the uppermost inserters between the two, as many
/// as asked for, bring the cable; the circuits go to the sink in the east.
pub proof fn law_a_circuit_line_joins_cable_and_iron(
    canvas: Canvas,
    x0: int,
    y0: int,
    feeds: int,
    x: int,
    y: int,
)
    requires
        canvas.holdable(),
        0 <= x0 && x0 + 11 <= canvas.width,
        0 <= y0 && y0 + 5 <= canvas.height,
        1 <= feeds <= 3,
        0 <= x < canvas.width && 0 <= y < canvas.height,
    ensures
        ({
            let g = choices::circuit_grid(canvas, x0, y0, feeds);
            let c = g.at(x, y);
            let (dx, dy) = (x - x0, y - y0);
            &&& g.valid()
            &&& (g.width, g.height) == (canvas.width as nat, canvas.height as nat)
            &&& !g.blocked(x, y)
            &&& if (dx, dy) == (0int, 3int) {
                holds(c, Entity::Source, Direction::Nowhere, Item::CopperPlate)
            } else if (dx, dy) == (6int, 0int) {
                holds(c, Entity::Source, Direction::Nowhere, Item::IronPlate)
            } else if (dx, dy) == (10int, 3int) {
                holds(c, Entity::Sink, Direction::Nowhere, Item::GreenCircuit)
            } else if (dx, dy) == (2int, 2int) {
                holds(c, Entity::Assembler, Direction::East, Item::CopperCable)
            } else if (dx, dy) == (6int, 2int) {
                holds(c, Entity::Assembler, Direction::East, Item::GreenCircuit)
            } else if (dx, dy) == (6int, 1int) {
                holds(c, Entity::Inserter, Direction::South, Item::Nothing)
            } else if dy == 3 && (dx == 1 || dx == 9) || dx == 5 && 2 <= dy < 2 + feeds {
                holds(c, Entity::Inserter, Direction::East, Item::Nothing)
            } else {
                bare(c)
            }
        }),
{
    assert(canvas.blank().inside(x, y));
    assert(!canvas.blank().blocked(x, y));
    works::lemma_feeds_at(choices::circuit_frame(canvas, x0, y0), x0, y0, feeds, x, y);
}

/// A shared line: one source, a splitter where two machines are built and a belt where only
/// the upper one is, a branch for each machine that is built, and a column of belts down to
/// the sink.
pub proof fn law_a_shared_line_splits_for_two_machines(
    canvas: Canvas,
    x0: int,
    y0: int,
    recipe: Item,
    branches: int,
    x: int,
    y: int,
)
    requires
        canvas.holdable(),
        0 <= x0 && x0 + 11 <= canvas.width,
        0 <= y0 && y0 + 7 <= canvas.height,
        recipe.is_crafted(),
        1 <= branches <= 2,
        0 <= x < canvas.width && 0 <= y < canvas.height,
    ensures
        ({
            let g = choices::shared_grid(canvas, x0, y0, recipe, branches);
            let c = g.at(x, y);
            let (dx, dy) = (x - x0, y - y0);
            let branch = dy == 0 || dy == 4 && branches == 2;
            &&& g.valid()
            &&& (g.width, g.height) == (canvas.width as nat, canvas.height as nat)
            &&& !g.blocked(x, y)
            &&& if (dx, dy) == (0int, 0int) {
                holds(c, Entity::Source, Direction::Nowhere, recipe.inputs()[0].item)
            } else if (dx, dy) == (10int, 4int) {
                holds(c, Entity::Sink, Direction::Nowhere, recipe)
            } else if (dx, dy) == (2int, 0int) {
                holds(
                    c,
                    if branches == 2 {
                        Entity::Splitter
                    } else {
                        Entity::TransportBelt
                    },
                    Direction::East,
                    Item::Nothing,
                )
            } else if dx == 3 && 1 <= dy <= 3 && branches == 2 || dx == 10 && 0 <= dy < 4 {
                holds(c, Entity::TransportBelt, Direction::South, Item::Nothing)
            } else if (dx, dy) == (1int, 0int) || (dx == 3 || dx == 9) && branch {
                holds(c, Entity::TransportBelt, Direction::East, Item::Nothing)
            } else if (dx == 4 || dx == 8) && branch {
                holds(c, Entity::Inserter, Direction::East, Item::Nothing)
            } else if dx == 5 && branch {
                holds(c, Entity::Assembler, Direction::East, recipe)
            } else {
                bare(c)
            }
        }),
{
    assert(canvas.blank().inside(x, y));
    assert(!canvas.blank().blocked(x, y));
    let ports = choices::shared_ports(canvas, x0, y0, recipe);
    let head = choices::shared_head(ports, x0, y0, branches);
    let upper = choices::shared_branch(head, x0, y0, recipe);
    let both = if branches > 1 {
        choices::shared_branch(upper, x0, y0 + 4, recipe)
    } else {
        upper
    };
    works::lemma_column_at(both, x0 + 10, y0, y0 + 4, x, y);
}

/// A region holds the slots of the tiles of its rectangle that are not excepted, and no
/// others.
proof fn lemma_region_within(
    g: GridView,
    x0: int,
    y0: int,
    w: int,
    except: Seq<int>,
    n: nat,
    i: int,
)
    requires
        templates::region(g, x0, y0, w, except, n).contains(i),
    ensures
        !except.contains(i),
        exists|k: int| 0 <= k < n && i == #[trigger] templates::region_slot(g, x0, y0, w, k),
    decreases n,
{
    if n > 0 {
        let rest = templates::region(g, x0, y0, w, except, (n - 1) as nat);
        let all = templates::region(g, x0, y0, w, except, n);
        let j = all.index_of(i);
        if j < rest.len() {
            assert(rest[j] == i);
            lemma_region_within(g, x0, y0, w, except, (n - 1) as nat, i);
        } else {
            assert(i == templates::region_slot(g, x0, y0, w, n - 1));
        }
    }
}

/// Which tiles the region of a rectangle holds.
proof fn lemma_region_tiles(
    g: GridView,
    x0: int,
    y0: int,
    w: int,
    h: int,
    except: Seq<int>,
    x: int,
    y: int,
)
    requires
        g.valid(),
        0 <= x0,
        0 <= y0,
        0 < w,
        0 <= h,
        x0 + w <= g.width,
        y0 + h <= g.height,
        g.inside(x, y),
    ensures
        templates::region(g, x0, y0, w, except, (w * h) as nat).contains(g.slot(x, y)) <==> x0 <= x
            < x0 + w && y0 <= y < y0 + h && !except.contains(g.slot(x, y)),
{
    assert(w * h >= 0) by (nonlinear_arith)
        requires
            w > 0,
            h >= 0,
    ;
    let n = (w * h) as nat;
    let i = g.slot(x, y);
    if templates::region(g, x0, y0, w, except, n).contains(i) {
        lemma_region_within(g, x0, y0, w, except, n, i);
        let k = choose|k: int|
            0 <= k < n && i == #[trigger] templates::region_slot(g, x0, y0, w, k);
        templates::lemma_region_tile(g, x0, y0, w, h, k);
        grid::lemma_slot_injective(g, x, y, x0 + k % w, y0 + k / w);
    }
    if x0 <= x < x0 + w && y0 <= y < y0 + h && !except.contains(i) {
        let (dx, dy) = (x - x0, y - y0);
        let k = dy * w + dx;
        assert(0 <= k < w * h) by (nonlinear_arith)
            requires
                0 <= dx < w,
                0 <= dy < h,
                k == dy * w + dx,
        ;
        vstd::arithmetic::div_mod::lemma_fundamental_div_mod_converse(k, w, dy, dx);
        templates::lemma_region_holds(g, x0, y0, w, except, n, k);
    }
}

/// A list of the slots of some tiles holds the slot of a tile exactly if the tile is one of
/// them.
proof fn lemma_listed(g: GridView, slots: Seq<int>, tiles: Seq<(int, int)>, x: int, y: int)
    requires
        g.valid(),
        g.inside(x, y),
        slots.len() == tiles.len(),
        forall|k: int|
            0 <= k < tiles.len() ==> g.inside((#[trigger] tiles[k]).0, tiles[k].1) && slots[k]
                == g.slot(tiles[k].0, tiles[k].1),
    ensures
        slots.contains(g.slot(x, y)) <==> tiles.contains((x, y)),
{
    if slots.contains(g.slot(x, y)) {
        let k = slots.index_of(g.slot(x, y));
        grid::lemma_slot_injective(g, x, y, tiles[k].0, tiles[k].1);
        assert(tiles[k] == (x, y));
    }
    if tiles.contains((x, y)) {
        let k = tiles.index_of((x, y));
        assert(slots[k] == g.slot(x, y));
    }
}

/// A crafting line may lose its two inserters; its source, machine and sink stay.
pub proof fn law_a_crafting_line_may_lose_its_inserters(
    canvas: Canvas,
    x0: int,
    y0: int,
    recipe: Item,
    x: int,
    y: int,
)
    requires
        canvas.holdable(),
        0 <= x0 && x0 + 7 <= canvas.width,
        0 <= y0 && y0 + 3 <= canvas.height,
        recipe.is_crafted(),
        0 <= x < canvas.width && 0 <= y < canvas.height,
    ensures
        ({
            let s = templates::line_sample(canvas, x0, y0, recipe);
            let e = s.solution.at(x, y).entity;
            let i = y * canvas.width + x;
            &&& s.kind is AssemblerLine
            &&& s.removable.contains(i) <==> e is Inserter
            &&& s.protected.contains(i) <==> e is Source || e is Sink || e is Assembler
        }),
{
    let s = templates::line_sample(canvas, x0, y0, recipe);
    let g = s.solution;
    law_a_crafting_line_runs_through_its_machine(canvas, x0, y0, recipe, x, y);
    let kept = seq![(x0, y0 + 1), (x0 + 2, y0), (x0 + 6, y0 + 1)];
    let lost = seq![(x0 + 1, y0 + 1), (x0 + 5, y0 + 1)];
    lemma_listed(g, s.protected, kept, x, y);
    lemma_listed(g, s.removable, lost, x, y);
    lemma_three(kept, (x, y));
    lemma_two(lost, (x, y));
}

/// A tunnel lesson may lose its belts and both ends of its tunnel; its source and sink stay.
pub proof fn law_a_tunnel_may_lose_all_but_its_ports(
    canvas: Canvas,
    x0: int,
    row: int,
    item: Item,
    x: int,
    y: int,
)
    requires
        canvas.holdable(),
        0 <= x0 && x0 + 7 <= canvas.width,
        0 <= row < canvas.height,
        0 <= x < canvas.width && 0 <= y < canvas.height,
    ensures
        ({
            let s = templates::cross_sample(canvas, x0, row, item);
            let e = s.solution.at(x, y).entity;
            let i = y * canvas.width + x;
            &&& s.kind is UndergroundCross
            &&& s.removable.contains(i) <==> e is TransportBelt || e is UndergroundBelt
            &&& s.protected.contains(i) <==> e is Source || e is Sink
        }),
{
    let s = templates::cross_sample(canvas, x0, row, item);
    let g = s.solution;
    law_the_tunnel_carries_its_item_along_a_row(canvas, x0, row, item, x, y);
    let kept = seq![(x0, row), (x0 + 6, row)];
    let lost = seq![(x0 + 1, row), (x0 + 2, row), (x0 + 4, row), (x0 + 5, row)];
    lemma_listed(g, s.protected, kept, x, y);
    lemma_listed(g, s.removable, lost, x, y);
    lemma_two(kept, (x, y));
    lemma_four(lost, (x, y));
}

proof fn lemma_two(tiles: Seq<(int, int)>, t: (int, int))
    requires
        tiles.len() == 2,
    ensures
        tiles.contains(t) <==> t == tiles[0] || t == tiles[1],
{
}

proof fn lemma_three(tiles: Seq<(int, int)>, t: (int, int))
    requires
        tiles.len() == 3,
    ensures
        tiles.contains(t) <==> t == tiles[0] || t == tiles[1] || t == tiles[2],
{
}

proof fn lemma_four(tiles: Seq<(int, int)>, t: (int, int))
    requires
        tiles.len() == 4,
    ensures
        tiles.contains(t) <==> t == tiles[0] || t == tiles[1] || t == tiles[2] || t == tiles[3],
{
}

/// A direct recipe may lose everything in its rectangle but its sources and its sink.
pub proof fn law_a_direct_recipe_may_lose_all_but_its_ports(
    canvas: Canvas,
    x0: int,
    y0: int,
    recipe: Item,
    inputs: Seq<Item>,
    x: int,
    y: int,
)
    requires
        canvas.holdable(),
        0 <= x0 && x0 + 7 <= canvas.width,
        0 <= y0 && y0 + 5 <= canvas.height,
        inputs.len() > 0,
        0 <= x < canvas.width && 0 <= y < canvas.height,
    ensures
        ({
            let s = templates::direct_sample(canvas, x0, y0, recipe, inputs);
            let given = s.solution.at(x, y).entity is Source || s.solution.at(x, y).entity is Sink;
            let i = y * canvas.width + x;
            &&& s.kind is DirectRecipe
            &&& s.protected.contains(i) <==> given
            &&& s.removable.contains(i) <==> x0 <= x < x0 + 7 && y0 <= y < y0 + 5 && !given
        }),
{
    let s = templates::direct_sample(canvas, x0, y0, recipe, inputs);
    let g = s.solution;
    law_a_direct_recipe_is_fed_from_west_and_north(canvas, x0, y0, recipe, inputs, x, y);
    templates::lemma_port_slots(g, g.cells.len());
    let i = g.slot(x, y);
    if s.protected.contains(i) {
        assert(s.protected[s.protected.index_of(i)] == i);
    }
    lemma_region_tiles(g, x0, y0, 7, 5, s.protected, x, y);
}

/// A bank may lose everything in its rectangle but its sources and its sink.
pub proof fn law_a_bank_may_lose_all_but_its_ports(
    canvas: Canvas,
    x0: int,
    y0: int,
    recipe: Item,
    lines: int,
    x: int,
    y: int,
)
    requires
        canvas.holdable(),
        0 <= x0 && x0 + 7 <= canvas.width,
        0 <= y0 && y0 + 9 <= canvas.height,
        recipe.is_crafted(),
        1 <= lines <= 3,
        0 <= x < canvas.width && 0 <= y < canvas.height,
    ensures
        ({
            let s = choices::bank_sample(canvas, x0, y0, recipe, lines);
            let given = s.solution.at(x, y).entity is Source || s.solution.at(x, y).entity is Sink;
            let i = y * canvas.width + x;
            &&& s.kind is AssemblerBank
            &&& s.protected.contains(i) <==> given
            &&& s.removable.contains(i) <==> x0 <= x < x0 + 7 && y0 <= y < y0 + 9 && !given
        }),
{
    let s = choices::bank_sample(canvas, x0, y0, recipe, lines);
    let g = s.solution;
    law_a_bank_builds_its_lowest_lines(canvas, x0, y0, recipe, lines, x, y);
    let kept = seq![(x0, y0 + 1), (x0, y0 + 4), (x0, y0 + 7), (x0 + 6, y0 + 7)];
    lemma_listed(g, s.protected, kept, x, y);
    lemma_four(kept, (x, y));
    lemma_region_tiles(g, x0, y0, 7, 9, s.protected, x, y);
}

/// A circuit line may lose everything in its rectangle but its sources and its sink.
pub proof fn law_a_circuit_line_may_lose_all_but_its_ports(
    canvas: Canvas,
    x0: int,
    y0: int,
    feeds: int,
    x: int,
    y: int,
)
    requires
        canvas.holdable(),
        0 <= x0 && x0 + 11 <= canvas.width,
        0 <= y0 && y0 + 5 <= canvas.height,
        1 <= feeds <= 3,
        0 <= x < canvas.width && 0 <= y < canvas.height,
    ensures
        ({
            let s = choices::circuit_sample(canvas, x0, y0, feeds);
            let given = s.solution.at(x, y).entity is Source || s.solution.at(x, y).entity is Sink;
            let i = y * canvas.width + x;
            &&& s.kind is CircuitLine
            &&& s.protected.contains(i) <==> given
            &&& s.removable.contains(i) <==> x0 <= x < x0 + 11 && y0 <= y < y0 + 5 && !given
        }),
{
    let s = choices::circuit_sample(canvas, x0, y0, feeds);
    let g = s.solution;
    law_a_circuit_line_joins_cable_and_iron(canvas, x0, y0, feeds, x, y);
    let kept = seq![(x0, y0 + 3), (x0 + 6, y0), (x0 + 10, y0 + 3)];
    lemma_listed(g, s.protected, kept, x, y);
    lemma_three(kept, (x, y));
    lemma_region_tiles(g, x0, y0, 11, 5, s.protected, x, y);
}

/// A shared line may lose everything in its rectangle but its source and its sink.
pub proof fn law_a_shared_line_may_lose_all_but_its_ports(
    canvas: Canvas,
    x0: int,
    y0: int,
    recipe: Item,
    branches: int,
    x: int,
    y: int,
)
    requires
        canvas.holdable(),
        0 <= x0 && x0 + 11 <= canvas.width,
        0 <= y0 && y0 + 7 <= canvas.height,
        recipe.is_crafted(),
        1 <= branches <= 2,
        0 <= x < canvas.width && 0 <= y < canvas.height,
    ensures
        ({
            let s = choices::shared_sample(canvas, x0, y0, recipe, branches);
            let given = s.solution.at(x, y).entity is Source || s.solution.at(x, y).entity is Sink;
            let i = y * canvas.width + x;
            &&& s.kind is SharedLine
            &&& s.protected.contains(i) <==> given
            &&& s.removable.contains(i) <==> x0 <= x < x0 + 11 && y0 <= y < y0 + 7 && !given
        }),
{
    let s = choices::shared_sample(canvas, x0, y0, recipe, branches);
    let g = s.solution;
    law_a_shared_line_splits_for_two_machines(canvas, x0, y0, recipe, branches, x, y);
    let kept = seq![(x0, y0), (x0 + 10, y0 + 4)];
    lemma_listed(g, s.protected, kept, x, y);
    lemma_two(kept, (x, y));
    lemma_region_tiles(g, x0, y0, 11, 7, s.protected, x, y);
}

} // verus!
