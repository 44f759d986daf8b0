//! What holds of every cell and every board.

use vstd::prelude::*;
use crate::world;
use crate::world::grid;
use crate::world::grid::GridView;
use crate::world::{Cell, Channel, Direction, Entity, Item};

verus! {

/// The size of a number, whatever its sign.
pub open spec fn size(n: int) -> int {
    if n < 0 {
        -n
    } else {
        n
    }
}

/// A direction steps to one of the four tiles that share an edge, no two to the same one,
/// and the opposite direction steps back. North is up, and rows count downwards; east is to
/// the right.
pub proof fn law_directions_step_to_the_neighbours(a: Direction, b: Direction)
    ensures
        size(a.dx()) + size(a.dy()) == (if a is Nowhere {
            0int
        } else {
            1int
        }),
        (a.dx(), a.dy()) == (b.dx(), b.dy()) <==> a == b,
        a.dx() + b.dx() == 0 && a.dy() + b.dy() == 0 <==> b == a.reversed(),
        a is North <==> a.dy() < 0,
        a is East <==> a.dx() > 0,
{
}

/// A machine takes three columns and three rows, a splitter two tiles across the way it
/// faces, and everything else one tile.
pub proof fn law_footprints(e: Entity, d: Direction)
    ensures
        e is Assembler ==> e.extent(d) == (3int, 3int),
        e is Splitter && d !is Nowhere ==> e.extent(d) == (1 + size(d.dy()), 1 + size(d.dx())),
        e is Splitter ==> e.extent(d).0 * e.extent(d).1 == 2,
        !(e is Assembler || e is Splitter) ==> e.extent(d) == (1int, 1int),
{
}

/// A gear takes two iron plates, a cable one copper plate, and a circuit one iron plate and
/// three cables. Nothing else is made, and nothing is made out of itself or of what is made
/// out of it.
pub proof fn law_recipes(product: Item, k: int)
    ensures
        product.is_crafted() <==> product is IronGear || product is CopperCable || product
            is GreenCircuit,
        product.inputs().len() == (match product {
            Item::IronGear | Item::CopperCable => 1nat,
            Item::GreenCircuit => 2nat,
            _ => 0nat,
        }),
        product is IronGear ==> product.inputs()[0].item is IronPlate && product.inputs()[0].qty
            == 2,
        product is CopperCable ==> product.inputs()[0].item is CopperPlate
            && product.inputs()[0].qty == 1,
        product is GreenCircuit ==> product.inputs()[0].item is IronPlate && product.inputs()[0].qty
            == 1 && product.inputs()[1].item is CopperCable && product.inputs()[1].qty == 3,
        0 <= k < product.inputs().len() ==> product.inputs()[k].item.code() < product.code(),
{
}

/// Every category of a channel has its own id below the size of the vocabulary, and an
/// empty cell has the id zero on every channel.
pub proof fn law_ids_are_below_the_vocabulary(c: Cell, ch: Channel)
    ensures
        c.channel_code(ch) < world::vocabulary(ch),
        world::empty_cell().channel_code(ch) == 0,
        c.entity is Empty && c.direction is Nowhere && c.item is Nothing && c.misc is Untagged
            <==> c == world::empty_cell(),
{
}

/// A channel tells two cells apart exactly where they differ in what the channel is about.
pub proof fn law_a_channel_tells_its_categories_apart(a: Cell, b: Cell)
    ensures
        a.channel_code(Channel::Entity) == b.channel_code(Channel::Entity) <==> a.entity
            == b.entity,
        a.channel_code(Channel::Direction) == b.channel_code(Channel::Direction) <==> a.direction
            == b.direction,
        a.channel_code(Channel::Item) == b.channel_code(Channel::Item) <==> a.item == b.item,
        a.channel_code(Channel::Misc) == b.channel_code(Channel::Misc) <==> a.misc == b.misc,
{
}

/// Ids are stable: what is stored or learned under them keeps its meaning.
pub proof fn law_ids_are_stable(e: Entity, d: Direction, i: Item)
    ensures
        e.code() == 0 <==> e is Empty,
        e.code() == 1 <==> e is Source,
        e.code() == 2 <==> e is Sink,
        e.code() == 3 <==> e is TransportBelt,
        e.code() == 4 <==> e is UndergroundBelt,
        e.code() == 5 <==> e is Splitter,
        e.code() == 6 <==> e is Inserter,
        e.code() == 7 <==> e is Assembler,
        d.code() == 0 <==> d is Nowhere,
        d.code() == 1 <==> d is North,
        d.code() == 2 <==> d is East,
        d.code() == 3 <==> d is South,
        d.code() == 4 <==> d is West,
        i.code() == 0 <==> i is Nothing,
        i.code() == 1 <==> i is IronPlate,
        i.code() == 2 <==> i is CopperPlate,
        i.code() == 3 <==> i is IronGear,
        i.code() == 4 <==> i is CopperCable,
        i.code() == 5 <==> i is GreenCircuit,
{
}

/// Which categories agree: nothing on an empty cell; an item or none at a source and at a
/// sink; a facing for everything else, with an item or none in a machine, and a tag in a
/// tunnel alone.
pub proof fn law_which_categories_agree(c: Cell)
    ensures
        c.consistent() <==> match c.entity {
            Entity::Empty => c.direction is Nowhere && c.item is Nothing && c.misc is Untagged,
            Entity::Source | Entity::Sink => c.direction is Nowhere && c.misc is Untagged,
            Entity::Assembler => c.direction !is Nowhere && c.misc is Untagged,
            Entity::UndergroundBelt => c.direction !is Nowhere && c.item is Nothing && (c.misc
                is UndergroundDown || c.misc is UndergroundUp),
            _ => c.direction !is Nowhere && c.item is Nothing && c.misc is Untagged,
        },
{
}

/// A belt faces the way it was asked to, and its categories agree wherever that is.
pub proof fn law_a_belt_faces_its_way(d: Direction)
    ensures
        Cell::belt_cell(d).entity is TransportBelt,
        Cell::belt_cell(d).direction == d,
        Cell::belt_cell(d).consistent() <==> d !is Nowhere,
{
}

/// An entity stands on the tiles of its footprint, to the right of its anchor and below,
/// and on no others.
pub proof fn law_what_an_entity_stands_on(g: GridView, ax: int, ay: int, x: int, y: int)
    requires
        g.inside(ax, ay),
    ensures
        g.at(ax, ay).entity is Empty ==> !g.covers(ax, ay, x, y),
        g.at(ax, ay).entity is Assembler ==> (g.covers(ax, ay, x, y) <==> ax <= x <= ax + 2 && ay
            <= y <= ay + 2),
        g.at(ax, ay).entity is Splitter ==> (g.covers(ax, ay, x, y) <==> (x, y) == (ax, ay) || (if g.at(
            ax,
            ay,
        ).direction is North || g.at(ax, ay).direction is South {
            (x, y) == (ax + 1, ay)
        } else {
            (x, y) == (ax, ay + 1)
        })),
        !(g.at(ax, ay).entity is Empty || g.at(ax, ay).entity is Assembler || g.at(ax, ay).entity
            is Splitter) ==> (g.covers(ax, ay, x, y) <==> (x, y) == (ax, ay)),
{
}

/// Among the stored cells before the one found, none covers the tile.
proof fn lemma_first_cover(g: GridView, x: int, y: int, k: int, bx: int, by: int)
    requires
        0 <= k,
        g.cover_from(x, y, k) is Some,
        g.covers(bx, by, x, y),
        3 * (by - y + 2) + (bx - x + 2) >= k,
    ensures
        ({
            let (ax, ay) = g.cover_from(x, y, k)->0;
            &&& g.covers(ax, ay, x, y)
            &&& ay < by || ay == by && ax <= bx
        }),
    decreases 9 - k,
{
    let (px, py) = (x - 2 + k % 3, y - 2 + k / 3);
    if !g.covers(px, py, x, y) {
        if 3 * (by - y + 2) + (bx - x + 2) == k {
            assert(k % 3 == bx - x + 2 && k / 3 == by - y + 2);
        }
        lemma_first_cover(g, x, y, k + 1, bx, by);
    }
}

/// A tile belongs to the entity that is stored there, and otherwise to the topmost, and
/// then leftmost, of those that cover it.
pub proof fn law_a_tile_belongs_to_the_first_that_covers_it(
    g: GridView,
    x: int,
    y: int,
    bx: int,
    by: int,
)
    requires
        g.inside(x, y),
        g.covers(bx, by, x, y),
    ensures
        ({
            &&& g.anchor_of(x, y) matches Some((ax, ay))
            &&& g.covers(ax, ay, x, y)
            &&& if g.at(x, y).entity is Empty {
                ay < by || ay == by && ax <= bx
            } else {
                (ax, ay) == (x, y)
            }
        }),
{
    grid::lemma_anchor_of(g, x, y);
    if g.at(x, y).entity is Empty {
        lemma_first_cover(g, x, y, 0, bx, by);
    }
}

/// On legal ground the footprint of every entity is on the board, free of walls, and
/// overlaps no other.
pub proof fn law_legal_ground(g: GridView, ax: int, ay: int, bx: int, by: int, x: int, y: int)
    requires
        g.legal(),
        g.inside(ax, ay),
        g.at(ax, ay).entity !is Empty,
        ax <= x < ax + g.at(ax, ay).entity.extent(g.at(ax, ay).direction).0,
        ay <= y < ay + g.at(ax, ay).entity.extent(g.at(ax, ay).direction).1,
    ensures
        g.inside(x, y),
        !g.blocked(x, y),
        g.inside(bx, by) && g.at(bx, by).entity !is Empty && bx <= x < bx + g.at(
            bx,
            by,
        ).entity.extent(g.at(bx, by).direction).0 && by <= y < by + g.at(bx, by).entity.extent(
            g.at(bx, by).direction,
        ).1 ==> (ax, ay) == (bx, by),
{
    assert(g.stands_clear(ax, ay));
    assert(g.covers(ax, ay, x, y));
    if g.inside(bx, by) && g.at(bx, by).entity !is Empty && bx <= x < bx + g.at(
        bx,
        by,
    ).entity.extent(g.at(bx, by).direction).0 && by <= y < by + g.at(bx, by).entity.extent(
        g.at(bx, by).direction,
    ).1 {
        assert(g.covers(bx, by, x, y));
    }
}

/// Ground is legal where every footprint is on the board and free of walls and no two
/// overlap.
pub proof fn law_ground_without_overlap_is_legal(g: GridView)
    requires
        forall|ax: int, ay: int, x: int, y: int| #[trigger]
            g.covers(ax, ay, x, y) ==> g.inside(x, y) && !g.blocked(x, y),
        forall|ax: int, ay: int, bx: int, by: int, x: int, y: int| #[trigger]
            g.covers(ax, ay, x, y) && #[trigger] g.covers(bx, by, x, y) ==> ax == bx && ay == by,
    ensures
        g.legal(),
{
    assert forall|ax: int, ay: int| #[trigger] g.inside(ax, ay) implies g.stands_clear(ax, ay) by {
        assert forall|x: int, y: int| #[trigger] g.covers(ax, ay, x, y) implies {
            &&& g.inside(x, y)
            &&& !g.blocked(x, y)
            &&& forall|bx: int, by: int| #[trigger]
                g.covers(bx, by, x, y) ==> bx == ax && by == ay
        } by {}
    }
}

/// Writing a tile and blocking a tile change that tile and nothing else.
pub proof fn law_a_write_changes_one_tile(
    g: GridView,
    a: int,
    b: int,
    c: Cell,
    v: bool,
    x: int,
    y: int,
)
    requires
        g.valid(),
        g.inside(a, b),
        g.inside(x, y),
    ensures
        g.put(a, b, c).at(a, b) == c,
        (x, y) != (a, b) ==> g.put(a, b, c).at(x, y) == g.at(x, y),
        g.put(a, b, c).blocked(x, y) == g.blocked(x, y),
        g.block(a, b, v).blocked(a, b) == v,
        (x, y) != (a, b) ==> g.block(a, b, v).blocked(x, y) == g.blocked(x, y),
        g.block(a, b, v).at(x, y) == g.at(x, y),
{
    grid::lemma_put_at(g, a, b, c, x, y);
    grid::lemma_put_at(g, a, b, c, a, b);
    grid::lemma_block_at(g, a, b, v, x, y);
    grid::lemma_block_at(g, a, b, v, a, b);
}

/// A blank board is empty and open everywhere.
pub proof fn law_a_blank_board_is_open(w: nat, h: nat, x: int, y: int)
    requires
        0 <= x < w && 0 <= y < h,
    ensures
        ({
            let g = GridView::blank(w, h);
            &&& (g.width, g.height) == (w, h)
            &&& !g.blocked(x, y)
            &&& g.at(x, y).entity is Empty
            &&& g.at(x, y).consistent()
        }),
{
    grid::lemma_slot(GridView::blank(w, h), x, y);
    grid::lemma_blank_at(w, h, x, y);
}

/// The slots of a row follow one another from left to right, and rows from top to bottom.
pub proof fn law_slots_run_along_the_rows(g: GridView, x: int, y: int)
    ensures
        g.slot(0, 0) == 0,
        g.slot(x + 1, y) == g.slot(x, y) + 1,
        g.slot(0, y + 1) == g.slot(g.width as int, y),
{
    let w = g.width as int;
    assert((y + 1) * w == y * w + w) by (nonlinear_arith);
}

} // verus!
