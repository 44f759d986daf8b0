//! What lessons are drawn from: every place on the board where their layout fits, and every
//! variant of it.

use vstd::prelude::*;
use crate::factory_gen::canvas::Canvas;
use crate::factory_gen::chaos;
use crate::factory_gen::choices;
use crate::factory_gen::lesson::SampleView;
use crate::factory_gen::route;
use crate::factory_gen::routed;
use crate::factory_gen::templates;
use crate::random;
use crate::random::RandomStream;
use crate::sim;
use crate::world::grid;

verus! {

/// Along a side, the places where something of a size fits: it must not reach over the end.
pub open spec fn is_room(side: int, size: int, room: int) -> bool {
    forall|at: int| #![trigger fits_at(side, size, at)] 0 <= at < room <==> fits_at(side, size, at)
}

/// Whether something of a size fits at a place along a side.
pub open spec fn fits_at(side: int, size: int, at: int) -> bool {
    0 <= at && at + size <= side
}

/// A lesson is kept exactly if its factory delivers to a sink.
pub proof fn law_only_working_factories_are_lessons(s: SampleView)
    ensures
        templates::working(s) is Some <==> sim::functional(s.solution),
        templates::working(s) is Some ==> templates::working(s) == Some(s),
{
}

/// Products, plates and cargo are told apart by their places.
pub proof fn law_what_is_chosen_from(k: int)
    ensures
        templates::single_input_product(0) is IronGear,
        templates::single_input_product(1) is CopperCable,
        templates::product(0) is IronGear,
        templates::product(1) is CopperCable,
        templates::product(2) is GreenCircuit,
        templates::plate(0) is IronPlate,
        templates::plate(1) is CopperPlate,
        routed::cargo(0) is IronPlate,
        routed::cargo(1) is CopperPlate,
        routed::cargo(2) is GreenCircuit,
        templates::single_input_product(k).inputs().len() == 1,
        templates::product(k).is_crafted(),
{
}

/// A crafting line is drawn from all rows and then all columns where it fits, and from the
/// two products of one ingredient.
pub proof fn law_what_a_crafting_line_is_drawn_from(
    canvas: Canvas,
    r: RandomStream,
    columns: int,
    rows: int,
)
    requires
        canvas.width >= 7 && canvas.height >= 3,
        is_room(canvas.width as int, 7, columns),
        is_room(canvas.height as int, 3, rows),
    ensures
        ({
            let (y, r1) = r.roll(rows);
            let (x, r2) = r1.roll(columns);
            let (k, r3) = r2.select(2);
            let (s, after) = templates::line_lesson(canvas, r);
            let all = templates::line_sample(canvas, x, y, templates::single_input_product(k));
            &&& after == r3
            &&& s is Some <==> sim::functional(all.solution)
            &&& s is Some ==> s == Some(all)
        }),
{
    lemma_room(canvas.width as int, 7, columns);
    lemma_room(canvas.height as int, 3, rows);
}

/// There are as many places as the side is longer than the size, and one more.
proof fn lemma_room(side: int, size: int, room: int)
    requires
        0 <= size <= side,
        is_room(side, size, room),
    ensures
        room == side - size + 1,
{
    assert(fits_at(side, size, 0));
    assert(fits_at(side, size, side - size));
    assert(!fits_at(side, size, side - size + 1));
    if room > side - size + 1 {
        assert(0 <= side - size + 1 < room);
    }
}

/// A direct recipe is drawn from all columns and then all rows where it fits, from all
/// products, and from all orders of their ingredients.
pub proof fn law_what_a_direct_recipe_is_drawn_from(
    canvas: Canvas,
    r: RandomStream,
    columns: int,
    rows: int,
)
    requires
        canvas.width >= 7 && canvas.height >= 5,
        is_room(canvas.width as int, 7, columns),
        is_room(canvas.height as int, 5, rows),
    ensures
        ({
            let (x, r1) = r.roll(columns);
            let (y, r2) = r1.roll(rows);
            let (k, r3) = r2.select(3);
            let made = templates::product(k);
            let (order, r4) = r3.permute(random::upto(made.inputs().len()));
            let fed = Seq::new(order.len(), |i: int| made.inputs()[order[i] as int].item);
            let (s, after) = templates::direct_lesson(canvas, r);
            let all = templates::direct_sample(canvas, x, y, made, fed);
            &&& after == r4
            &&& s is Some <==> sim::functional(all.solution)
            &&& s is Some ==> s == Some(all)
        }),
{
    lemma_room(canvas.width as int, 7, columns);
    lemma_room(canvas.height as int, 5, rows);
    let (x, r1) = r.roll(columns);
    let (y, r2) = r1.roll(rows);
    let (k, r3) = r2.select(3);
    let made = templates::product(k);
    let (order, r4) = r3.permute(random::upto(made.inputs().len()));
    assert(Seq::new(order.len(), |i: int| made.inputs()[order[i] as int].item)
        =~= templates::ordered_inputs(made, order));
}

/// A tunnel is drawn from all rows and then all columns where it fits, and from the two
/// plates.
pub proof fn law_what_a_tunnel_is_drawn_from(
    canvas: Canvas,
    r: RandomStream,
    columns: int,
    rows: int,
)
    requires
        canvas.width >= 7 && canvas.height >= 1,
        is_room(canvas.width as int, 7, columns),
        is_room(canvas.height as int, 1, rows),
    ensures
        ({
            let (y, r1) = r.roll(rows);
            let (x, r2) = r1.roll(columns);
            let (k, r3) = r2.select(2);
            let (s, after) = templates::cross_lesson(canvas, r);
            let all = templates::cross_sample(canvas, x, y, templates::plate(k));
            &&& after == r3
            &&& s is Some <==> sim::functional(all.solution)
            &&& s is Some ==> s == Some(all)
        }),
{
    lemma_room(canvas.width as int, 7, columns);
    lemma_room(canvas.height as int, 1, rows);
}

/// A bank is drawn from all rows and then all columns where it fits, from the two products
/// of one ingredient, and from one to three lines.
pub proof fn law_what_a_bank_is_drawn_from(canvas: Canvas, r: RandomStream, columns: int, rows: int)
    requires
        canvas.width >= 7 && canvas.height >= 9,
        is_room(canvas.width as int, 7, columns),
        is_room(canvas.height as int, 9, rows),
    ensures
        ({
            let (y, r1) = r.roll(rows);
            let (x, r2) = r1.roll(columns);
            let (k, r3) = r2.select(2);
            let (more, r4) = r3.roll(3);
            let (s, after) = choices::bank_lesson(canvas, r);
            let all = choices::bank_sample(
                canvas,
                x,
                y,
                templates::single_input_product(k),
                1 + more,
            );
            &&& after == r4
            &&& s is Some <==> sim::functional(all.solution)
            &&& s is Some ==> s == Some(all)
        }),
{
    lemma_room(canvas.width as int, 7, columns);
    lemma_room(canvas.height as int, 9, rows);
}

/// A circuit line is drawn from all columns and then all rows where it fits, and from one
/// to three cable inserters.
pub proof fn law_what_a_circuit_line_is_drawn_from(
    canvas: Canvas,
    r: RandomStream,
    columns: int,
    rows: int,
)
    requires
        canvas.width >= 11 && canvas.height >= 5,
        is_room(canvas.width as int, 11, columns),
        is_room(canvas.height as int, 5, rows),
    ensures
        ({
            let (x, r1) = r.roll(columns);
            let (y, r2) = r1.roll(rows);
            let (more, r3) = r2.roll(3);
            let (s, after) = choices::circuit_lesson(canvas, r);
            let all = choices::circuit_sample(canvas, x, y, 1 + more);
            &&& after == r3
            &&& s is Some <==> sim::functional(all.solution)
            &&& s is Some ==> s == Some(all)
        }),
{
    lemma_room(canvas.width as int, 11, columns);
    lemma_room(canvas.height as int, 5, rows);
}

/// A shared line is drawn from all columns and then all rows where it fits, from the two
/// products of one ingredient, and from one or two branches.
pub proof fn law_what_a_shared_line_is_drawn_from(
    canvas: Canvas,
    r: RandomStream,
    columns: int,
    rows: int,
)
    requires
        canvas.width >= 11 && canvas.height >= 7,
        is_room(canvas.width as int, 11, columns),
        is_room(canvas.height as int, 7, rows),
    ensures
        ({
            let (x, r1) = r.roll(columns);
            let (y, r2) = r1.roll(rows);
            let (k, r3) = r2.select(2);
            let (more, r4) = r3.roll(2);
            let (s, after) = choices::shared_lesson(canvas, r);
            let all = choices::shared_sample(
                canvas,
                x,
                y,
                templates::single_input_product(k),
                1 + more,
            );
            &&& after == r4
            &&& s is Some <==> sim::functional(all.solution)
            &&& s is Some ==> s == Some(all)
        }),
{
    lemma_room(canvas.width as int, 11, columns);
    lemma_room(canvas.height as int, 7, rows);
}

/// There is one obstacle for every ten tiles, and at least one.
pub proof fn law_one_obstacle_for_every_ten_tiles(canvas: Canvas)
    ensures
        ({
            let (n, area) = (routed::obstacle_count(canvas), canvas.width * canvas.height);
            &&& n >= 1
            &&& area < 10 * n + 10
            &&& n > 1 ==> 10 * n <= area
        }),
{
}

/// A tile is drawn by its column and then its row.
pub proof fn law_a_tile_is_drawn_by_column_and_row(canvas: Canvas, r: RandomStream)
    ensures
        ({
            let (x, r1) = r.roll(canvas.width as int);
            let (y, r2) = r1.roll(canvas.height as int);
            routed::roll_cell(canvas, r) == ((x, y), r2)
        }),
{
}

/// The stream after so many tiles are drawn from it.
pub open spec fn after_tiles(canvas: Canvas, r: RandomStream, n: nat) -> RandomStream
    decreases n,
{
    if n == 0 {
        r
    } else {
        routed::roll_cell(canvas, after_tiles(canvas, r, (n - 1) as nat)).1
    }
}

/// The tile that is drawn after so many others.
pub open spec fn tile_drawn(canvas: Canvas, r: RandomStream, i: nat) -> (int, int) {
    routed::roll_cell(canvas, after_tiles(canvas, r, i)).0
}

/// Scattering blocks the tiles that are drawn, and no others, and builds nothing.
pub proof fn law_the_drawn_tiles_are_blocked(
    canvas: Canvas,
    r: RandomStream,
    n: nat,
    x: int,
    y: int,
)
    requires
        canvas.holdable(),
        0 <= x < canvas.width && 0 <= y < canvas.height,
        forall|i: nat|
            i < n ==> route::on_canvas(canvas, #[trigger] tile_drawn(canvas, r, i)),
    ensures
        ({
            let (g, after) = routed::scattered(canvas, r, n);
            &&& after == after_tiles(canvas, r, n)
            &&& g.valid()
            &&& (g.width, g.height) == (canvas.width as nat, canvas.height as nat)
            &&& g.at(x, y).entity is Empty
            &&& g.blocked(x, y) <==> exists|i: nat|
                i < n && #[trigger] tile_drawn(canvas, r, i) == (x, y)
        }),
    decreases n,
{
    broadcast use {grid::lemma_slot, grid::lemma_blank_at, grid::lemma_block_at};

    if n > 0 {
        law_the_drawn_tiles_are_blocked(canvas, r, (n - 1) as nat, x, y);
        let (g, before) = routed::scattered(canvas, r, (n - 1) as nat);
        let p = tile_drawn(canvas, r, (n - 1) as nat);
        assert(route::on_canvas(canvas, p));
        assert(g.inside(p.0, p.1) && g.inside(x, y));
        if g.blocked(x, y) {
            let i = choose|i: nat| i < n - 1 && #[trigger] tile_drawn(canvas, r, i) == (x, y);
            assert(tile_drawn(canvas, r, i) == (x, y));
        }
    } else {
        assert(canvas.blank().inside(x, y));
        assert(!canvas.blank().blocked(x, y));
    }
}

/// A run of belts is drawn on a board that has obstacles only if asked to: first the board,
/// then the source, then the sink, then the item. There is none where an end is blocked or
/// the ends are less than two steps apart.
pub proof fn law_what_a_run_of_belts_is_drawn_from(canvas: Canvas, r: RandomStream, chaos: bool)
    requires
        canvas.width >= 3 && canvas.height >= 3,
    ensures
        ({
            let (board, r0) = if chaos {
                routed::scattered(canvas, r, routed::obstacle_count(canvas))
            } else {
                (canvas.blank(), r)
            };
            let (a, r1) = routed::roll_cell(canvas, r0);
            let (b, r2) = routed::roll_cell(canvas, r1);
            let (k, r3) = r2.select(3);
            let (s, after) = routed::move_lesson(canvas, r, chaos);
            let open = !board.blocked(a.0, a.1) && !board.blocked(b.0, b.1);
            &&& s is Some ==> open && route::distance(a, b) >= 2
            &&& open && route::distance(a, b) >= 2 ==> after == r3
            &&& s matches Some(l) ==> {
                &&& l.kind is MoveOneItem <==> !chaos
                &&& l.kind is MoveOneItemChaos <==> chaos
                &&& s == routed::move_answer(board, a, b, routed::cargo(k), l.kind)
            }
        }),
{
}

/// A task with a machine is drawn on a board of obstacles: the product, the source, the
/// sink. There is none where the ends are one tile or one of them is blocked.
pub proof fn law_what_a_machine_task_is_drawn_from(canvas: Canvas, r: RandomStream)
    requires
        canvas.width >= 7 && canvas.height >= 7,
    ensures
        ({
            let (board, r0) = routed::scattered(canvas, r, routed::obstacle_count(canvas));
            let (k, r1) = r0.select(2);
            let (a, r2) = routed::roll_cell(canvas, r1);
            let (b, r3) = routed::roll_cell(canvas, r2);
            let (s, after) = chaos::chaos_lesson(canvas, r);
            let open = !board.blocked(a.0, a.1) && !board.blocked(b.0, b.1) && a != b;
            &&& after == r3
            &&& s is Some ==> open
            &&& open ==> s == chaos::chaos_answer(
                board,
                canvas,
                a,
                b,
                templates::single_input_product(k),
            )
        }),
{
}

} // verus!
