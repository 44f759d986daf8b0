//! What a task shows of its answer.

use vstd::prelude::*;
use crate::factory_gen::canvas::{
    Canvas, BANK_LINES, CABLE_FEEDS, CIRCUIT_H, CIRCUIT_W, LINE_H, LINE_W, SHARED_H,
    SHARED_LINES, SHARED_W,
};
use crate::factory_gen::choices;
use crate::factory_gen::lesson;
use crate::factory_gen::placing;
use crate::factory_gen::templates;
use crate::factory_gen::works;
use crate::world;
use crate::world::grid;
use crate::world::grid::GridView;
use crate::world::Item;

verus! {

broadcast use {grid::lemma_slot, grid::lemma_put_at, grid::lemma_blank_at};

/// Whether `g` holds the given ports, whatever else stands in its rectangle, and
/// nothing outside it.
spec fn built_around(
    g: GridView,
    ports: GridView,
    x0: int,
    y0: int,
    w: int,
    h: int,
    protected: Seq<int>,
) -> bool {
    forall|x: int, y: int| #[trigger]
        g.inside(x, y) ==> if protected.contains(g.slot(x, y)) {
            g.at(x, y) == ports.at(x, y) && lesson::is_port(g.at(x, y))
        } else {
            &&& ports.at(x, y) == world::empty_cell()
            &&& !lesson::is_port(g.at(x, y))
            &&& !(x0 <= x < x0 + w && y0 <= y < y0 + h) ==> g.at(x, y) == world::empty_cell()
        }
}

/// A region holds slots of its rectangle only.
proof fn lemma_region_within(
    g: GridView,
    x0: int,
    y0: int,
    w: int,
    h: int,
    except: Seq<int>,
    n: nat,
    x: int,
    y: int,
)
    requires
        0 <= x0,
        0 <= y0,
        0 < w,
        x0 + w <= g.width,
        y0 + h <= g.height,
        n <= w * h,
        g.inside(x, y),
        templates::region(g, x0, y0, w, except, n).contains(g.slot(x, y)),
    ensures
        x0 <= x < x0 + w,
        y0 <= y < y0 + h,
        !except.contains(g.slot(x, y)),
    decreases n,
{
    let all = templates::region(g, x0, y0, w, except, n);
    if n > 0 {
        let rest = templates::region(g, x0, y0, w, except, (n - 1) as nat);
        let i = all.index_of(g.slot(x, y));
        if i < rest.len() {
            assert(rest[i] == g.slot(x, y));
            lemma_region_within(g, x0, y0, w, h, except, (n - 1) as nat, x, y);
        } else {
            templates::lemma_region_tile(g, x0, y0, w, h, n - 1);
            grid::lemma_slot_injective(g, x, y, x0 + (n - 1) % w, y0 + (n - 1) / w);
        }
    }
}

/// Both ways of blanking leave the ports and nothing else.
proof fn lemma_shown(
    g: GridView,
    ports: GridView,
    x0: int,
    y0: int,
    w: int,
    h: int,
    protected: Seq<int>,
)
    requires
        g.valid(),
        ports.valid(),
        ports.width == g.width,
        ports.height == g.height,
        ports.obstacle == g.obstacle,
        0 <= x0,
        0 <= y0,
        0 < w,
        0 < h,
        x0 + w <= g.width,
        y0 + h <= g.height,
        built_around(g, ports, x0, y0, w, h, protected),
    ensures
        lesson::ports_only(g) == ports,
        lesson::emptied(g, templates::region(g, x0, y0, w, protected, (w * h) as nat)) == ports,
{
    let removable = templates::region(g, x0, y0, w, protected, (w * h) as nat);
    assert(w * h >= 0) by (nonlinear_arith)
        requires
            0 < w,
            0 < h,
    ;
    assert forall|i: int| 0 <= i < g.cells.len() implies lesson::ports_only(g).cells[i]
        == ports.cells[i] && lesson::emptied(g, removable).cells[i] == ports.cells[i] by {
        grid::lemma_slot_surjective(g, i);
        let (x, y) = (i % (g.width as int), i / (g.width as int));
        assert(g.inside(x, y));
        assert(g.at(x, y) == g.cells[i] && ports.at(x, y) == ports.cells[i]);
        if removable.contains(i) {
            lemma_region_within(g, x0, y0, w, h, protected, (w * h) as nat, x, y);
        } else if !protected.contains(i) && x0 <= x < x0 + w && y0 <= y < y0 + h {
            let (dx, dy) = (x - x0, y - y0);
            let k = dy * w + dx;
            assert(0 <= k < w * h) by (nonlinear_arith)
                requires
                    0 <= dx < w,
                    0 <= dy < h,
                    k == dy * w + dx,
            ;
            vstd::arithmetic::div_mod::lemma_fundamental_div_mod_converse(k, w, dy, dx);
            templates::lemma_region_holds(g, x0, y0, w, protected, (w * h) as nat, k);
        }
    }
    assert(lesson::ports_only(g) =~= ports);
    assert(lesson::emptied(g, removable) =~= ports);
}

/// Neither the scaffold nor a blanked bank tells how many lines its answer builds: both
/// show the sources and the sink alone, whatever the count is.
pub proof fn law_bank_shows_its_ports_only(
    canvas: Canvas,
    x0: int,
    y0: int,
    recipe: Item,
    lines: int,
)
    requires
        canvas.holdable(),
        0 <= x0 && x0 + LINE_W <= canvas.width,
        0 <= y0 && y0 + LINE_H * BANK_LINES <= canvas.height,
        1 <= lines <= BANK_LINES,
    ensures
        ({
            let s = choices::bank_sample(canvas, x0, y0, recipe, lines);
            let ports = choices::bank_ports(canvas, x0, y0, recipe);
            &&& lesson::ports_only(s.solution) == ports
            &&& lesson::emptied(s.solution, s.removable) == ports
        }),
{
    let s = choices::bank_sample(canvas, x0, y0, recipe, lines);
    let g = s.solution;
    let ports = choices::bank_ports(canvas, x0, y0, recipe);
    let first = BANK_LINES - lines;
    let built = choices::bank_lines(ports, x0, y0, recipe, first, 3);
    let from = y0 + LINE_H * first + 1;
    works::lemma_bank_lines_at(ports, x0, y0, recipe, first, 3, x0, y0);
    works::lemma_column_at(built, x0 + 6, from, y0 + 7, x0, y0);
    assert(s.protected.contains(s.protected[0]) && s.protected.contains(s.protected[1])
        && s.protected.contains(s.protected[2]) && s.protected.contains(s.protected[3]));
    assert forall|x: int, y: int| #[trigger] g.inside(x, y) implies if s.protected.contains(
        g.slot(x, y),
    ) {
        g.at(x, y) == ports.at(x, y) && lesson::is_port(g.at(x, y))
    } else {
        &&& ports.at(x, y) == world::empty_cell()
        &&& !lesson::is_port(g.at(x, y))
        &&& !(x0 <= x < x0 + 7 && y0 <= y < y0 + 9) ==> g.at(x, y) == world::empty_cell()
    } by {
        works::lemma_bank_lines_at(ports, x0, y0, recipe, first, 3, x, y);
        works::lemma_column_at(built, x0 + 6, from, y0 + 7, x, y);
        if s.protected.contains(g.slot(x, y)) {
            let k = s.protected.index_of(g.slot(x, y));
            if k < 3 {
                grid::lemma_slot_injective(g, x, y, x0, y0 + 1 + 3 * k);
            } else {
                grid::lemma_slot_injective(g, x, y, x0 + 6, y0 + 7);
            }
        }
    }
    lemma_shown(g, ports, x0, y0, 7, 9, s.protected);
}

/// Banks that build different numbers of lines are different answers to one task.
pub proof fn law_bank_answers_differ(
    canvas: Canvas,
    x0: int,
    y0: int,
    recipe: Item,
    few: int,
    many: int,
)
    requires
        canvas.holdable(),
        0 <= x0 && x0 + LINE_W <= canvas.width,
        0 <= y0 && y0 + LINE_H * BANK_LINES <= canvas.height,
        1 <= few < many <= BANK_LINES,
    ensures
        choices::bank_grid(canvas, x0, y0, recipe, few) != choices::bank_grid(
            canvas,
            x0,
            y0,
            recipe,
            many,
        ),
{
    let ports = choices::bank_ports(canvas, x0, y0, recipe);
    let a = choices::bank_grid(canvas, x0, y0, recipe, few);
    let b = choices::bank_grid(canvas, x0, y0, recipe, many);
    let (fa, fb) = (BANK_LINES - few, BANK_LINES - many);
    let row = y0 + LINE_H * fb + 1;
    let la = choices::bank_lines(ports, x0, y0, recipe, fa, 3);
    let lb = choices::bank_lines(ports, x0, y0, recipe, fb, 3);
    works::lemma_bank_lines_at(ports, x0, y0, recipe, fa, 3, x0 + 6, row);
    works::lemma_bank_lines_at(ports, x0, y0, recipe, fb, 3, x0 + 6, row);
    works::lemma_column_at(la, x0 + 6, y0 + LINE_H * fa + 1, y0 + 7, x0 + 6, row);
    works::lemma_column_at(lb, x0 + 6, y0 + LINE_H * fb + 1, y0 + 7, x0 + 6, row);
    assert(a.at(x0 + 6, row).entity is Empty);
    assert(b.at(x0 + 6, row).entity is TransportBelt);
}

/// The sources and the sink of a circuit line.
pub open spec fn circuit_ports(canvas: Canvas, x0: int, y0: int) -> GridView {
    canvas.blank().put(x0, y0 + 3, placing::source_cell(Item::CopperPlate)).put(
        x0 + 6,
        y0,
        placing::source_cell(Item::IronPlate),
    ).put(x0 + 10, y0 + 3, placing::sink_cell(Item::GreenCircuit))
}

/// Neither the scaffold nor a blanked circuit line tells how many cable inserters its
/// answer builds.
pub proof fn law_circuit_shows_its_ports_only(canvas: Canvas, x0: int, y0: int, feeds: int)
    requires
        canvas.holdable(),
        0 <= x0 && x0 + CIRCUIT_W <= canvas.width,
        0 <= y0 && y0 + CIRCUIT_H <= canvas.height,
        1 <= feeds <= CABLE_FEEDS,
    ensures
        ({
            let s = choices::circuit_sample(canvas, x0, y0, feeds);
            let ports = circuit_ports(canvas, x0, y0);
            &&& lesson::ports_only(s.solution) == ports
            &&& lesson::emptied(s.solution, s.removable) == ports
        }),
{
    let s = choices::circuit_sample(canvas, x0, y0, feeds);
    let g = s.solution;
    let ports = circuit_ports(canvas, x0, y0);
    let frame = choices::circuit_frame(canvas, x0, y0);
    works::lemma_feeds_at(frame, x0, y0, feeds, x0, y0);
    assert(s.protected.contains(s.protected[0]) && s.protected.contains(s.protected[1])
        && s.protected.contains(s.protected[2]));
    assert forall|x: int, y: int| #[trigger] g.inside(x, y) implies if s.protected.contains(
        g.slot(x, y),
    ) {
        g.at(x, y) == ports.at(x, y) && lesson::is_port(g.at(x, y))
    } else {
        &&& ports.at(x, y) == world::empty_cell()
        &&& !lesson::is_port(g.at(x, y))
        &&& !(x0 <= x < x0 + 11 && y0 <= y < y0 + 5) ==> g.at(x, y) == world::empty_cell()
    } by {
        works::lemma_feeds_at(frame, x0, y0, feeds, x, y);
        if s.protected.contains(g.slot(x, y)) {
            let k = s.protected.index_of(g.slot(x, y));
            if k == 0 {
                grid::lemma_slot_injective(g, x, y, x0, y0 + 3);
            } else if k == 1 {
                grid::lemma_slot_injective(g, x, y, x0 + 6, y0);
            } else {
                grid::lemma_slot_injective(g, x, y, x0 + 10, y0 + 3);
            }
        }
    }
    lemma_shown(g, ports, x0, y0, 11, 5, s.protected);
}

/// Circuit lines with different numbers of cable inserters are different answers to one
/// task.
pub proof fn law_circuit_answers_differ(canvas: Canvas, x0: int, y0: int, few: int, many: int)
    requires
        canvas.holdable(),
        0 <= x0 && x0 + CIRCUIT_W <= canvas.width,
        0 <= y0 && y0 + CIRCUIT_H <= canvas.height,
        1 <= few < many <= CABLE_FEEDS,
    ensures
        choices::circuit_grid(canvas, x0, y0, few) != choices::circuit_grid(canvas, x0, y0, many),
{
    let frame = choices::circuit_frame(canvas, x0, y0);
    let row = y0 + 2 + (many - 1);
    works::lemma_feeds_at(frame, x0, y0, few, x0 + 5, row);
    works::lemma_feeds_at(frame, x0, y0, many, x0 + 5, row);
    assert(choices::circuit_grid(canvas, x0, y0, few).at(x0 + 5, row).entity is Empty);
    assert(choices::circuit_grid(canvas, x0, y0, many).at(x0 + 5, row).entity is Inserter);
}

/// Neither the scaffold nor a blanked shared line tells how many branches its answer
/// builds.
pub proof fn law_shared_line_shows_its_ports_only(
    canvas: Canvas,
    x0: int,
    y0: int,
    recipe: Item,
    branches: int,
)
    requires
        canvas.holdable(),
        0 <= x0 && x0 + SHARED_W <= canvas.width,
        0 <= y0 && y0 + SHARED_H <= canvas.height,
        1 <= branches <= SHARED_LINES,
    ensures
        ({
            let s = choices::shared_sample(canvas, x0, y0, recipe, branches);
            let ports = choices::shared_ports(canvas, x0, y0, recipe);
            &&& lesson::ports_only(s.solution) == ports
            &&& lesson::emptied(s.solution, s.removable) == ports
        }),
{
    let s = choices::shared_sample(canvas, x0, y0, recipe, branches);
    let g = s.solution;
    let ports = choices::shared_ports(canvas, x0, y0, recipe);
    let head = choices::shared_head(ports, x0, y0, branches);
    let upper = choices::shared_branch(head, x0, y0, recipe);
    let both = if branches > 1 {
        choices::shared_branch(upper, x0, y0 + 4, recipe)
    } else {
        upper
    };
    works::lemma_column_at(both, x0 + 10, y0, y0 + 4, x0, y0);
    assert(s.protected.contains(s.protected[0]) && s.protected.contains(s.protected[1]));
    assert forall|x: int, y: int| #[trigger] g.inside(x, y) implies if s.protected.contains(
        g.slot(x, y),
    ) {
        g.at(x, y) == ports.at(x, y) && lesson::is_port(g.at(x, y))
    } else {
        &&& ports.at(x, y) == world::empty_cell()
        &&& !lesson::is_port(g.at(x, y))
        &&& !(x0 <= x < x0 + 11 && y0 <= y < y0 + 7) ==> g.at(x, y) == world::empty_cell()
    } by {
        works::lemma_column_at(both, x0 + 10, y0, y0 + 4, x, y);
        lemma_branch_at(head, x0, y0, recipe, x, y);
        lemma_branch_at(upper, x0, y0 + 4, recipe, x, y);
        if s.protected.contains(g.slot(x, y)) {
            let k = s.protected.index_of(g.slot(x, y));
            if k == 0 {
                grid::lemma_slot_injective(g, x, y, x0, y0);
            } else {
                grid::lemma_slot_injective(g, x, y, x0 + 10, y0 + 4);
            }
        }
    }
    lemma_shown(g, ports, x0, y0, 11, 7, s.protected);
}

/// A branch changes the columns between the head and the collector only, and adds no
/// source or sink.
proof fn lemma_branch_at(g: GridView, x0: int, y: int, recipe: Item, a: int, b: int)
    requires
        g.valid(),
        0 <= x0 && x0 + 11 <= g.width,
        0 <= y < g.height,
        g.inside(a, b),
    ensures
        choices::shared_branch(g, x0, y, recipe).valid(),
        !(x0 + 3 <= a <= x0 + 9 && b == y) ==> choices::shared_branch(g, x0, y, recipe).at(a, b)
            == g.at(a, b),
        !lesson::is_port(g.at(a, b)) ==> !lesson::is_port(
            choices::shared_branch(g, x0, y, recipe).at(a, b),
        ),
{
}

/// Shared lines with one branch and with two are different answers to one task.
pub proof fn law_shared_answers_differ(canvas: Canvas, x0: int, y0: int, recipe: Item)
    requires
        canvas.holdable(),
        0 <= x0 && x0 + SHARED_W <= canvas.width,
        0 <= y0 && y0 + SHARED_H <= canvas.height,
    ensures
        choices::shared_grid(canvas, x0, y0, recipe, 1) != choices::shared_grid(
            canvas,
            x0,
            y0,
            recipe,
            2,
        ),
{
    works::lemma_shared_row(canvas, x0, y0, recipe, 1);
    works::lemma_shared_row(canvas, x0, y0, recipe, 2);
    assert(choices::shared_grid(canvas, x0, y0, recipe, 1).at(x0 + 2, y0).entity is TransportBelt);
}

} // verus!
