//! Lessons with more than one right answer: how much of the layout gets built is
//! drawn, and the task does not tell.

use vstd::prelude::*;
use crate::factory_gen::aim;
use crate::factory_gen::canvas::{
    Canvas, LessonKind, BANK_LINES, CABLE_FEEDS, CIRCUIT_H, CIRCUIT_W, LINE_H, LINE_W,
    SHARED_H, SHARED_LINES, SHARED_W,
};
use crate::factory_gen::lesson;
use crate::factory_gen::lesson::{Sample, SampleView};
use crate::factory_gen::placing;
use crate::factory_gen::placing::{inserter, machine, place, sink, source, splitter};
use crate::factory_gen::templates;
use crate::factory_gen::templates::{finish, open_region};
use crate::factory_gen::works;
use crate::random::RandomStream;
use crate::sim;
use crate::throughput::delivery;
use crate::world::grid;
use crate::world::grid::GridView;
use crate::world::{Cell, Direction, Grid, Item};

verus! {

broadcast use {grid::lemma_slot, grid::lemma_put_at, grid::lemma_blank_at};

/// The sources and the sink of a bank of lines whose top-left tile is `(x0, y0)`.
pub open spec fn bank_ports(canvas: Canvas, x0: int, y0: int, recipe: Item) -> GridView {
    let feed = placing::source_cell(recipe.inputs()[0].item);
    canvas.blank().put(x0, y0 + 1, feed).put(x0, y0 + 4, feed).put(x0, y0 + 7, feed).put(
        x0 + 6,
        y0 + 7,
        placing::sink_cell(recipe),
    )
}

/// The machines and inserters of the lines from `first` to before `end`.
pub open spec fn bank_lines(
    g: GridView,
    x0: int,
    y0: int,
    recipe: Item,
    first: int,
    end: int,
) -> GridView
    decreases end - first,
{
    if end <= first {
        g
    } else {
        let top = y0 + LINE_H * (end - 1);
        bank_lines(g, x0, y0, recipe, first, end - 1).put(
            x0 + 1,
            top + 1,
            placing::inserter_cell(Direction::East),
        ).put(x0 + 2, top, placing::machine_cell(recipe)).put(
            x0 + 5,
            top + 1,
            placing::inserter_cell(Direction::East),
        )
    }
}

/// Belts that face south in column `x` from row `from` to before row `end`.
pub open spec fn south_column(g: GridView, x: int, from: int, end: int) -> GridView
    decreases end - from,
{
    if end <= from {
        g
    } else {
        south_column(g, x, from, end - 1).put(x, end - 1, Cell::belt_cell(Direction::South))
    }
}

/// A bank of up to three crafting lines, of which the lowest `lines` are built, with
/// one column of belts that carries their output to the shared sink:
///
/// ```text
///   . . A A A . .
///   S i A A A i v
///   . . A A A . v
///   . . A A A . v
///   S i A A A i v
///   . . A A A . v
///   . . A A A . v
///   S i A A A i K
///   . . A A A . .
/// ```
pub open spec fn bank_grid(canvas: Canvas, x0: int, y0: int, recipe: Item, lines: int) -> GridView {
    let first = BANK_LINES - lines;
    south_column(
        bank_lines(
            bank_ports(canvas, x0, y0, recipe),
            x0,
            y0,
            recipe,
            first,
            BANK_LINES as int,
        ),
        x0 + 6,
        y0 + LINE_H * first + 1,
        y0 + 7,
    )
}

/// The bank as a lesson: everything in its rectangle but the sources and the sink may
/// be blanked, so that what is left does not tell how many lines are built.
pub open spec fn bank_sample(
    canvas: Canvas,
    x0: int,
    y0: int,
    recipe: Item,
    lines: int,
) -> SampleView {
    let g = bank_grid(canvas, x0, y0, recipe, lines);
    let protected = seq![
        g.slot(x0, y0 + 1),
        g.slot(x0, y0 + 4),
        g.slot(x0, y0 + 7),
        g.slot(x0 + 6, y0 + 7),
    ];
    SampleView {
        kind: LessonKind::AssemblerBank,
        solution: g,
        protected,
        removable: templates::region(g, x0, y0, LINE_W as int, protected, 63),
    }
}

/// Whether a tile is one of the bank's sources or its sink.
spec fn bank_port(x0: int, y0: int, x: int, y: int) -> bool {
    x == x0 && (y == y0 + 1 || y == y0 + 4 || y == y0 + 7) || x == x0 + 6 && y == y0 + 7
}

/// Whether a tile is taken by one of the lines from `first` to before `end`.
spec fn bank_line_tile(x0: int, y0: int, first: int, end: int, x: int, y: int) -> bool {
    &&& LINE_H * first <= y - y0 < LINE_H * end
    &&& x0 + 2 <= x <= x0 + 4 || (x == x0 + 1 || x == x0 + 5) && (y - y0) % 3 == 1
}

/// Lay out a bank of which `lines` lines are built.
pub fn build_assembler_bank(
    canvas: Canvas,
    x0: usize,
    y0: usize,
    recipe: Item,
    lines: usize,
) -> (r: Option<Sample>)
    requires
        canvas.holdable(),
        x0 + LINE_W <= canvas.width,
        y0 + LINE_H * BANK_LINES <= canvas.height,
        recipe.is_crafted(),
        1 <= lines <= BANK_LINES,
    ensures
        r is Some <==> sim::functional(
            bank_grid(canvas, x0 as int, y0 as int, recipe, lines as int),
        ),
        r matches Some(s) ==> s@ == bank_sample(
            canvas,
            x0 as int,
            y0 as int,
            recipe,
            lines as int,
        ) && s@.sound() && aim::aimed(s@.solution),
        recipe.inputs().len() == 1 ==> {
            &&& r matches Some(s)
            &&& delivery::feeds_a_sink(s@.solution)
        },
{
    let inputs = recipe.ingredients();
    let feed = source(inputs[0].item);
    let mut grid = canvas.grid();
    proof {
        placing::lemma_bare(grid@);
    }
    place(&mut grid, x0, y0 + 1, feed);
    place(&mut grid, x0, y0 + 4, feed);
    place(&mut grid, x0, y0 + 7, feed);
    place(&mut grid, x0 + 6, y0 + 7, sink(recipe));
    let ghost base = grid@;
    let first: usize = BANK_LINES - lines;
    let mut j: usize = first;
    while j < BANK_LINES
        invariant
            grid.wf(),
            grid@.consistent(),
            grid.width == canvas.width,
            grid.height == canvas.height,
            grid@.obstacle == canvas.blank().obstacle,
            canvas.holdable(),
            x0 + LINE_W <= canvas.width,
            y0 + 9 <= canvas.height,
            first <= j <= BANK_LINES,
            grid@ == bank_lines(base, x0 as int, y0 as int, recipe, first as int, j as int),
            forall|x: int, y: int| #[trigger]
                placing::taken(grid@, x, y) <==> bank_port(x0 as int, y0 as int, x, y)
                    || bank_line_tile(x0 as int, y0 as int, first as int, j as int, x, y),
            forall|x: int, y: int| #[trigger]
                grid@.inside(x, y) ==> (lesson::is_port(grid@.at(x, y)) <==> bank_port(
                    x0 as int,
                    y0 as int,
                    x,
                    y,
                )),
        decreases BANK_LINES - j,
    {
        let top: usize = y0 + LINE_H * j;
        let ghost before = grid@;
        place(&mut grid, x0 + 1, top + 1, inserter(Direction::East));
        place(&mut grid, x0 + 2, top, machine(recipe));
        place(&mut grid, x0 + 5, top + 1, inserter(Direction::East));
        assert forall|x: int, y: int| #[trigger] grid@.inside(x, y) implies (lesson::is_port(
            grid@.at(x, y),
        ) <==> bank_port(x0 as int, y0 as int, x, y)) by {
            assert(before.inside(x, y));
        }
        j = j + 1;
    }
    let ghost built = grid@;
    let column: usize = x0 + 6;
    let start: usize = y0 + LINE_H * first + 1;
    let mut y: usize = start;
    while y < y0 + 7
        invariant
            grid.wf(),
            grid@.consistent(),
            grid.width == canvas.width,
            grid.height == canvas.height,
            grid@.obstacle == canvas.blank().obstacle,
            canvas.holdable(),
            x0 + LINE_W <= canvas.width,
            y0 + 9 <= canvas.height,
            column == x0 + 6,
            y0 < start <= y <= y0 + 7,
            first < BANK_LINES,
            grid@ == south_column(built, column as int, start as int, y as int),
            forall|tx: int, ty: int| #[trigger]
                placing::taken(grid@, tx, ty) <==> bank_port(x0 as int, y0 as int, tx, ty)
                    || bank_line_tile(
                    x0 as int,
                    y0 as int,
                    first as int,
                    BANK_LINES as int,
                    tx,
                    ty,
                ) || tx == column && start <= ty < y,
            forall|tx: int, ty: int| #[trigger]
                grid@.inside(tx, ty) ==> (lesson::is_port(grid@.at(tx, ty)) <==> bank_port(
                    x0 as int,
                    y0 as int,
                    tx,
                    ty,
                )),
        decreases y0 + 7 - y,
    {
        let ghost before = grid@;
        place(&mut grid, column, y, Cell::belt(Direction::South));
        assert forall|tx: int, ty: int| #[trigger] grid@.inside(tx, ty) implies (lesson::is_port(
            grid@.at(tx, ty),
        ) <==> bank_port(x0 as int, y0 as int, tx, ty)) by {
            assert(before.inside(tx, ty));
        }
        y = y + 1;
    }
    let ghost g = grid@;
    assert(g == bank_grid(canvas, x0 as int, y0 as int, recipe, lines as int));
    proof {
        aim::lemma_bank_aimed(canvas, x0 as int, y0 as int, recipe, lines as int);
        if recipe.inputs().len() == 1 {
            works::lemma_bank_works(canvas, x0 as int, y0 as int, recipe, lines as int);
            delivery::law_what_feeds_a_sink_works(g);
        }
    }
    assert(grid.cells.len() <= usize::MAX);
    let protected = vec![
        grid.idx(x0, y0 + 1),
        grid.idx(x0, y0 + 4),
        grid.idx(x0, y0 + 7),
        grid.idx(x0 + 6, y0 + 7),
    ];
    let removable = open_region(&grid, x0, y0, LINE_W, LINE_H * BANK_LINES, &protected);
    proof {
        let want = bank_sample(canvas, x0 as int, y0 as int, recipe, lines as int).protected;
        assert(lesson::ints(protected@) =~= want);
        assert(want.contains(want[0]) && want.contains(want[1]) && want.contains(want[2])
            && want.contains(want[3]));
        assert(templates::ports_among(g, want));
        templates::lemma_ports_listed(g, want);
        assert(g.inside(x0 as int, y0 + 1) && g.inside(x0 as int, y0 + 4) && g.inside(
            x0 as int,
            y0 + 7,
        ) && g.inside(x0 + 6, y0 + 7) && g.inside(x0 + 1, y0 as int));
        assert(lesson::is_port(g.at(x0 as int, y0 + 1)));
        assert(lesson::is_port(g.at(x0 as int, y0 + 4)));
        assert(lesson::is_port(g.at(x0 as int, y0 + 7)));
        assert(lesson::is_port(g.at(x0 + 6, y0 + 7)));
        assert(!want.contains(g.slot(x0 + 1, y0 as int))) by {
            assert(!lesson::is_port(g.at(x0 + 1, y0 as int)));
        }
        templates::lemma_free_region(
            g,
            x0 as int,
            y0 as int,
            LINE_W as int,
            9,
            want,
            x0 + 1,
            y0 as int,
        );
    }
    finish(LessonKind::AssemblerBank, grid, protected, removable)
}

/// Which bank, if any, is drawn from a stream, and the stream afterwards.
pub open spec fn bank_lesson(canvas: Canvas, r: RandomStream) -> (Option<SampleView>, RandomStream) {
    if !LessonKind::AssemblerBank.fits_on(canvas) {
        (None, r)
    } else {
        let (y0, r) = r.roll(canvas.height - 9 + 1);
        let (x0, r) = r.roll(canvas.width - LINE_W + 1);
        let (k, r) = r.select(2);
        let (extra, r) = r.roll(BANK_LINES as int);
        (
            templates::working(
                bank_sample(canvas, x0, y0, templates::single_input_product(k), 1 + extra),
            ),
            r,
        )
    }
}

/// Draw a bank, and how many of its lines are built.
pub fn gen_assembler_bank(canvas: Canvas, rng: &mut RandomStream) -> (r: Option<Sample>)
    requires
        canvas.holdable(),
    ensures
        (templates::sample_option(r), *final(rng)) == bank_lesson(canvas, *old(rng)),
        r matches Some(s) ==> s@.sound() && aim::aimed(s@.solution),
        r matches Some(s) ==> delivery::feeds_a_sink(s@.solution),
        r is Some <==> LessonKind::AssemblerBank.fits_on(canvas),
{
    let bank = LessonKind::AssemblerBank.min_canvas();
    if !LessonKind::AssemblerBank.fits(canvas) {
        return None;
    }
    let y0 = rng.below(canvas.height - bank.height + 1);
    let x0 = rng.below(canvas.width - bank.width + 1);
    let products = Item::single_input_craftable();
    let recipe = products[rng.pick(2)];
    let lines = 1 + rng.below(BANK_LINES);
    build_assembler_bank(canvas, x0, y0, recipe, lines)
}

/// The inserters that carry cable, the topmost `n` of three.
pub open spec fn cable_feeds(g: GridView, x0: int, y0: int, n: int) -> GridView
    decreases n,
{
    if n <= 0 {
        g
    } else {
        cable_feeds(g, x0, y0, n - 1).put(
            x0 + 5,
            y0 + 2 + (n - 1),
            placing::inserter_cell(Direction::East),
        )
    }
}

/// The sources, the sink and the two machines of a circuit line, with the inserters
/// that bring the plates in.
pub open spec fn circuit_frame(canvas: Canvas, x0: int, y0: int) -> GridView {
    canvas.blank().put(x0, y0 + 3, placing::source_cell(Item::CopperPlate)).put(
        x0 + 6,
        y0,
        placing::source_cell(Item::IronPlate),
    ).put(x0 + 10, y0 + 3, placing::sink_cell(Item::GreenCircuit)).put(
        x0 + 1,
        y0 + 3,
        placing::inserter_cell(Direction::East),
    ).put(x0 + 2, y0 + 2, placing::machine_cell(Item::CopperCable)).put(
        x0 + 6,
        y0 + 1,
        placing::inserter_cell(Direction::South),
    ).put(x0 + 6, y0 + 2, placing::machine_cell(Item::GreenCircuit))
}

/// Copper plate is made into cable, which an iron plate joins to make a circuit. The
/// inserters between the machines unload one and load the other, and `feeds` of
/// three are built:
///
/// ```text
///   .  .  .  .  .  .  Fe .  .  .  .
///   .  .  .  .  .  .  i  .  .  .  .
///   .  .  C  C  C  i  A  A  A  .  .
///   Cu i  C  C  C  i  A  A  A  i  K
///   .  .  C  C  C  i  A  A  A  .  .
/// ```
pub open spec fn circuit_grid(canvas: Canvas, x0: int, y0: int, feeds: int) -> GridView {
    cable_feeds(circuit_frame(canvas, x0, y0), x0, y0, feeds).put(
        x0 + 9,
        y0 + 3,
        placing::inserter_cell(Direction::East),
    )
}

/// The circuit line as a lesson: everything in its rectangle but the sources and the
/// sink may be blanked.
pub open spec fn circuit_sample(canvas: Canvas, x0: int, y0: int, feeds: int) -> SampleView {
    let g = circuit_grid(canvas, x0, y0, feeds);
    let protected = seq![g.slot(x0, y0 + 3), g.slot(x0 + 6, y0), g.slot(x0 + 10, y0 + 3)];
    SampleView {
        kind: LessonKind::CircuitLine,
        solution: g,
        protected,
        removable: templates::region(g, x0, y0, CIRCUIT_W as int, protected, 55),
    }
}

/// Whether a tile is one of the circuit line's sources or its sink.
spec fn circuit_port(x0: int, y0: int, x: int, y: int) -> bool {
    (x == x0 || x == x0 + 10) && y == y0 + 3 || x == x0 + 6 && y == y0
}

/// Lay out a circuit line with `feeds` cable inserters.
pub fn build_circuit_line(canvas: Canvas, x0: usize, y0: usize, feeds: usize) -> (r: Option<Sample>)
    requires
        canvas.holdable(),
        x0 + CIRCUIT_W <= canvas.width,
        y0 + CIRCUIT_H <= canvas.height,
        1 <= feeds <= CABLE_FEEDS,
    ensures
        r is Some,
        r matches Some(s) ==> s@ == circuit_sample(canvas, x0 as int, y0 as int, feeds as int)
            && s@.sound() && aim::aimed(s@.solution) && delivery::feeds_a_sink(s@.solution),
{
    let y: usize = y0 + 3;
    let mut grid = canvas.grid();
    proof {
        placing::lemma_bare(grid@);
    }
    place(&mut grid, x0, y, source(Item::CopperPlate));
    place(&mut grid, x0 + 6, y0, source(Item::IronPlate));
    place(&mut grid, x0 + 10, y, sink(Item::GreenCircuit));
    place(&mut grid, x0 + 1, y, inserter(Direction::East));
    place(&mut grid, x0 + 2, y0 + 2, machine(Item::CopperCable));
    place(&mut grid, x0 + 6, y0 + 1, inserter(Direction::South));
    place(&mut grid, x0 + 6, y0 + 2, machine(Item::GreenCircuit));
    let ghost frame = grid@;
    assert forall|tx: int, ty: int| x0 + 5 == tx && y0 + 2 <= ty < y0 + 5 implies !#[trigger] placing::taken(
        frame,
        tx,
        ty,
    ) by {}
    assert(!placing::taken(frame, x0 + 9, y0 + 3));
    assert forall|tx: int, ty: int| #[trigger] frame.inside(tx, ty) implies (lesson::is_port(
        frame.at(tx, ty),
    ) <==> circuit_port(x0 as int, y0 as int, tx, ty)) by {}
    let mut j: usize = 0;
    while j < feeds
        invariant
            grid.wf(),
            grid@.consistent(),
            grid.width == canvas.width,
            grid.height == canvas.height,
            grid@.obstacle == canvas.blank().obstacle,
            canvas.holdable(),
            x0 + CIRCUIT_W <= canvas.width,
            y0 + CIRCUIT_H <= canvas.height,
            j <= feeds <= CABLE_FEEDS,
            grid@ == cable_feeds(frame, x0 as int, y0 as int, j as int),
            forall|tx: int, ty: int|
                x0 + 5 == tx && y0 + 2 + j <= ty < y0 + 5 ==> !#[trigger] placing::taken(
                    grid@,
                    tx,
                    ty,
                ),
            !placing::taken(grid@, x0 + 9, y0 + 3),
            forall|tx: int, ty: int| #[trigger]
                grid@.inside(tx, ty) ==> (lesson::is_port(grid@.at(tx, ty)) <==> circuit_port(
                    x0 as int,
                    y0 as int,
                    tx,
                    ty,
                )),
        decreases feeds - j,
    {
        let ghost before = grid@;
        place(&mut grid, x0 + 5, y0 + 2 + j, inserter(Direction::East));
        assert forall|tx: int, ty: int| #[trigger] grid@.inside(tx, ty) implies (lesson::is_port(
            grid@.at(tx, ty),
        ) <==> circuit_port(x0 as int, y0 as int, tx, ty)) by {
            assert(before.inside(tx, ty));
        }
        j = j + 1;
    }
    let ghost before = grid@;
    place(&mut grid, x0 + 9, y, inserter(Direction::East));
    let ghost g = grid@;
    assert(g == circuit_grid(canvas, x0 as int, y0 as int, feeds as int));
    proof {
        aim::lemma_circuit_aimed(canvas, x0 as int, y0 as int, feeds as int);
        works::lemma_circuit_works(canvas, x0 as int, y0 as int, feeds as int);
        delivery::law_what_feeds_a_sink_works(g);
    }
    assert(grid.cells.len() <= usize::MAX);
    let protected = vec![grid.idx(x0, y), grid.idx(x0 + 6, y0), grid.idx(x0 + 10, y)];
    let removable = open_region(&grid, x0, y0, CIRCUIT_W, CIRCUIT_H, &protected);
    proof {
        let want = circuit_sample(canvas, x0 as int, y0 as int, feeds as int).protected;
        assert(lesson::ints(protected@) =~= want);
        assert forall|tx: int, ty: int| #[trigger] g.inside(tx, ty) implies (lesson::is_port(
            g.at(tx, ty),
        ) <==> circuit_port(x0 as int, y0 as int, tx, ty)) by {
            assert(before.inside(tx, ty));
        }
        assert(want.contains(want[0]) && want.contains(want[1]) && want.contains(want[2]));
        assert(templates::ports_among(g, want));
        templates::lemma_ports_listed(g, want);
        assert(g.inside(x0 as int, y0 + 3) && g.inside(x0 + 6, y0 as int) && g.inside(
            x0 + 10,
            y0 + 3,
        ) && g.inside(x0 as int, y0 as int));
        assert(lesson::is_port(g.at(x0 as int, y0 + 3)));
        assert(lesson::is_port(g.at(x0 + 6, y0 as int)));
        assert(lesson::is_port(g.at(x0 + 10, y0 + 3)));
        assert(!want.contains(g.slot(x0 as int, y0 as int))) by {
            assert(!lesson::is_port(g.at(x0 as int, y0 as int)));
        }
        templates::lemma_free_region(
            g,
            x0 as int,
            y0 as int,
            CIRCUIT_W as int,
            CIRCUIT_H as int,
            want,
            x0 as int,
            y0 as int,
        );
    }
    finish(LessonKind::CircuitLine, grid, protected, removable)
}

/// Which circuit line, if any, is drawn from a stream, and the stream afterwards.
pub open spec fn circuit_lesson(canvas: Canvas, r: RandomStream) -> (
    Option<SampleView>,
    RandomStream,
) {
    if !LessonKind::CircuitLine.fits_on(canvas) {
        (None, r)
    } else {
        let (x0, r) = r.roll(canvas.width - CIRCUIT_W + 1);
        let (y0, r) = r.roll(canvas.height - CIRCUIT_H + 1);
        let (extra, r) = r.roll(CABLE_FEEDS as int);
        (templates::working(circuit_sample(canvas, x0, y0, 1 + extra)), r)
    }
}

/// Draw a circuit line, and how many cable inserters it has.
pub fn gen_circuit_line(canvas: Canvas, rng: &mut RandomStream) -> (r: Option<Sample>)
    requires
        canvas.holdable(),
    ensures
        (templates::sample_option(r), *final(rng)) == circuit_lesson(canvas, *old(rng)),
        r matches Some(s) ==> s@.sound() && aim::aimed(s@.solution),
        r matches Some(s) ==> delivery::feeds_a_sink(s@.solution),
        r is Some <==> LessonKind::CircuitLine.fits_on(canvas),
{
    if !LessonKind::CircuitLine.fits(canvas) {
        return None;
    }
    let x0 = rng.below(canvas.width - CIRCUIT_W + 1);
    let y0 = rng.below(canvas.height - CIRCUIT_H + 1);
    let feeds = 1 + rng.below(CABLE_FEEDS);
    build_circuit_line(canvas, x0, y0, feeds)
}

/// The head of a shared line: the source's belt, and the splitter with the belts that
/// lead from its lower half to the second branch, or a plain belt if there is only
/// one branch.
pub open spec fn shared_head(g: GridView, x0: int, y0: int, branches: int) -> GridView {
    let belt = g.put(x0 + 1, y0, Cell::belt_cell(Direction::East));
    if branches > 1 {
        belt.put(x0 + 2, y0, placing::splitter_cell(Direction::East)).put(
            x0 + 3,
            y0 + 1,
            Cell::belt_cell(Direction::South),
        ).put(x0 + 3, y0 + 2, Cell::belt_cell(Direction::South)).put(
            x0 + 3,
            y0 + 3,
            Cell::belt_cell(Direction::South),
        )
    } else {
        belt.put(x0 + 2, y0, Cell::belt_cell(Direction::East))
    }
}

/// One branch of a shared line along row `y`: belt, inserter, machine, inserter, belt.
pub open spec fn shared_branch(g: GridView, x0: int, y: int, recipe: Item) -> GridView {
    g.put(x0 + 3, y, Cell::belt_cell(Direction::East)).put(
        x0 + 4,
        y,
        placing::inserter_cell(Direction::East),
    ).put(x0 + 5, y, placing::machine_cell(recipe)).put(
        x0 + 8,
        y,
        placing::inserter_cell(Direction::East),
    ).put(x0 + 9, y, Cell::belt_cell(Direction::East))
}

/// The source and the sink of a shared line.
pub open spec fn shared_ports(canvas: Canvas, x0: int, y0: int, recipe: Item) -> GridView {
    canvas.blank().put(x0, y0, placing::source_cell(recipe.inputs()[0].item)).put(
        x0 + 10,
        y0 + 4,
        placing::sink_cell(recipe),
    )
}

/// Up to two machines fed from one source through a splitter, of which the upper
/// `branches` are built:
///
/// ```text
///   S  >  =  >  i  A  A  A  i  >  v
///   .  .  =  v  .  A  A  A  .  .  v
///   .  .  .  v  .  A  A  A  .  .  v
///   .  .  .  v  .  .  .  .  .  .  v
///   .  .  .  >  i  A  A  A  i  >  K
///   .  .  .  .  .  A  A  A  .  .  .
///   .  .  .  .  .  A  A  A  .  .  .
/// ```
pub open spec fn shared_grid(
    canvas: Canvas,
    x0: int,
    y0: int,
    recipe: Item,
    branches: int,
) -> GridView {
    let head = shared_head(shared_ports(canvas, x0, y0, recipe), x0, y0, branches);
    let upper = shared_branch(head, x0, y0, recipe);
    let both = if branches > 1 {
        shared_branch(upper, x0, y0 + 4, recipe)
    } else {
        upper
    };
    south_column(both, x0 + 10, y0, y0 + 4)
}

/// The shared line as a lesson: everything in its rectangle but the source and the
/// sink may be blanked.
pub open spec fn shared_sample(
    canvas: Canvas,
    x0: int,
    y0: int,
    recipe: Item,
    branches: int,
) -> SampleView {
    let g = shared_grid(canvas, x0, y0, recipe, branches);
    let protected = seq![g.slot(x0, y0), g.slot(x0 + 10, y0 + 4)];
    SampleView {
        kind: LessonKind::SharedLine,
        solution: g,
        protected,
        removable: templates::region(g, x0, y0, SHARED_W as int, protected, 77),
    }
}

/// Whether a tile is the shared line's source or its sink.
spec fn shared_port(x0: int, y0: int, x: int, y: int) -> bool {
    x == x0 && y == y0 || x == x0 + 10 && y == y0 + 4
}

/// Whether the only sources and sinks of a grid are those of a shared line.
spec fn shared_ports_only(g: GridView, x0: int, y0: int) -> bool {
    forall|x: int, y: int| #[trigger]
        g.inside(x, y) ==> (lesson::is_port(g.at(x, y)) <==> shared_port(x0, y0, x, y))
}

/// Whether no tile of a grid is blocked.
spec fn open_ground(g: GridView) -> bool {
    forall|x: int, y: int| g.inside(x, y) ==> !#[trigger] g.blocked(x, y)
}

/// Lay one branch of a shared line along row `y`.
fn lay_branch(grid: &mut Grid, x0: usize, y0: usize, y: usize, recipe: Item)
    requires
        old(grid).wf(),
        old(grid)@.consistent(),
        open_ground(old(grid)@),
        x0 + SHARED_W <= old(grid).width,
        y + 3 <= old(grid).height,
        y == y0 || y == y0 + 4,
        shared_ports_only(old(grid)@, x0 as int, y0 as int),
        forall|tx: int, ty: int|
            x0 + 4 <= tx < x0 + 10 && y <= ty < y + 3 ==> !#[trigger] placing::taken(
                old(grid)@,
                tx,
                ty,
            ),
        forall|tx: int, ty: int|
            tx == x0 + 3 && ty == y ==> !#[trigger] placing::taken(old(grid)@, tx, ty),
    ensures
        final(grid).wf(),
        final(grid)@.consistent(),
        open_ground(final(grid)@),
        final(grid).width == old(grid).width,
        final(grid).height == old(grid).height,
        final(grid)@ == shared_branch(old(grid)@, x0 as int, y as int, recipe),
        shared_ports_only(final(grid)@, x0 as int, y0 as int),
        forall|tx: int, ty: int|
            !(x0 + 3 <= tx < x0 + 10 && y <= ty < y + 3) ==> (#[trigger] placing::taken(
                final(grid)@,
                tx,
                ty,
            ) <==> placing::taken(old(grid)@, tx, ty)),
{
    let ghost g = grid@;
    place(grid, x0 + 3, y, Cell::belt(Direction::East));
    place(grid, x0 + 4, y, inserter(Direction::East));
    place(grid, x0 + 5, y, machine(recipe));
    place(grid, x0 + 8, y, inserter(Direction::East));
    place(grid, x0 + 9, y, Cell::belt(Direction::East));
    proof {
        assert forall|tx: int, ty: int| #[trigger] grid@.inside(tx, ty) implies (lesson::is_port(
            grid@.at(tx, ty),
        ) <==> shared_port(x0 as int, y0 as int, tx, ty)) && !grid@.blocked(tx, ty) by {
            assert(g.inside(tx, ty) && !g.blocked(tx, ty));
        }
        assert(open_ground(grid@));
    }
}

/// Lay the head of a shared line.
fn lay_head(grid: &mut Grid, x0: usize, y0: usize, branches: usize)
    requires
        old(grid).wf(),
        old(grid)@.consistent(),
        open_ground(old(grid)@),
        x0 + SHARED_W <= old(grid).width,
        y0 + SHARED_H <= old(grid).height,
        1 <= branches <= SHARED_LINES,
        shared_ports_only(old(grid)@, x0 as int, y0 as int),
        forall|tx: int, ty: int|
            x0 + 1 <= tx < x0 + 4 && y0 <= ty < y0 + 4 ==> !#[trigger] placing::taken(
                old(grid)@,
                tx,
                ty,
            ),
    ensures
        final(grid).wf(),
        final(grid)@.consistent(),
        open_ground(final(grid)@),
        final(grid).width == old(grid).width,
        final(grid).height == old(grid).height,
        final(grid)@ == shared_head(old(grid)@, x0 as int, y0 as int, branches as int),
        shared_ports_only(final(grid)@, x0 as int, y0 as int),
        forall|tx: int, ty: int|
            !(x0 + 1 <= tx < x0 + 3 && y0 <= ty < y0 + 2) && !(tx == x0 + 3 && y0 < ty < y0 + 4)
                ==> (#[trigger] placing::taken(final(grid)@, tx, ty) <==> placing::taken(
                old(grid)@,
                tx,
                ty,
            )),
{
    let ghost g = grid@;
    place(grid, x0 + 1, y0, Cell::belt(Direction::East));
    if branches > 1 {
        place(grid, x0 + 2, y0, splitter(Direction::East));
        place(grid, x0 + 3, y0 + 1, Cell::belt(Direction::South));
        place(grid, x0 + 3, y0 + 2, Cell::belt(Direction::South));
        place(grid, x0 + 3, y0 + 3, Cell::belt(Direction::South));
    } else {
        place(grid, x0 + 2, y0, Cell::belt(Direction::East));
    }
    proof {
        assert forall|tx: int, ty: int| #[trigger] grid@.inside(tx, ty) implies (lesson::is_port(
            grid@.at(tx, ty),
        ) <==> shared_port(x0 as int, y0 as int, tx, ty)) && !grid@.blocked(tx, ty) by {
            assert(g.inside(tx, ty) && !g.blocked(tx, ty));
        }
        assert(open_ground(grid@));
    }
}

/// Lay the column that collects the output of a shared line.
fn lay_collector(grid: &mut Grid, x0: usize, y0: usize)
    requires
        old(grid).wf(),
        old(grid)@.consistent(),
        open_ground(old(grid)@),
        x0 + SHARED_W <= old(grid).width,
        y0 + SHARED_H <= old(grid).height,
        shared_ports_only(old(grid)@, x0 as int, y0 as int),
        forall|ty: int| y0 <= ty < y0 + 4 ==> !#[trigger] placing::taken(old(grid)@, x0 + 10, ty),
    ensures
        final(grid).wf(),
        final(grid)@.consistent(),
        final(grid).width == old(grid).width,
        final(grid).height == old(grid).height,
        final(grid)@ == south_column(old(grid)@, x0 + 10, y0 as int, y0 + 4),
        shared_ports_only(final(grid)@, x0 as int, y0 as int),
{
    let ghost g = grid@;
    let mut y: usize = y0;
    while y < y0 + 4
        invariant
            grid.wf(),
            grid@.consistent(),
            open_ground(grid@),
            grid.width == g.width,
            grid.height == g.height,
            x0 + SHARED_W <= g.width,
            y0 + SHARED_H <= g.height,
            y0 <= y <= y0 + 4,
            grid@ == south_column(g, x0 + 10, y0 as int, y as int),
            shared_ports_only(grid@, x0 as int, y0 as int),
            forall|ty: int| y <= ty < y0 + 4 ==> !#[trigger] placing::taken(grid@, x0 + 10, ty),
        decreases y0 + 4 - y,
    {
        let ghost before = grid@;
        place(grid, x0 + 10, y, Cell::belt(Direction::South));
        proof {
            assert forall|tx: int, ty: int| #[trigger] grid@.inside(tx, ty) implies (lesson::is_port(
                grid@.at(tx, ty),
            ) <==> shared_port(x0 as int, y0 as int, tx, ty)) && !grid@.blocked(tx, ty) by {
                assert(before.inside(tx, ty) && !before.blocked(tx, ty));
            }
            assert(open_ground(grid@));
        }
        y = y + 1;
    }
}

/// Lay out a shared line with `branches` machines.
pub fn build_shared_line(
    canvas: Canvas,
    x0: usize,
    y0: usize,
    recipe: Item,
    branches: usize,
) -> (r: Option<Sample>)
    requires
        canvas.holdable(),
        x0 + SHARED_W <= canvas.width,
        y0 + SHARED_H <= canvas.height,
        recipe.is_crafted(),
        1 <= branches <= SHARED_LINES,
    ensures
        r is Some <==> sim::functional(
            shared_grid(canvas, x0 as int, y0 as int, recipe, branches as int),
        ),
        r matches Some(s) ==> s@ == shared_sample(
            canvas,
            x0 as int,
            y0 as int,
            recipe,
            branches as int,
        ) && s@.sound() && aim::aimed(s@.solution),
        recipe.inputs().len() == 1 ==> {
            &&& r matches Some(s)
            &&& delivery::feeds_a_sink(s@.solution)
        },
{
    let inputs = recipe.ingredients();
    let mut grid = canvas.grid();
    let ghost bare = grid@;
    proof {
        placing::lemma_bare(grid@);
    }
    place(&mut grid, x0, y0, source(inputs[0].item));
    place(&mut grid, x0 + 10, y0 + 4, sink(recipe));
    proof {
        assert forall|tx: int, ty: int| #[trigger] grid@.inside(tx, ty) implies (lesson::is_port(
            grid@.at(tx, ty),
        ) <==> shared_port(x0 as int, y0 as int, tx, ty)) && !grid@.blocked(tx, ty) by {
            assert(bare.inside(tx, ty));
        }
    }
    lay_head(&mut grid, x0, y0, branches);
    lay_branch(&mut grid, x0, y0, y0, recipe);
    if branches > 1 {
        lay_branch(&mut grid, x0, y0, y0 + 4, recipe);
    }
    lay_collector(&mut grid, x0, y0);
    let ghost g = grid@;
    assert(g == shared_grid(canvas, x0 as int, y0 as int, recipe, branches as int));
    proof {
        aim::lemma_shared_aimed(canvas, x0 as int, y0 as int, recipe, branches as int);
        if recipe.inputs().len() == 1 {
            works::lemma_shared_works(canvas, x0 as int, y0 as int, recipe, branches as int);
            delivery::law_what_feeds_a_sink_works(g);
        }
    }
    assert(grid.cells.len() <= usize::MAX);
    let protected = vec![grid.idx(x0, y0), grid.idx(x0 + 10, y0 + 4)];
    let removable = open_region(&grid, x0, y0, SHARED_W, SHARED_H, &protected);
    proof {
        let want = shared_sample(canvas, x0 as int, y0 as int, recipe, branches as int).protected;
        assert(lesson::ints(protected@) =~= want);
        assert(want.contains(want[0]) && want.contains(want[1]));
        assert(templates::ports_among(g, want));
        templates::lemma_ports_listed(g, want);
        assert(g.inside(x0 as int, y0 as int) && g.inside(x0 + 10, y0 + 4) && g.inside(
            x0 + 1,
            y0 as int,
        ));
        assert(lesson::is_port(g.at(x0 as int, y0 as int)));
        assert(lesson::is_port(g.at(x0 + 10, y0 + 4)));
        assert(!want.contains(g.slot(x0 + 1, y0 as int))) by {
            assert(!lesson::is_port(g.at(x0 + 1, y0 as int)));
        }
        templates::lemma_free_region(
            g,
            x0 as int,
            y0 as int,
            SHARED_W as int,
            SHARED_H as int,
            want,
            x0 + 1,
            y0 as int,
        );
    }
    finish(LessonKind::SharedLine, grid, protected, removable)
}

/// Which shared line, if any, is drawn from a stream, and the stream afterwards.
pub open spec fn shared_lesson(canvas: Canvas, r: RandomStream) -> (
    Option<SampleView>,
    RandomStream,
) {
    if !LessonKind::SharedLine.fits_on(canvas) {
        (None, r)
    } else {
        let (x0, r) = r.roll(canvas.width - SHARED_W + 1);
        let (y0, r) = r.roll(canvas.height - SHARED_H + 1);
        let (k, r) = r.select(2);
        let (extra, r) = r.roll(SHARED_LINES as int);
        (
            templates::working(
                shared_sample(canvas, x0, y0, templates::single_input_product(k), 1 + extra),
            ),
            r,
        )
    }
}

/// Draw a shared line, and how many of its branches are built.
pub fn gen_shared_line(canvas: Canvas, rng: &mut RandomStream) -> (r: Option<Sample>)
    requires
        canvas.holdable(),
    ensures
        (templates::sample_option(r), *final(rng)) == shared_lesson(canvas, *old(rng)),
        r matches Some(s) ==> s@.sound() && aim::aimed(s@.solution),
        r matches Some(s) ==> delivery::feeds_a_sink(s@.solution),
        r is Some <==> LessonKind::SharedLine.fits_on(canvas),
{
    if !LessonKind::SharedLine.fits(canvas) {
        return None;
    }
    let x0 = rng.below(canvas.width - SHARED_W + 1);
    let y0 = rng.below(canvas.height - SHARED_H + 1);
    let products = Item::single_input_craftable();
    let recipe = products[rng.pick(2)];
    let branches = 1 + rng.below(SHARED_LINES);
    build_shared_line(canvas, x0, y0, recipe, branches)
}

} // verus!
