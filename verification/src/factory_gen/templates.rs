//! Lessons that place a fixed layout somewhere on the board.

use vstd::prelude::*;
use vstd::arithmetic::div_mod::{lemma_fundamental_div_mod, lemma_mod_bound};
use crate::factory_gen::aim;
use crate::factory_gen::canvas::{Canvas, LessonKind, DIRECT_H, DIRECT_W, LINE_H, LINE_W};
use crate::factory_gen::layouts;
use crate::factory_gen::lesson;
use crate::factory_gen::lesson::{Sample, SampleView};
use crate::factory_gen::placing;
use crate::factory_gen::placing::{inserter, machine, place, sink, source, tunnel};
use crate::factory_gen::works;
use crate::random::{count, RandomStream};
use crate::sim;
use crate::sim::item_reaches_sink;
use crate::throughput::delivery;
use crate::world;
use crate::world::grid;
use crate::world::grid::GridView;
use crate::world::{Cell, Direction, Entity, Grid, Item, Misc};

verus! {

/// The `k`-th slot of a rectangle of width `w`, row by row.
pub open spec fn region_slot(g: GridView, x0: int, y0: int, w: int, k: int) -> int {
    g.slot(x0 + k % w, y0 + k / w)
}

/// The slots of the first `k` tiles of a rectangle, row by row, without those in
/// `except`.
pub open spec fn region(
    g: GridView,
    x0: int,
    y0: int,
    w: int,
    except: Seq<int>,
    k: nat,
) -> Seq<int>
    decreases k,
{
    if k == 0 {
        seq![]
    } else {
        let rest = region(g, x0, y0, w, except, (k - 1) as nat);
        let i = region_slot(g, x0, y0, w, k - 1);
        if except.contains(i) {
            rest
        } else {
            rest.push(i)
        }
    }
}

/// Whether every source and sink is at one of the given slots.
pub open spec fn ports_among(g: GridView, slots: Seq<int>) -> bool {
    forall|x: int, y: int| #[trigger]
        g.inside(x, y) && lesson::is_port(g.at(x, y)) ==> slots.contains(g.slot(x, y))
}

/// Every source and sink is listed if each is at one of the given slots.
pub proof fn lemma_ports_listed(g: GridView, slots: Seq<int>)
    requires
        g.valid(),
        ports_among(g, slots),
    ensures
        lesson::ports_listed(g, slots),
{
    assert forall|i: int|
        0 <= i < g.cells.len() && lesson::is_port(#[trigger] g.cells[i]) implies slots.contains(
        i,
    ) by {
        grid::lemma_slot_surjective(g, i);
        let (x, y) = (i % (g.width as int), i / (g.width as int));
        assert(g.inside(x, y) && g.at(x, y) == g.cells[i]);
    }
}

pub proof fn lemma_region_tile(g: GridView, x0: int, y0: int, w: int, h: int, k: int)
    requires
        0 <= x0,
        0 <= y0,
        0 < w,
        x0 + w <= g.width,
        y0 + h <= g.height,
        0 <= k < w * h,
    ensures
        0 <= k % w < w,
        0 <= k / w < h,
        g.inside(x0 + k % w, y0 + k / w),
{
    lemma_mod_bound(k, w);
    lemma_fundamental_div_mod(k, w);
    assert(0 <= k / w < h) by (nonlinear_arith)
        requires
            0 <= k < w * h,
            0 < w,
            k == w * (k / w) + k % w,
            0 <= k % w < w,
    ;
}

/// A region holds slots of the grid that are not excepted and, where all ports are
/// excepted, hold no port.
proof fn lemma_region(
    g: GridView,
    x0: int,
    y0: int,
    w: int,
    h: int,
    except: Seq<int>,
    k: nat,
)
    requires
        g.valid(),
        0 <= x0,
        0 <= y0,
        0 < w,
        x0 + w <= g.width,
        y0 + h <= g.height,
        k <= w * h,
        ports_among(g, except),
    ensures
        forall|j: int|
            0 <= j < region(g, x0, y0, w, except, k).len() ==> {
                let i = #[trigger] region(g, x0, y0, w, except, k)[j];
                &&& 0 <= i < g.cells.len()
                &&& !except.contains(i)
                &&& !lesson::is_port(g.cells[i])
            },
    decreases k,
{
    if k > 0 {
        lemma_region(g, x0, y0, w, h, except, (k - 1) as nat);
        lemma_region_tile(g, x0, y0, w, h, k - 1);
        let (x, y) = (x0 + (k - 1) % w, y0 + (k - 1) / w);
        grid::lemma_slot(g, x, y);
        let rest = region(g, x0, y0, w, except, (k - 1) as nat);
        let all = region(g, x0, y0, w, except, k);
        assert forall|j: int| 0 <= j < all.len() implies {
            let i = #[trigger] all[j];
            &&& 0 <= i < g.cells.len()
            &&& !except.contains(i)
            &&& !lesson::is_port(g.cells[i])
        } by {
            if j < rest.len() {
                assert(all[j] == rest[j]);
            } else {
                assert(all[j] == g.slot(x, y));
                assert(g.inside(x, y) && g.at(x, y) == g.cells[all[j]]);
            }
        }
    }
}

/// Whether a list of slots holds `i`.
pub fn lists(v: &Vec<usize>, i: usize) -> (r: bool)
    ensures
        r == lesson::ints(v@).contains(i as int),
{
    let mut k: usize = 0;
    while k < v.len()
        invariant
            k <= v.len(),
            forall|j: int| 0 <= j < k ==> v@[j] != i,
        decreases v.len() - k,
    {
        if v[k] == i {
            assert(lesson::ints(v@)[k as int] == i);
            return true;
        }
        k = k + 1;
    }
    assert forall|j: int| 0 <= j < v@.len() implies lesson::ints(v@)[j] != i by {
        assert(v@[j] != i);
    }
    false
}

/// The slots of a rectangle, row by row, without those in `except`.
pub fn open_region(
    grid: &Grid,
    x0: usize,
    y0: usize,
    w: usize,
    h: usize,
    except: &Vec<usize>,
) -> (r: Vec<usize>)
    requires
        grid.wf(),
        0 < w,
        x0 + w <= grid.width,
        y0 + h <= grid.height,
        w * h <= usize::MAX,
    ensures
        lesson::ints(r@) == region(
            grid@,
            x0 as int,
            y0 as int,
            w as int,
            lesson::ints(except@),
            (w * h) as nat,
        ),
{
    let ghost g = grid@;
    let mut out: Vec<usize> = Vec::new();
    let n: usize = w * h;
    let mut k: usize = 0;
    while k < n
        invariant
            grid.wf(),
            g == grid@,
            0 < w,
            x0 + w <= grid.width,
            y0 + h <= grid.height,
            n == w * h,
            k <= n,
            lesson::ints(out@) == region(
                g,
                x0 as int,
                y0 as int,
                w as int,
                lesson::ints(except@),
                k as nat,
            ),
        decreases n - k,
    {
        proof {
            lemma_region_tile(g, x0 as int, y0 as int, w as int, h as int, k as int);
            grid::lemma_slot(g, x0 + k as int % w as int, y0 + k as int / w as int);
            assert(grid.cells.len() <= usize::MAX);
        }
        let i = grid.idx(x0 + k % w, y0 + k / w);
        let ghost before = out@;
        if !lists(except, i) {
            out.push(i);
            assert(lesson::ints(out@) =~= lesson::ints(before).push(i as int));
        }
        k = k + 1;
    }
    out
}

/// A lesson, if the factory works.
pub fn finish(kind: LessonKind, grid: Grid, protected: Vec<usize>, removable: Vec<usize>) -> (r: Option<
    Sample,
>)
    requires
        grid.wf(),
        grid@.consistent(),
        lesson::slots_of(grid@, lesson::ints(protected@)),
        lesson::slots_of(grid@, lesson::ints(removable@)),
        removable@.len() > 0,
        forall|k: int|
            0 <= k < removable@.len() ==> {
                let i = #[trigger] lesson::ints(removable@)[k];
                !lesson::ints(protected@).contains(i) && !lesson::is_port(grid@.cells[i])
            },
        forall|k: int|
            0 <= k < protected@.len() ==> grid@.cells[#[trigger] lesson::ints(protected@)[k]].entity !is Empty,
        lesson::ports_listed(grid@, lesson::ints(protected@)),
    ensures
        r is Some <==> sim::functional(grid@),
        r matches Some(s) ==> {
            &&& s@ == (SampleView {
                kind,
                solution: grid@,
                protected: lesson::ints(protected@),
                removable: lesson::ints(removable@),
            })
            &&& s@.sound()
        },
{
    if !item_reaches_sink(&grid) {
        return None;
    }
    Some(Sample { kind, solution: grid, protected, removable })
}

/// A crafting line with the machine's top-left tile at `(x0 + 2, y0)`:
///
/// ```text
///   . . A A A . .
///   S i A A A i K
///   . . A A A . .
/// ```
pub open spec fn line_grid(canvas: Canvas, x0: int, y0: int, recipe: Item) -> GridView {
    canvas.blank().put(
        x0,
        y0 + 1,
        placing::source_cell(recipe.inputs()[0].item),
    ).put(x0 + 1, y0 + 1, placing::inserter_cell(Direction::East)).put(
        x0 + 2,
        y0,
        placing::machine_cell(recipe),
    ).put(x0 + 5, y0 + 1, placing::inserter_cell(Direction::East)).put(
        x0 + 6,
        y0 + 1,
        placing::sink_cell(recipe),
    )
}

/// The crafting line as a lesson: the inserters may be blanked.
pub open spec fn line_sample(canvas: Canvas, x0: int, y0: int, recipe: Item) -> SampleView {
    let g = line_grid(canvas, x0, y0, recipe);
    SampleView {
        kind: LessonKind::AssemblerLine,
        solution: g,
        protected: seq![g.slot(x0, y0 + 1), g.slot(x0 + 2, y0), g.slot(x0 + 6, y0 + 1)],
        removable: seq![g.slot(x0 + 1, y0 + 1), g.slot(x0 + 5, y0 + 1)],
    }
}

/// Lay out a crafting line.
pub fn build_assembler_line(canvas: Canvas, x0: usize, y0: usize, recipe: Item) -> (r: Option<Sample>)
    requires
        canvas.holdable(),
        x0 + LINE_W <= canvas.width,
        y0 + LINE_H <= canvas.height,
        recipe.is_crafted(),
    ensures
        r is Some <==> sim::functional(line_grid(canvas, x0 as int, y0 as int, recipe)),
        r matches Some(s) ==> s@ == line_sample(canvas, x0 as int, y0 as int, recipe) && s@.sound(),
        r matches Some(s) ==> aim::aimed(s@.solution),
        recipe.inputs().len() == 1 ==> {
            &&& r matches Some(s)
            &&& delivery::feeds_a_sink(s@.solution)
        },
{
    broadcast use {grid::lemma_slot, grid::lemma_put_at, grid::lemma_blank_at};

    let inputs = recipe.ingredients();
    let input_item = inputs[0].item;
    let y: usize = y0 + 1;
    let mut grid = canvas.grid();
    proof {
        placing::lemma_bare(grid@);
    }
    place(&mut grid, x0, y, source(input_item));
    place(&mut grid, x0 + 1, y, inserter(Direction::East));
    place(&mut grid, x0 + 2, y0, machine(recipe));
    place(&mut grid, x0 + 5, y, inserter(Direction::East));
    place(&mut grid, x0 + 6, y, sink(recipe));
    let ghost g = grid@;
    assert(g == line_grid(canvas, x0 as int, y0 as int, recipe));
    proof {
        aim::lemma_line_aimed(canvas, x0 as int, y0 as int, recipe);
        if recipe.inputs().len() == 1 {
            works::lemma_line_works(canvas, x0 as int, y0 as int, recipe);
            delivery::law_what_feeds_a_sink_works(g);
        }
    }
    assert(grid.cells.len() <= usize::MAX);
    let protected = vec![grid.idx(x0, y), grid.idx(x0 + 2, y0), grid.idx(x0 + 6, y)];
    let removable = vec![grid.idx(x0 + 1, y), grid.idx(x0 + 5, y)];
    let ghost want = line_sample(canvas, x0 as int, y0 as int, recipe);
    proof {
        assert(lesson::ints(protected@) =~= want.protected);
        assert(lesson::ints(removable@) =~= want.removable);
        assert(g.at(x0 as int, y as int) == g.cells[want.protected[0]]);
        assert(g.at(x0 + 2, y0 as int) == g.cells[want.protected[1]]);
        assert(g.at(x0 + 6, y as int) == g.cells[want.protected[2]]);
        assert(g.at(x0 + 1, y as int) == g.cells[want.removable[0]]);
        assert(g.at(x0 + 5, y as int) == g.cells[want.removable[1]]);
    }
    finish(LessonKind::AssemblerLine, grid, protected, removable)
}

/// A lesson only where its factory works.
pub open spec fn working(s: SampleView) -> Option<SampleView> {
    if sim::functional(s.solution) {
        Some(s)
    } else {
        None
    }
}

/// The contents of an optional lesson.
pub open spec fn sample_option(s: Option<Sample>) -> Option<SampleView> {
    match s {
        Some(s) => Some(s@),
        None => None,
    }
}

/// The `k`-th product that needs a single ingredient.
pub open spec fn single_input_product(k: int) -> Item {
    if k == 0 {
        Item::IronGear
    } else {
        Item::CopperCable
    }
}

/// Which crafting line, if any, is drawn from a stream, and the stream afterwards.
pub open spec fn line_lesson(canvas: Canvas, r: RandomStream) -> (Option<SampleView>, RandomStream) {
    if !LessonKind::AssemblerLine.fits_on(canvas) {
        (None, r)
    } else {
        let (y0, r) = r.roll(canvas.height - LINE_H + 1);
        let (x0, r) = r.roll(canvas.width - LINE_W + 1);
        let (k, r) = r.select(2);
        (working(line_sample(canvas, x0, y0, single_input_product(k))), r)
    }
}

/// Draw a crafting line: one source feeds one machine, so the recipe is one that
/// needs a single ingredient.
pub fn gen_assembler_line(canvas: Canvas, rng: &mut RandomStream) -> (r: Option<Sample>)
    requires
        canvas.holdable(),
    ensures
        (sample_option(r), *final(rng)) == line_lesson(canvas, *old(rng)),
        r matches Some(s) ==> s@.sound() && aim::aimed(s@.solution),
        r matches Some(s) ==> delivery::feeds_a_sink(s@.solution),
        r is Some <==> LessonKind::AssemblerLine.fits_on(canvas),
{
    if !LessonKind::AssemblerLine.fits(canvas) {
        return None;
    }
    let y0 = rng.below(canvas.height - LINE_H + 1);
    let x0 = rng.below(canvas.width - LINE_W + 1);
    let products = Item::single_input_craftable();
    let recipe = products[rng.pick(2)];
    build_assembler_line(canvas, x0, y0, recipe)
}

/// The slots of the sources and sinks among the first `n` slots.
pub open spec fn port_slots(g: GridView, n: nat) -> Seq<int>
    decreases n,
{
    if n == 0 {
        seq![]
    } else if lesson::is_port(g.cells[n - 1]) {
        port_slots(g, (n - 1) as nat).push(n - 1)
    } else {
        port_slots(g, (n - 1) as nat)
    }
}

/// The listed slots are those of the sources and sinks.
pub proof fn lemma_port_slots(g: GridView, n: nat)
    requires
        n <= g.cells.len(),
    ensures
        forall|k: int|
            0 <= k < port_slots(g, n).len() ==> {
                let i = #[trigger] port_slots(g, n)[k];
                0 <= i < n && lesson::is_port(g.cells[i])
            },
        forall|i: int|
            0 <= i < n && lesson::is_port(g.cells[i]) ==> #[trigger] port_slots(g, n).contains(i),
    decreases n,
{
    if n > 0 {
        lemma_port_slots(g, (n - 1) as nat);
        let rest = port_slots(g, (n - 1) as nat);
        let all = port_slots(g, n);
        assert forall|i: int| 0 <= i < n && lesson::is_port(g.cells[i]) implies #[trigger] all.contains(
            i,
        ) by {
            if i == n - 1 {
                assert(all[rest.len() as int] == i);
            } else {
                assert(rest.contains(i));
                assert(all[rest.index_of(i)] == i);
            }
        }
    }
}

/// The slots of all sources and sinks.
pub fn ports(grid: &Grid) -> (r: Vec<usize>)
    ensures
        lesson::ints(r@) == port_slots(grid@, grid@.cells.len()),
{
    let mut out: Vec<usize> = Vec::new();
    let mut i: usize = 0;
    while i < grid.cells.len()
        invariant
            i <= grid.cells.len(),
            lesson::ints(out@) == port_slots(grid@, i as nat),
        decreases grid.cells.len() - i,
    {
        if matches!(grid.cells[i].entity, Entity::Source | Entity::Sink) {
            let ghost before = out@;
            out.push(i);
            assert(lesson::ints(out@) =~= lesson::ints(before).push(i as int));
        }
        i = i + 1;
    }
    out
}

/// One machine fed with its ingredients directly, the first from the west and the
/// second, if there is one, from the north:
///
/// ```text
///   . . . S . . .
///   . . . i . . .
///   . . A A A . .
///   S i A A A i K
///   . . A A A . .
/// ```
pub open spec fn direct_grid(
    canvas: Canvas,
    x0: int,
    y0: int,
    recipe: Item,
    inputs: Seq<Item>,
) -> GridView {
    let west = canvas.blank().put(x0, y0 + 3, placing::source_cell(inputs[0])).put(
        x0 + 1,
        y0 + 3,
        placing::inserter_cell(Direction::East),
    );
    let fed = if inputs.len() > 1 {
        west.put(x0 + 3, y0, placing::source_cell(inputs[1])).put(
            x0 + 3,
            y0 + 1,
            placing::inserter_cell(Direction::South),
        )
    } else {
        west
    };
    fed.put(x0 + 2, y0 + 2, placing::machine_cell(recipe)).put(
        x0 + 5,
        y0 + 3,
        placing::inserter_cell(Direction::East),
    ).put(x0 + 6, y0 + 3, placing::sink_cell(recipe))
}

/// The direct recipe as a lesson: everything in its rectangle but the sources and the
/// sink may be blanked.
pub open spec fn direct_sample(
    canvas: Canvas,
    x0: int,
    y0: int,
    recipe: Item,
    inputs: Seq<Item>,
) -> SampleView {
    let g = direct_grid(canvas, x0, y0, recipe, inputs);
    let protected = port_slots(g, g.cells.len());
    SampleView {
        kind: LessonKind::DirectRecipe,
        solution: g,
        protected,
        removable: region(g, x0, y0, DIRECT_W as int, protected, (DIRECT_W * DIRECT_H) as nat),
    }
}

/// Lay out one machine that is fed with `inputs` directly.
pub fn build_direct_recipe(
    canvas: Canvas,
    x0: usize,
    y0: usize,
    recipe: Item,
    inputs: &Vec<Item>,
) -> (r: Option<Sample>)
    requires
        canvas.holdable(),
        x0 + DIRECT_W <= canvas.width,
        y0 + DIRECT_H <= canvas.height,
        inputs.len() > 0,
    ensures
        r is Some <==> sim::functional(
            direct_grid(canvas, x0 as int, y0 as int, recipe, inputs@),
        ),
        r matches Some(s) ==> s@ == direct_sample(canvas, x0 as int, y0 as int, recipe, inputs@)
            && s@.sound(),
        r matches Some(s) ==> aim::aimed(s@.solution),
        works::feeds(recipe, inputs@) ==> {
            &&& r matches Some(s)
            &&& delivery::feeds_a_sink(s@.solution)
        },
{
    broadcast use {grid::lemma_slot, grid::lemma_put_at, grid::lemma_blank_at};

    let mut grid = canvas.grid();
    proof {
        placing::lemma_bare(grid@);
    }
    place(&mut grid, x0, y0 + 3, source(inputs[0]));
    place(&mut grid, x0 + 1, y0 + 3, inserter(Direction::East));
    if inputs.len() > 1 {
        place(&mut grid, x0 + 3, y0, source(inputs[1]));
        place(&mut grid, x0 + 3, y0 + 1, inserter(Direction::South));
    }
    place(&mut grid, x0 + 2, y0 + 2, machine(recipe));
    place(&mut grid, x0 + 5, y0 + 3, inserter(Direction::East));
    place(&mut grid, x0 + 6, y0 + 3, sink(recipe));
    let ghost g = grid@;
    assert(g == direct_grid(canvas, x0 as int, y0 as int, recipe, inputs@));
    proof {
        aim::lemma_direct_aimed(canvas, x0 as int, y0 as int, recipe, inputs@);
        if works::feeds(recipe, inputs@) {
            works::lemma_direct_works(canvas, x0 as int, y0 as int, recipe, inputs@);
            delivery::law_what_feeds_a_sink_works(g);
        }
    }
    let protected = ports(&grid);
    let removable = open_region(&grid, x0, y0, DIRECT_W, DIRECT_H, &protected);
    proof {
        let kept = port_slots(g, g.cells.len());
        lemma_port_slots(g, g.cells.len());
        let i = g.slot(x0 + 1, y0 + 3);
        assert(!lesson::is_port(g.at(x0 + 1, y0 + 3)));
        if kept.contains(i) {
            assert(kept[kept.index_of(i)] == i);
        }
        lemma_free_region(
            g,
            x0 as int,
            y0 as int,
            DIRECT_W as int,
            DIRECT_H as int,
            kept,
            x0 + 1,
            y0 + 3,
        );
    }
    finish(LessonKind::DirectRecipe, grid, protected, removable)
}

/// The slots of a rectangle without the protected ones are what a lesson may blank;
/// there is at least one if some tile of it is not protected.
pub proof fn lemma_free_region(
    g: GridView,
    x0: int,
    y0: int,
    w: int,
    h: int,
    protected: Seq<int>,
    x: int,
    y: int,
)
    requires
        g.valid(),
        0 <= x0,
        0 <= y0,
        0 < w,
        x0 + w <= g.width,
        y0 + h <= g.height,
        x0 <= x < x0 + w,
        y0 <= y < y0 + h,
        ports_among(g, protected),
        !protected.contains(g.slot(x, y)),
    ensures
        ({
            let removable = region(g, x0, y0, w, protected, (w * h) as nat);
            &&& lesson::slots_of(g, removable)
            &&& removable.len() > 0
            &&& forall|k: int|
                0 <= k < removable.len() ==> {
                    let i = #[trigger] removable[k];
                    !protected.contains(i) && !lesson::is_port(g.cells[i])
                }
        }),
{
    let (dx, dy) = (x - x0, y - y0);
    let k = dy * w + dx;
    assert(0 <= k < w * h) by (nonlinear_arith)
        requires
            0 <= dx < w,
            0 <= dy < h,
            k == dy * w + dx,
    ;
    vstd::arithmetic::div_mod::lemma_fundamental_div_mod_converse(k, w, dy, dx);
    lemma_region(g, x0, y0, w, h, protected, (w * h) as nat);
    lemma_region_holds(g, x0, y0, w, protected, (w * h) as nat, k);
}

/// A tile of a rectangle that is not excepted is in the region.
pub proof fn lemma_region_holds(
    g: GridView,
    x0: int,
    y0: int,
    w: int,
    except: Seq<int>,
    n: nat,
    k: int,
)
    requires
        0 <= k < n,
        !except.contains(region_slot(g, x0, y0, w, k)),
    ensures
        region(g, x0, y0, w, except, n).contains(region_slot(g, x0, y0, w, k)),
    decreases n,
{
    let all = region(g, x0, y0, w, except, n);
    let rest = region(g, x0, y0, w, except, (n - 1) as nat);
    let i = region_slot(g, x0, y0, w, k);
    if k == n - 1 {
        assert(all[rest.len() as int] == i);
    } else {
        lemma_region_holds(g, x0, y0, w, except, (n - 1) as nat, k);
        assert(all[rest.index_of(i)] == i);
    }
}

/// The `k`-th product of all.
pub open spec fn product(k: int) -> Item {
    if k == 0 {
        Item::IronGear
    } else if k == 1 {
        Item::CopperCable
    } else {
        Item::GreenCircuit
    }
}

/// The ingredients of a product in the given order.
pub open spec fn ordered_inputs(recipe: Item, order: Seq<usize>) -> Seq<Item> {
    order.map_values(|k: usize| recipe.inputs()[k as int].item)
}

/// The ingredients of a product feed it in whatever order they come.
proof fn lemma_every_order_feeds(recipe: Item, order: Seq<usize>)
    requires
        recipe.is_crafted(),
        order.to_multiset() == crate::random::upto(recipe.inputs().len()).to_multiset(),
    ensures
        works::feeds(recipe, ordered_inputs(recipe, order)),
{
    let places = crate::random::upto(recipe.inputs().len());
    order.to_multiset_ensures();
    places.to_multiset_ensures();
    assert(order.len() == places.len());
    assert forall|k: usize| places.contains(k) implies order.contains(k) by {
        assert(order.to_multiset().count(k) > 0);
    }
    assert(places.len() == recipe.inputs().len());
    assert(places[0] == 0usize);
    assert(places.contains(places[0]));
    let inputs = ordered_inputs(recipe, order);
    if recipe is GreenCircuit {
        assert(places[1] == 1usize);
        assert(places.contains(places[1]));
        let (i, j) = (order.index_of(0), order.index_of(1));
        if i == 0 {
            assert(inputs =~= seq![Item::IronPlate, Item::CopperCable]);
        } else {
            assert(inputs =~= seq![Item::CopperCable, Item::IronPlate]);
        }
    } else {
        assert(inputs =~= seq![recipe.inputs()[0].item]);
    }
}

/// Which direct recipe, if any, is drawn from a stream, and the stream afterwards.
pub open spec fn direct_lesson(canvas: Canvas, r: RandomStream) -> (
    Option<SampleView>,
    RandomStream,
) {
    if !LessonKind::DirectRecipe.fits_on(canvas) {
        (None, r)
    } else {
        let (x0, r) = r.roll(canvas.width - DIRECT_W + 1);
        let (y0, r) = r.roll(canvas.height - DIRECT_H + 1);
        let (k, r) = r.select(3);
        let recipe = product(k);
        let (order, r) = r.permute(crate::random::upto(recipe.inputs().len()));
        (working(direct_sample(canvas, x0, y0, recipe, ordered_inputs(recipe, order))), r)
    }
}

/// Draw a direct recipe: any product, with its ingredients fed in any order.
pub fn gen_direct_recipe(canvas: Canvas, rng: &mut RandomStream) -> (r: Option<Sample>)
    requires
        canvas.holdable(),
    ensures
        (sample_option(r), *final(rng)) == direct_lesson(canvas, *old(rng)),
        r matches Some(s) ==> s@.sound() && aim::aimed(s@.solution),
        r matches Some(s) ==> delivery::feeds_a_sink(s@.solution),
        r is Some <==> LessonKind::DirectRecipe.fits_on(canvas),
{
    if !LessonKind::DirectRecipe.fits(canvas) {
        return None;
    }
    let x0 = rng.below(canvas.width - DIRECT_W + 1);
    let y0 = rng.below(canvas.height - DIRECT_H + 1);
    let products = Item::craftable();
    let recipe = products[rng.pick(3)];
    let needed = recipe.ingredients();
    let places = count(needed.len());
    let order = rng.shuffle(places);
    proof {
        order@.to_multiset_ensures();
        places@.to_multiset_ensures();
    }
    let mut inputs: Vec<Item> = Vec::new();
    let mut k: usize = 0;
    while k < order.len()
        invariant
            needed@ == recipe.inputs(),
            places@ == crate::random::upto(needed@.len()),
            order@.to_multiset() == places@.to_multiset(),
            k <= order.len(),
            inputs@ == ordered_inputs(recipe, order@).take(k as int),
        decreases order.len() - k,
    {
        proof {
            order@.to_multiset_ensures();
            places@.to_multiset_ensures();
            assert(order@.contains(order@[k as int]));
            assert(places@.to_multiset().count(order@[k as int]) > 0);
            assert(places@.contains(order@[k as int]));
        }
        inputs.push(needed[order[k]].item);
        assert(inputs@ =~= ordered_inputs(recipe, order@).take(k as int + 1));
        k = k + 1;
    }
    assert(inputs@ =~= ordered_inputs(recipe, order@));
    proof {
        lemma_every_order_feeds(recipe, order@);
    }
    build_direct_recipe(canvas, x0, y0, recipe, &inputs)
}

/// A belt that tunnels under a wall, on row `y` from column `x0`:
///
/// ```text
///   S > d # u > K
/// ```
pub open spec fn cross_grid(canvas: Canvas, x0: int, y: int, item: Item) -> GridView {
    canvas.blank().block(x0 + 3, y, true).put(x0, y, placing::source_cell(item)).put(
        x0 + 1,
        y,
        Cell::belt_cell(Direction::East),
    ).put(x0 + 2, y, placing::tunnel_cell(Direction::East, Misc::UndergroundDown)).put(
        x0 + 4,
        y,
        placing::tunnel_cell(Direction::East, Misc::UndergroundUp),
    ).put(x0 + 5, y, Cell::belt_cell(Direction::East)).put(x0 + 6, y, placing::sink_cell(item))
}

/// The tunnel as a lesson: the belts and both ends of the tunnel may be blanked.
pub open spec fn cross_sample(canvas: Canvas, x0: int, y: int, item: Item) -> SampleView {
    let g = cross_grid(canvas, x0, y, item);
    SampleView {
        kind: LessonKind::UndergroundCross,
        solution: g,
        protected: seq![g.slot(x0, y), g.slot(x0 + 6, y)],
        removable: seq![g.slot(x0 + 1, y), g.slot(x0 + 2, y), g.slot(x0 + 4, y), g.slot(x0 + 5, y)],
    }
}

/// What a tunnel lists: its ends are protected, and what may be blanked is neither.
proof fn lemma_cross_lists(canvas: Canvas, x0: int, y: int, item: Item)
    requires
        canvas.holdable(),
        0 <= x0 && x0 + 7 <= canvas.width,
        0 <= y < canvas.height,
    ensures
        ({
            let s = cross_sample(canvas, x0, y, item);
            &&& s.valid()
            &&& forall|k: int|
                0 <= k < s.removable.len() ==> {
                    let i = #[trigger] s.removable[k];
                    !s.protected.contains(i) && !lesson::is_port(s.solution.cells[i])
                }
            &&& forall|k: int|
                0 <= k < s.protected.len()
                    ==> s.solution.cells[#[trigger] s.protected[k]].entity !is Empty
            &&& lesson::ports_listed(s.solution, s.protected)
        }),
{
    broadcast use {
        grid::lemma_slot,
        grid::lemma_put_at,
        grid::lemma_blank_at,
        grid::lemma_block_at,
    };

    let want = cross_sample(canvas, x0, y, item);
    let g = want.solution;
    assert(g.at(x0, y) == g.cells[want.protected[0]]);
    assert(g.at(x0 + 6, y) == g.cells[want.protected[1]]);
    assert(g.at(x0 + 1, y) == g.cells[want.removable[0]]);
    assert(g.at(x0 + 2, y) == g.cells[want.removable[1]]);
    assert(g.at(x0 + 4, y) == g.cells[want.removable[2]]);
    assert(g.at(x0 + 5, y) == g.cells[want.removable[3]]);
    assert(want.protected.contains(want.protected[0]) && want.protected.contains(
        want.protected[1],
    ));
    lemma_ports_listed(g, want.protected);
}

/// Put the wall, the belts and the tunnel on an empty board.
fn lay_cross(canvas: Canvas, x0: usize, y: usize, item: Item) -> (grid: Grid)
    requires
        canvas.holdable(),
        x0 + 7 <= canvas.width,
        y < canvas.height,
    ensures
        grid.wf(),
        grid@ == cross_grid(canvas, x0 as int, y as int, item),
        grid@.consistent(),
        grid.width == canvas.width,
        grid.height == canvas.height,
{
    broadcast use {grid::lemma_slot, grid::lemma_blank_at, grid::lemma_block_at};

    let mut grid = canvas.grid();
    proof {
        grid::lemma_slot(grid@, x0 + 3, y as int);
    }
    grid.set_obstacle(x0 + 3, y, true);
    let ghost wall = grid@;
    proof {
        placing::lemma_bare(grid@);
        assert forall|tx: int, ty: int| #[trigger]
            wall.inside(tx, ty) && !(tx == x0 + 3 && ty == y) implies !wall.blocked(tx, ty) by {
            grid::lemma_block_at(canvas.blank(), x0 + 3, y as int, true, tx, ty);
        }
    }
    place(&mut grid, x0, y, source(item));
    assert forall|tx: int, ty: int| #[trigger] grid@.inside(tx, ty) implies grid@.blocked(tx, ty)
        == wall.blocked(tx, ty) by {
        assert(wall.inside(tx, ty));
    }
    place(&mut grid, x0 + 1, y, Cell::belt(Direction::East));
    place(&mut grid, x0 + 2, y, tunnel(Direction::East, Misc::UndergroundDown));
    place(&mut grid, x0 + 4, y, tunnel(Direction::East, Misc::UndergroundUp));
    place(&mut grid, x0 + 5, y, Cell::belt(Direction::East));
    place(&mut grid, x0 + 6, y, sink(item));
    grid
}

/// Lay out a belt that tunnels under a wall.
pub fn build_underground_cross(canvas: Canvas, x0: usize, y: usize, item: Item) -> (r: Option<Sample>)
    requires
        canvas.holdable(),
        x0 + 7 <= canvas.width,
        y < canvas.height,
    ensures
        r is Some,
        r matches Some(s) ==> s@ == cross_sample(canvas, x0 as int, y as int, item) && s@.sound(),
        r matches Some(s) ==> aim::aimed(s@.solution) && delivery::feeds_a_sink(s@.solution),
        r matches Some(s) ==> layouts::walled_between_ends(s@.solution),
{
    let grid = lay_cross(canvas, x0, y, item);
    let ghost (ax, ay) = (x0 as int, y as int);
    let ghost want = cross_sample(canvas, ax, ay, item);
    proof {
        aim::lemma_cross_aimed(canvas, ax, ay, item);
        layouts::lemma_cross_walled(canvas, ax, ay, item);
        works::lemma_cross_works(canvas, ax, ay, item);
        delivery::law_what_feeds_a_sink_works(grid@);
        lemma_cross_lists(canvas, ax, ay, item);
        assert(grid.cells.len() <= usize::MAX);
        grid::lemma_slot(grid@, ax, ay);
        grid::lemma_slot(grid@, ax + 1, ay);
        grid::lemma_slot(grid@, ax + 2, ay);
        grid::lemma_slot(grid@, ax + 4, ay);
        grid::lemma_slot(grid@, ax + 5, ay);
        grid::lemma_slot(grid@, ax + 6, ay);
    }
    let protected = vec![grid.idx(x0, y), grid.idx(x0 + 6, y)];
    let removable = vec![
        grid.idx(x0 + 1, y),
        grid.idx(x0 + 2, y),
        grid.idx(x0 + 4, y),
        grid.idx(x0 + 5, y),
    ];
    assert(lesson::ints(protected@) =~= want.protected);
    assert(lesson::ints(removable@) =~= want.removable);
    finish(LessonKind::UndergroundCross, grid, protected, removable)
}

/// The plates that a tunnel carries.
pub open spec fn plate(k: int) -> Item {
    if k == 0 {
        Item::IronPlate
    } else {
        Item::CopperPlate
    }
}

/// Which tunnel, if any, is drawn from a stream, and the stream afterwards.
pub open spec fn cross_lesson(canvas: Canvas, r: RandomStream) -> (
    Option<SampleView>,
    RandomStream,
) {
    if !LessonKind::UndergroundCross.fits_on(canvas) {
        (None, r)
    } else {
        let (y, r) = r.roll(canvas.height as int);
        let (x0, r) = r.roll(canvas.width - 7 + 1);
        let (k, r) = r.select(2);
        (working(cross_sample(canvas, x0, y, plate(k))), r)
    }
}

/// Draw a belt that tunnels under a wall.
pub fn gen_underground_cross(canvas: Canvas, rng: &mut RandomStream) -> (r: Option<Sample>)
    requires
        canvas.holdable(),
    ensures
        (sample_option(r), *final(rng)) == cross_lesson(canvas, *old(rng)),
        r matches Some(s) ==> s@.sound() && aim::aimed(s@.solution),
        r matches Some(s) ==> delivery::feeds_a_sink(s@.solution),
        r matches Some(s) ==> s@.kind is UndergroundCross && layouts::walled_between_ends(
            s@.solution,
        ),
        r is Some <==> LessonKind::UndergroundCross.fits_on(canvas),
{
    if !LessonKind::UndergroundCross.fits(canvas) {
        return None;
    }
    let y = rng.below(canvas.height);
    let x0 = rng.below(canvas.width - 7 + 1);
    let item = if rng.pick(2) == 0 { Item::IronPlate } else { Item::CopperPlate };
    build_underground_cross(canvas, x0, y, item)
}

} // verus!
