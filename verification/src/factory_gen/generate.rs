//! Drawing lessons until one works.

use vstd::prelude::*;
use crate::factory_gen::aim;
use crate::factory_gen::canvas::{
    Canvas, LessonKind, BANK_LINES, CABLE_FEEDS, CIRCUIT_H, CIRCUIT_W, LINE_H, LINE_W, SHARED_H,
    SHARED_LINES, SHARED_W,
};
use crate::factory_gen::chaos;
use crate::factory_gen::chaos::gen_assembler_chaos;
use crate::factory_gen::choices;
use crate::factory_gen::choices::{gen_assembler_bank, gen_circuit_line, gen_shared_line};
use crate::factory_gen::layouts;
use crate::factory_gen::lesson::{Sample, SampleView};
use crate::factory_gen::placing;
use crate::factory_gen::route;
use crate::factory_gen::routed;
use crate::factory_gen::routed::gen_move_one_item;
use crate::factory_gen::templates;
use crate::factory_gen::templates::{gen_assembler_line, gen_direct_recipe, gen_underground_cross};
use crate::random::RandomStream;
use crate::throughput::delivery;
use crate::world::grid::GridView;
use crate::world::{Direction, Item};

verus! {

/// One attempt at a lesson of a family, and the stream afterwards.
#[verifier::opaque]
pub open spec fn attempt(kind: LessonKind, canvas: Canvas, r: RandomStream) -> (
    Option<SampleView>,
    RandomStream,
) {
    match kind {
        LessonKind::MoveOneItem => routed::move_lesson(canvas, r, false),
        LessonKind::MoveOneItemChaos => routed::move_lesson(canvas, r, true),
        LessonKind::AssemblerLine => templates::line_lesson(canvas, r),
        LessonKind::AssemblerChaos => chaos::chaos_lesson(canvas, r),
        LessonKind::DirectRecipe => templates::direct_lesson(canvas, r),
        LessonKind::UndergroundCross => templates::cross_lesson(canvas, r),
        LessonKind::AssemblerBank => choices::bank_lesson(canvas, r),
        LessonKind::CircuitLine => choices::circuit_lesson(canvas, r),
        LessonKind::SharedLine => choices::shared_lesson(canvas, r),
    }
}

/// The first lesson that `n` attempts in a row give.
pub open spec fn first_lesson(kind: LessonKind, canvas: Canvas, r: RandomStream, n: nat) -> Option<
    SampleView,
>
    decreases n,
{
    if n == 0 {
        None
    } else {
        let (s, after) = attempt(kind, canvas, r);
        if s is Some {
            s
        } else {
            first_lesson(kind, canvas, after, (n - 1) as nat)
        }
    }
}

/// How many attempts are made: forty for every tile, and at least five hundred.
pub open spec fn budget(canvas: Canvas) -> nat {
    if canvas.width * canvas.height * 40 >= 500 {
        (canvas.width * canvas.height * 40) as nat
    } else {
        500
    }
}

/// The families that place a fixed layout: on a canvas they fit on, every attempt works.
pub open spec fn is_template(kind: LessonKind) -> bool {
    !(kind is MoveOneItem || kind is MoveOneItemChaos || kind is AssemblerChaos)
}

/// A family that does not fit on a canvas gives no lesson, however often it is tried.
pub proof fn law_nothing_generated_where_nothing_fits(
    kind: LessonKind,
    canvas: Canvas,
    r: RandomStream,
    n: nat,
)
    requires
        !kind.fits_on(canvas),
    ensures
        first_lesson(kind, canvas, r, n) is None,
    decreases n,
{
    reveal(attempt);
    if n > 0 {
        law_nothing_generated_where_nothing_fits(
            kind,
            canvas,
            attempt(kind, canvas, r).1,
            (n - 1) as nat,
        );
    }
}

/// Belts along a route leave the shape of the board as it is.
proof fn lemma_belted_shape(
    g: GridView,
    start: (int, int),
    m: Seq<Direction>,
    k: nat,
)
    ensures
        route::belted(g, start, m, k).width == g.width,
        route::belted(g, start, m, k).height == g.height,
    decreases k,
{
    if k > 0 {
        lemma_belted_shape(g, start, m, (k - 1) as nat);
    }
}

proof fn lemma_scattered_shape(canvas: Canvas, r: RandomStream, n: nat)
    ensures
        routed::scattered(canvas, r, n).0.width == canvas.width,
        routed::scattered(canvas, r, n).0.height == canvas.height,
    decreases n,
{
    if n > 0 {
        lemma_scattered_shape(canvas, r, (n - 1) as nat);
    }
}

proof fn lemma_column_shape(g: GridView, x: int, from: int, end: int)
    ensures
        choices::south_column(g, x, from, end).width == g.width,
        choices::south_column(g, x, from, end).height == g.height,
    decreases end - from,
{
    if end > from {
        lemma_column_shape(g, x, from, end - 1);
    }
}

proof fn lemma_bank_shape(g: GridView, x0: int, y0: int, recipe: Item, first: int, end: int)
    ensures
        choices::bank_lines(g, x0, y0, recipe, first, end).width == g.width,
        choices::bank_lines(g, x0, y0, recipe, first, end).height == g.height,
    decreases end - first,
{
    if end > first {
        lemma_bank_shape(g, x0, y0, recipe, first, end - 1);
    }
}

proof fn lemma_feeds_shape(g: GridView, x0: int, y0: int, n: int)
    ensures
        choices::cable_feeds(g, x0, y0, n).width == g.width,
        choices::cable_feeds(g, x0, y0, n).height == g.height,
    decreases n,
{
    if n > 0 {
        lemma_feeds_shape(g, x0, y0, n - 1);
    }
}

/// Whether a lesson is of the given family and on a board of the given shape.
pub open spec fn matches_request(s: SampleView, kind: LessonKind, canvas: Canvas) -> bool {
    s.kind == kind && s.solution.width == canvas.width && s.solution.height == canvas.height
}

/// A pair of faces gives a lesson on a board of the same shape.
proof fn lemma_pair_shape(
    g: GridView,
    canvas: Canvas,
    source: (int, int),
    sink: (int, int),
    site: (int, int),
    p: ((int, int), (int, int)),
)
    ensures
        chaos::pair_lesson(g, canvas, source, sink, site, p) matches Some(s) ==> {
            &&& s.kind is AssemblerChaos
            &&& s.solution.width == g.width
            &&& s.solution.height == g.height
        },
{
    if chaos::pair_lesson(g, canvas, source, sink, site, p) is Some {
        let (load, unload) = p;
        let pickup = chaos::behind(g, site, load);
        let drop = chaos::behind(g, site, unload);
        let clear = chaos::without(chaos::faces(g, site), load, unload);
        let c1 = chaos::fitted(g, site, load, unload);
        let m1 = route::best_route(c1, source, pickup, clear)->0;
        let c2 = route::belted(c1, source, m1, (m1.len() - 1) as nat);
        lemma_belted_shape(c1, source, m1, (m1.len() - 1) as nat);
        let away = clear + route::neighbourhood(canvas, source);
        let m2 = route::best_route(c2, drop, sink, away)->0;
        lemma_belted_shape(c2, drop, m2, (m2.len() - 1) as nat);
    }
}

proof fn lemma_move_matches(canvas: Canvas, r: RandomStream, chaos: bool)
    ensures
        routed::move_lesson(canvas, r, chaos).0 matches Some(s) ==> matches_request(
            s,
            if chaos {
                LessonKind::MoveOneItemChaos
            } else {
                LessonKind::MoveOneItem
            },
            canvas,
        ),
{
    let n = routed::obstacle_count(canvas);
    lemma_scattered_shape(canvas, r, n);
    let (board, r) = if chaos {
        routed::scattered(canvas, r, n)
    } else {
        (canvas.blank(), r)
    };
    let (source, r) = routed::roll_cell(canvas, r);
    let (sink, r) = routed::roll_cell(canvas, r);
    let item = routed::cargo(r.select(3).0);
    let task = board.put(source.0, source.1, placing::source_cell(item)).put(
        sink.0,
        sink.1,
        placing::sink_cell(item),
    );
    if let Some(m) = route::best_route(task, source, sink, seq![]) {
        lemma_belted_shape(task, source, m, (m.len() - 1) as nat);
    }
}

proof fn lemma_chaos_matches(canvas: Canvas, r: RandomStream)
    ensures
        chaos::chaos_lesson(canvas, r).0 matches Some(s) ==> matches_request(
            s,
            LessonKind::AssemblerChaos,
            canvas,
        ),
{
    let n = routed::obstacle_count(canvas);
    lemma_scattered_shape(canvas, r, n);
    let (board, r) = routed::scattered(canvas, r, n);
    let (k, r) = r.select(2);
    let (source, r) = routed::roll_cell(canvas, r);
    let (sink, r) = routed::roll_cell(canvas, r);
    let recipe = templates::single_input_product(k);
    let task = chaos::posed(board, source, sink, recipe);
    if let Some(site) = route::best_site(task, source, sink) {
        let g = task.put(site.0, site.1, placing::machine_cell(recipe));
        if exists|p: ((int, int), (int, int))| #[trigger]
            chaos::is_first_pair(g, canvas, source, sink, site, p) {
            let p = choose|p: ((int, int), (int, int))| #[trigger]
                chaos::is_first_pair(g, canvas, source, sink, site, p);
            lemma_pair_shape(g, canvas, source, sink, site, p);
        }
    }
}

proof fn lemma_bank_matches(canvas: Canvas, r: RandomStream)
    ensures
        choices::bank_lesson(canvas, r).0 matches Some(s) ==> matches_request(
            s,
            LessonKind::AssemblerBank,
            canvas,
        ),
{
    let (y0, r) = r.roll(canvas.height - 9 + 1);
    let (x0, r) = r.roll(canvas.width - LINE_W + 1);
    let (k, r) = r.select(2);
    let (extra, r) = r.roll(BANK_LINES as int);
    let recipe = templates::single_input_product(k);
    let first = BANK_LINES - (1 + extra);
    let ports = choices::bank_ports(canvas, x0, y0, recipe);
    lemma_bank_shape(ports, x0, y0, recipe, first, BANK_LINES as int);
    lemma_column_shape(
        choices::bank_lines(ports, x0, y0, recipe, first, BANK_LINES as int),
        x0 + 6,
        y0 + LINE_H * first + 1,
        y0 + 7,
    );
}

proof fn lemma_circuit_matches(canvas: Canvas, r: RandomStream)
    ensures
        choices::circuit_lesson(canvas, r).0 matches Some(s) ==> matches_request(
            s,
            LessonKind::CircuitLine,
            canvas,
        ),
{
    let (x0, r) = r.roll(canvas.width - CIRCUIT_W + 1);
    let (y0, r) = r.roll(canvas.height - CIRCUIT_H + 1);
    let (extra, r) = r.roll(CABLE_FEEDS as int);
    lemma_feeds_shape(choices::circuit_frame(canvas, x0, y0), x0, y0, 1 + extra);
}

proof fn lemma_shared_matches(canvas: Canvas, r: RandomStream)
    ensures
        choices::shared_lesson(canvas, r).0 matches Some(s) ==> matches_request(
            s,
            LessonKind::SharedLine,
            canvas,
        ),
{
    let (x0, r) = r.roll(canvas.width - SHARED_W + 1);
    let (y0, r) = r.roll(canvas.height - SHARED_H + 1);
    let (k, r) = r.select(2);
    let (extra, r) = r.roll(SHARED_LINES as int);
    let recipe = templates::single_input_product(k);
    let ports = choices::shared_ports(canvas, x0, y0, recipe);
    let head = choices::shared_head(ports, x0, y0, 1 + extra);
    let upper = choices::shared_branch(head, x0, y0, recipe);
    let both = if 1 + extra > 1 {
        choices::shared_branch(upper, x0, y0 + 4, recipe)
    } else {
        upper
    };
    lemma_column_shape(both, x0 + 10, y0, y0 + 4);
}

proof fn lemma_attempt_matches(kind: LessonKind, canvas: Canvas, r: RandomStream)
    ensures
        attempt(kind, canvas, r).0 matches Some(s) ==> matches_request(s, kind, canvas),
{
    reveal(attempt);
    match kind {
        LessonKind::MoveOneItem => lemma_move_matches(canvas, r, false),
        LessonKind::MoveOneItemChaos => lemma_move_matches(canvas, r, true),
        LessonKind::AssemblerChaos => lemma_chaos_matches(canvas, r),
        LessonKind::AssemblerBank => lemma_bank_matches(canvas, r),
        LessonKind::CircuitLine => lemma_circuit_matches(canvas, r),
        LessonKind::SharedLine => lemma_shared_matches(canvas, r),
        _ => {},
    }
}

/// A lesson is of the family that was asked for, and on a board of the shape that was
/// asked for.
pub proof fn law_lessons_match_the_request(
    kind: LessonKind,
    canvas: Canvas,
    r: RandomStream,
    n: nat,
)
    ensures
        first_lesson(kind, canvas, r, n) matches Some(s) ==> matches_request(s, kind, canvas),
    decreases n,
{
    if n > 0 {
        lemma_attempt_matches(kind, canvas, r);
        law_lessons_match_the_request(kind, canvas, attempt(kind, canvas, r).1, (n - 1) as nat);
    }
}

/// One attempt at a lesson of a family.
fn draw(kind: LessonKind, canvas: Canvas, rng: &mut RandomStream) -> (r: Option<Sample>)
    requires
        canvas.holdable(),
    ensures
        (templates::sample_option(r), *final(rng)) == attempt(kind, canvas, *old(rng)),
        r matches Some(s) ==> s@.sound() && aim::aimed(s@.solution),
        r matches Some(s) ==> delivery::feeds_a_sink(s@.solution),
        r matches Some(s) ==> (kind is AssemblerChaos ==> chaos::machine_implied(s@.solution)),
        r matches Some(s) ==> (kind is UndergroundCross ==> layouts::walled_between_ends(
            s@.solution,
        )),
        is_template(kind) && kind.fits_on(canvas) ==> r is Some,
{
    reveal(attempt);
    match kind {
        LessonKind::MoveOneItem => gen_move_one_item(canvas, rng, false),
        LessonKind::MoveOneItemChaos => gen_move_one_item(canvas, rng, true),
        LessonKind::AssemblerLine => gen_assembler_line(canvas, rng),
        LessonKind::AssemblerChaos => gen_assembler_chaos(canvas, rng),
        LessonKind::DirectRecipe => gen_direct_recipe(canvas, rng),
        LessonKind::UndergroundCross => gen_underground_cross(canvas, rng),
        LessonKind::AssemblerBank => gen_assembler_bank(canvas, rng),
        LessonKind::CircuitLine => gen_circuit_line(canvas, rng),
        LessonKind::SharedLine => gen_shared_line(canvas, rng),
    }
}

/// Generate a factory of a family that works, with fresh draws until one does. The
/// result depends on the family, the canvas and the seed alone.
pub fn generate(kind: LessonKind, canvas: Canvas, seed: u64) -> (r: Option<Sample>)
    requires
        canvas.holdable(),
        canvas.width * canvas.height * 40 <= usize::MAX,
    ensures
        templates::sample_option(r) == first_lesson(
            kind,
            canvas,
            RandomStream::of(seed),
            budget(canvas),
        ),
        r matches Some(s) ==> s@.sound() && aim::aimed(s@.solution),
        r matches Some(s) ==> delivery::feeds_a_sink(s@.solution),
        r matches Some(s) ==> (kind is AssemblerChaos ==> chaos::machine_implied(s@.solution)),
        r matches Some(s) ==> (kind is UndergroundCross ==> layouts::walled_between_ends(
            s@.solution,
        )),
        is_template(kind) && kind.fits_on(canvas) ==> r is Some,
        !kind.fits_on(canvas) ==> r is None,
        r matches Some(s) ==> matches_request(s@, kind, canvas),
{
    let mut rng = RandomStream::seed_from_u64(seed);
    proof {
        law_lessons_match_the_request(kind, canvas, rng, budget(canvas));
        if !kind.fits_on(canvas) {
            law_nothing_generated_where_nothing_fits(kind, canvas, rng, budget(canvas));
        }
    }
    let tries: usize = canvas.area() * 40;
    let n: usize = if tries >= 500 { tries } else { 500 };
    let mut left: usize = n;
    while left > 0
        invariant
            canvas.holdable(),
            n == budget(canvas),
            left <= n,
            first_lesson(kind, canvas, rng, left as nat) == first_lesson(
                kind,
                canvas,
                RandomStream::of(seed),
                n as nat,
            ),
            is_template(kind) && kind.fits_on(canvas) ==> left == n,
            first_lesson(kind, canvas, RandomStream::of(seed), n as nat) matches Some(s)
                ==> matches_request(s, kind, canvas),
            !kind.fits_on(canvas) ==> first_lesson(
                kind,
                canvas,
                RandomStream::of(seed),
                n as nat,
            ) is None,
        decreases left,
    {
        let built = draw(kind, canvas, &mut rng);
        if built.is_some() {
            return built;
        }
        left = left - 1;
    }
    None
}

} // verus!
