//! Lessons whose belts are routed through the board they are given.

use vstd::prelude::*;
use crate::factory_gen::aim;
use crate::factory_gen::canvas::{Canvas, LessonKind};
use crate::factory_gen::carries;
use crate::factory_gen::lesson;
use crate::factory_gen::lesson::{Sample, SampleView};
use crate::factory_gen::placing;
use crate::factory_gen::placing::{place, sink, source};
use crate::factory_gen::route;
use crate::factory_gen::route::{belt_run, manhattan};
use crate::factory_gen::templates;
use crate::factory_gen::templates::finish;
use crate::random::RandomStream;
use crate::throughput::delivery;
use crate::world;
use crate::world::grid;
use crate::world::grid::GridView;
use crate::world::{Cell, Direction, Grid, Item};

verus! {

/// Whether a route visits a tile within its first `k` steps, its start aside.
pub open spec fn on_route(start: (int, int), m: Seq<Direction>, k: int, x: int, y: int) -> bool {
    exists|i: int| 1 <= i <= k && #[trigger] route::walk(start, m.take(i)) == (x, y)
}

/// Belts along the best route keep a factory well formed. They take the tiles of the
/// route and no others, and leave every source and sink as it is.
pub proof fn lemma_belted(
    g: GridView,
    start: (int, int),
    goal: (int, int),
    avoid: Seq<(int, int)>,
    m: Seq<Direction>,
    k: nat,
)
    requires
        g.valid(),
        g.consistent(),
        route::is_best_route(g, start, goal, avoid, m),
        k < m.len(),
    ensures
        ({
            let b = route::belted(g, start, m, k);
            &&& b.valid()
            &&& b.consistent()
            &&& b.width == g.width
            &&& b.height == g.height
            &&& b.obstacle == g.obstacle
            &&& forall|x: int, y: int| #[trigger]
                placing::taken(b, x, y) <==> placing::taken(g, x, y) || on_route(
                    start,
                    m,
                    k as int,
                    x,
                    y,
                )
            &&& forall|x: int, y: int| #[trigger]
                g.inside(x, y) && placing::taken(g, x, y) ==> b.at(x, y) == g.at(x, y)
            &&& forall|x: int, y: int| #[trigger]
                g.inside(x, y) && on_route(start, m, k as int, x, y) ==> b.at(x, y).entity is TransportBelt
            &&& forall|x: int, y: int| #[trigger]
                g.inside(x, y) ==> lesson::is_port(b.at(x, y)) == lesson::is_port(g.at(x, y))
        }),
    decreases k,
{
    let b = route::belted(g, start, m, k);
    if k == 0 {
        assert forall|x: int, y: int| !on_route(start, m, 0, x, y) by {}
    } else {
        lemma_belted(g, start, goal, avoid, m, (k - 1) as nat);
        let a = route::belted(g, start, m, (k - 1) as nat);
        let p = route::walk(start, m.take(k as int));
        let cell = Cell::belt_cell(m[k as int]);
        route::law_best_route_is_free(g, start, goal, avoid, m, k as int);
        placing::lemma_taken(g, p.0, p.1);
        assert(!on_route(start, m, k - 1, p.0, p.1)) by {
            if on_route(start, m, k - 1, p.0, p.1) {
                let i = choose|i: int|
                    1 <= i <= k - 1 && #[trigger] route::walk(start, m.take(i)) == (p.0, p.1);
                route::law_best_route_is_simple(g, start, goal, avoid, m, i, k as int);
            }
        }
        assert(placing::clear_for(a, p.0, p.1, cell)) by {
            assert forall|x: int, y: int| #[trigger]
                placing::spans(cell, p.0, p.1, x, y) implies a.inside(x, y) && !a.blocked(x, y)
                && !placing::taken(a, x, y) by {
                assert(x == p.0 && y == p.1);
            }
        }
        placing::lemma_place(a, p.0, p.1, cell);
        grid::lemma_slot(a, p.0, p.1);
        assert forall|x: int, y: int| on_route(start, m, k as int, x, y) <==> on_route(
            start,
            m,
            k - 1,
            x,
            y,
        ) || (x, y) == p by {
            if on_route(start, m, k - 1, x, y) {
                let i = choose|i: int|
                    1 <= i <= k - 1 && #[trigger] route::walk(start, m.take(i)) == (x, y);
                assert(route::walk(start, m.take(i)) == (x, y));
            }
            if (x, y) == p {
                assert(route::walk(start, m.take(k as int)) == (x, y));
            }
        }
        placing::lemma_taken(a, p.0, p.1);
        assert(!lesson::is_port(a.at(p.0, p.1)));
        assert forall|x: int, y: int| #[trigger] g.inside(x, y) implies lesson::is_port(b.at(x, y))
            == lesson::is_port(g.at(x, y)) && (placing::taken(g, x, y) ==> b.at(x, y) == g.at(x, y))
            && (on_route(start, m, k as int, x, y) ==> b.at(x, y).entity is TransportBelt) by {
            grid::lemma_put_at(a, p.0, p.1, cell, x, y);
        }
        assert forall|x: int, y: int| #[trigger]
            placing::taken(b, x, y) <==> placing::taken(g, x, y) || on_route(
                start,
                m,
                k as int,
                x,
                y,
            ) by {
            assert(placing::spans(cell, p.0, p.1, x, y) <==> (x, y) == p);
            assert(placing::taken(b, x, y) <==> placing::taken(a, x, y) || placing::spans(
                cell,
                p.0,
                p.1,
                x,
                y,
            ));
        }
    }
}

/// A tile of the board drawn from a stream, and the stream afterwards.
pub open spec fn roll_cell(canvas: Canvas, r: RandomStream) -> ((int, int), RandomStream) {
    let (x, r) = r.roll(canvas.width as int);
    let (y, r) = r.roll(canvas.height as int);
    ((x, y), r)
}

/// Draw a tile of the board.
pub fn random_cell(canvas: Canvas, rng: &mut RandomStream) -> (r: (usize, usize))
    requires
        canvas.width > 0,
        canvas.height > 0,
    ensures
        (grid::pos(r), *final(rng)) == roll_cell(canvas, *old(rng)),
        r.0 < canvas.width,
        r.1 < canvas.height,
{
    let x = rng.below(canvas.width);
    let y = rng.below(canvas.height);
    (x, y)
}

/// A board with `n` obstacles scattered over it, and the stream afterwards.
pub open spec fn scattered(canvas: Canvas, r: RandomStream, n: nat) -> (GridView, RandomStream)
    decreases n,
{
    if n == 0 {
        (canvas.blank(), r)
    } else {
        let (g, r) = scattered(canvas, r, (n - 1) as nat);
        let (p, r) = roll_cell(canvas, r);
        (g.block(p.0, p.1, true), r)
    }
}

/// One obstacle for every ten tiles, and at least one.
pub open spec fn obstacle_count(canvas: Canvas) -> nat {
    if canvas.width * canvas.height / 10 >= 1 {
        (canvas.width * canvas.height / 10) as nat
    } else {
        1
    }
}

/// Whether nothing is stored on a board.
pub open spec fn bare(g: GridView) -> bool {
    forall|i: int| 0 <= i < g.cells.len() ==> #[trigger] g.cells[i] == world::empty_cell()
}

/// Scatter obstacles over about a tenth of a board.
pub fn scatter(canvas: Canvas, rng: &mut RandomStream) -> (r: Grid)
    requires
        canvas.holdable(),
        canvas.width > 0,
        canvas.height > 0,
    ensures
        r.wf(),
        bare(r@),
        r.width == canvas.width,
        r.height == canvas.height,
        (r@, *final(rng)) == scattered(canvas, *old(rng), obstacle_count(canvas)),
{
    let mut grid = canvas.grid();
    let tenth: usize = canvas.area() / 10;
    let n: usize = if tenth >= 1 { tenth } else { 1 };
    let mut k: usize = 0;
    while k < n
        invariant
            canvas.width > 0,
            canvas.height > 0,
            grid.wf(),
            bare(grid@),
            grid.width == canvas.width,
            grid.height == canvas.height,
            k <= n,
            (grid@, *rng) == scattered(canvas, *old(rng), k as nat),
        decreases n - k,
    {
        let (x, y) = random_cell(canvas, rng);
        proof {
            grid::lemma_slot(grid@, x as int, y as int);
        }
        grid.set_obstacle(x, y, true);
        k = k + 1;
    }
    grid
}

/// The answer to the task of carrying `item` from `source` to `sink`: belts along the
/// best route, if there is one that is longer than a single step.
pub open spec fn move_answer(
    board: GridView,
    source: (int, int),
    sink: (int, int),
    item: Item,
    kind: LessonKind,
) -> Option<SampleView> {
    let task = board.put(source.0, source.1, placing::source_cell(item)).put(
        sink.0,
        sink.1,
        placing::sink_cell(item),
    );
    match route::best_route(task, source, sink, seq![]) {
        Some(m) => if m.len() < 2 {
            None
        } else {
            templates::working(
                SampleView {
                    kind,
                    solution: route::belted(task, source, m, (m.len() - 1) as nat),
                    protected: seq![task.slot(source.0, source.1), task.slot(sink.0, sink.1)],
                    removable: route::between(task, source, m),
                },
            )
        },
        None => None,
    }
}

/// Whether a lesson carries an item from one tile to another over belts: the source of the
/// item at the one, its sink at the other, nothing but belts elsewhere, the obstacles as
/// they were on the board, and exactly the belts listed as what may be blanked.
#[verifier::opaque]
pub open spec fn one_run(
    board: GridView,
    source: (int, int),
    sink: (int, int),
    item: Item,
    s: SampleView,
) -> bool {
    &&& s.solution.obstacle == board.obstacle
    &&& (s.solution.width, s.solution.height) == (board.width, board.height)
    &&& forall|x: int, y: int| #[trigger]
        board.inside(x, y) ==> {
            let c = s.solution.at(x, y);
            let i = y * board.width + x;
            if (x, y) == source {
                c.entity is Source && c.item == item && s.protected.contains(i)
            } else if (x, y) == sink {
                c.entity is Sink && c.item == item && s.protected.contains(i)
            } else {
                &&& c.entity is Empty || c.entity is TransportBelt
                &&& c.item is Nothing
                &&& c.entity is TransportBelt <==> s.removable.contains(i)
            }
        }
}

/// The lesson of a run of belts is one run.
proof fn lemma_one_run(
    board: GridView,
    source: (int, int),
    sink: (int, int),
    item: Item,
    s: SampleView,
    m: Seq<Direction>,
)
    requires
        board.valid(),
        bare(board),
        board.inside(source.0, source.1),
        board.inside(sink.0, sink.1),
        source != sink,
        ({
            let task = board.put(source.0, source.1, placing::source_cell(item)).put(
                sink.0,
                sink.1,
                placing::sink_cell(item),
            );
            &&& task.consistent()
            &&& route::is_best_route(task, source, sink, seq![], m)
            &&& m.len() >= 2
            &&& s.solution == route::belted(task, source, m, (m.len() - 1) as nat)
            &&& s.protected == seq![task.slot(source.0, source.1), task.slot(sink.0, sink.1)]
            &&& s.removable == route::between(task, source, m)
        }),
    ensures
        one_run(board, source, sink, item, s),
{
    reveal(one_run);
    let fed = board.put(source.0, source.1, placing::source_cell(item));
    let task = fed.put(sink.0, sink.1, placing::sink_cell(item));
    let n = (m.len() - 1) as nat;
    let b = s.solution;
    grid::lemma_slot(board, source.0, source.1);
    grid::lemma_slot(board, sink.0, sink.1);
    lemma_belted(task, source, sink, seq![], m, n);
    let kept = s.protected;
    assert(kept.contains(kept[0]) && kept.contains(kept[1]));
    assert forall|x: int, y: int| #[trigger] board.inside(x, y) implies {
        let c = b.at(x, y);
        let i = y * board.width + x;
        if (x, y) == source {
            c.entity is Source && c.item == item && kept.contains(i)
        } else if (x, y) == sink {
            c.entity is Sink && c.item == item && kept.contains(i)
        } else {
            &&& c.entity is Empty || c.entity is TransportBelt
            &&& c.item is Nothing
            &&& c.entity is TransportBelt <==> s.removable.contains(i)
        }
    } by {
        grid::lemma_slot(board, x, y);
        grid::lemma_put_at(board, source.0, source.1, placing::source_cell(item), x, y);
        grid::lemma_put_at(fed, sink.0, sink.1, placing::sink_cell(item), x, y);
        assert(board.at(x, y) == board.cells[board.slot(x, y)]);
        route::laws::law_belts_face_along_the_route(task, source, sink, seq![], m, n, x, y);
        let i = task.slot(x, y);
        if on_route(source, m, n as int, x, y) {
            let k = choose|k: int| 1 <= k <= n && #[trigger] route::walk(source, m.take(k)) == (x, y);
            route::law_best_route_is_free(task, source, sink, seq![], m, k);
            assert(s.removable[k - 1] == i);
            assert(s.removable.contains(i));
        } else if s.removable.contains(i) {
            let k = s.removable.index_of(i);
            let p = route::walk(source, m.take(k + 1));
            route::law_best_route_is_free(task, source, sink, seq![], m, k + 1);
            grid::lemma_slot_injective(task, x, y, p.0, p.1);
        }
        if (x, y) == source || (x, y) == sink {
            assert forall|k: int| 1 <= k <= n implies #[trigger] route::walk(source, m.take(k)) != (
                x,
                y,
            ) by {
                route::law_best_route_is_free(task, source, sink, seq![], m, k);
            }
        }
    }
}

/// Carry `item` from `start` to `goal` over a board of obstacles.
pub fn build_move_one_item(
    board: Grid,
    start: (usize, usize),
    goal: (usize, usize),
    item: Item,
    kind: LessonKind,
) -> (r: Option<Sample>)
    requires
        board.wf(),
        bare(board@),
        board@.inside(start.0 as int, start.1 as int),
        board@.inside(goal.0 as int, goal.1 as int),
        !board@.blocked(start.0 as int, start.1 as int),
        !board@.blocked(goal.0 as int, goal.1 as int),
        start != goal,
    ensures
        templates::sample_option(r) == move_answer(
            board@,
            grid::pos(start),
            grid::pos(goal),
            item,
            kind,
        ),
        r matches Some(s) ==> s@.sound() && aim::aimed(s@.solution),
        r matches Some(s) ==> delivery::feeds_a_sink(s@.solution),
        r matches Some(s) ==> s@.kind == kind && one_run(
            board@,
            grid::pos(start),
            grid::pos(goal),
            item,
            s@,
        ),
{
    let ghost s = grid::pos(start);
    let ghost e = grid::pos(goal);
    let ghost ground = board@;
    let mut grid = board;
    proof {
        placing::lemma_bare(grid@);
    }
    place(&mut grid, start.0, start.1, source(item));
    place(&mut grid, goal.0, goal.1, sink(item));
    let ghost task = grid@;
    proof {
        grid::lemma_put_at(board@, s.0, s.1, placing::source_cell(item), s.0, s.1);
        grid::lemma_put_at(
            board@.put(s.0, s.1, placing::source_cell(item)),
            e.0,
            e.1,
            placing::sink_cell(item),
            s.0,
            s.1,
        );
        grid::lemma_put_at(
            board@.put(s.0, s.1, placing::source_cell(item)),
            e.0,
            e.1,
            placing::sink_cell(item),
            e.0,
            e.1,
        );
        grid::lemma_slot(task, s.0, s.1);
        grid::lemma_slot(task, e.0, e.1);
        placing::lemma_taken(task, s.0, s.1);
        placing::lemma_taken(task, e.0, e.1);
        assert forall|x: int, y: int| #[trigger] task.inside(x, y) implies task.at(
            x,
            y,
        ).entity !is Inserter by {
            let fed = board@.put(s.0, s.1, placing::source_cell(item));
            grid::lemma_slot(board@, x, y);
            grid::lemma_put_at(board@, s.0, s.1, placing::source_cell(item), x, y);
            grid::lemma_put_at(fed, e.0, e.1, placing::sink_cell(item), x, y);
        }
        aim::lemma_no_inserters(task);
    }
    let nothing: Vec<(usize, usize)> = Vec::new();
    assert(grid::pos_list(nothing@) =~= Seq::empty());
    let (removable, _) = match belt_run(&mut grid, start, goal, &nothing) {
        Some(run) => run,
        None => {
            return None;
        },
    };
    let ghost m = route::best_route(task, s, e, Seq::empty())->0;
    assert(lesson::ints(removable@) =~= route::between(task, s, m));
    if removable.len() == 0 {
        return None;
    }
    assert(grid.cells.len() <= usize::MAX);
    proof {
        lemma_belted(task, s, e, Seq::empty(), m, (m.len() - 1) as nat);
        aim::lemma_belted_aimed(task, s, e, Seq::empty(), m);
    }
    let protected = vec![grid.idx(start.0, start.1), grid.idx(goal.0, goal.1)];
    proof {
        let g = grid@;
        assert(lesson::ints(protected@) =~= seq![task.slot(s.0, s.1), task.slot(e.0, e.1)]);
        assert(task.inside(s.0, s.1) && task.inside(e.0, e.1));
        assert(g.at(s.0, s.1) == task.at(s.0, s.1));
        assert(g.at(e.0, e.1) == task.at(e.0, e.1));
        lemma_run_removable(task, s, e, Seq::empty(), m, lesson::ints(protected@));
        assert(templates::ports_among(g, lesson::ints(protected@))) by {
            let slots = lesson::ints(protected@);
            assert(slots.contains(slots[0]) && slots.contains(slots[1]));
            assert forall|x: int, y: int| #[trigger]
                g.inside(x, y) && lesson::is_port(g.at(x, y)) implies slots.contains(
                g.slot(x, y),
            ) by {
                let fed = board@.put(s.0, s.1, placing::source_cell(item));
                assert(task.inside(x, y));
                grid::lemma_slot(board@, x, y);
                grid::lemma_put_at(board@, s.0, s.1, placing::source_cell(item), x, y);
                grid::lemma_put_at(fed, e.0, e.1, placing::sink_cell(item), x, y);
            }
        }
        templates::lemma_ports_listed(g, lesson::ints(protected@));
        assert(carries::laid(g, s, m)) by {
            assert forall|k: int| 1 <= k < m.len() implies {
                let p = #[trigger] carries::stop(s, m, k);
                g.inside(p.0, p.1) && g.at(p.0, p.1) == Cell::belt_cell(m[k])
            } by {
                carries::lemma_laid(task, s, e, Seq::empty(), m, (m.len() - 1) as nat, k);
            }
        }
        carries::lemma_run_feeds_sink(g, task, s, e, Seq::empty(), m, item);
        let want = SampleView {
            kind,
            solution: g,
            protected: lesson::ints(protected@),
            removable: lesson::ints(removable@),
        };
        lemma_one_run(ground, s, e, item, want, m);
    }
    finish(kind, grid, protected, removable)
}

/// The slots of a run of belts hold belts, and none of them is that of a tile that was
/// taken before.
pub proof fn lemma_run_removable(
    g: GridView,
    start: (int, int),
    goal: (int, int),
    avoid: Seq<(int, int)>,
    m: Seq<Direction>,
    protected: Seq<int>,
)
    requires
        g.valid(),
        g.consistent(),
        route::is_best_route(g, start, goal, avoid, m),
        m.len() > 0,
        forall|k: int|
            0 <= k < protected.len() ==> exists|x: int, y: int|
                g.inside(x, y) && placing::taken(g, x, y) && #[trigger] g.slot(x, y)
                    == #[trigger] protected[k],
    ensures
        ({
            let b = route::belted(g, start, m, (m.len() - 1) as nat);
            let slots = route::between(g, start, m);
            forall|k: int|
                0 <= k < slots.len() ==> {
                    let i = #[trigger] slots[k];
                    &&& 0 <= i < g.cells.len()
                    &&& !protected.contains(i)
                    &&& b.cells[i].entity is TransportBelt
                }
        }),
{
    let b = route::belted(g, start, m, (m.len() - 1) as nat);
    let slots = route::between(g, start, m);
    lemma_belted(g, start, goal, avoid, m, (m.len() - 1) as nat);
    assert forall|k: int| 0 <= k < slots.len() implies {
        let i = #[trigger] slots[k];
        &&& 0 <= i < g.cells.len()
        &&& !protected.contains(i)
        &&& b.cells[i].entity is TransportBelt
    } by {
        let p = route::walk(start, m.take(k + 1));
        route::law_best_route_is_free(g, start, goal, avoid, m, k + 1);
        grid::lemma_slot(g, p.0, p.1);
        placing::lemma_taken(g, p.0, p.1);
        assert(on_route(start, m, m.len() - 1, p.0, p.1));
        assert(g.inside(p.0, p.1));
        assert(b.at(p.0, p.1) == b.cells[slots[k]]);
        if protected.contains(slots[k]) {
            let j = protected.index_of(slots[k]);
            assert(protected[j] == slots[k]);
            let (x, y) = choose|x: int, y: int|
                g.inside(x, y) && placing::taken(g, x, y) && #[trigger] g.slot(x, y)
                    == protected[j];
            grid::lemma_slot_injective(g, x, y, p.0, p.1);
        }
    }
}

/// Whether a lesson carries a plate or a circuit over belts from the only source to the
/// only sink, which are at least two steps apart.
pub open spec fn runs_between_two_ports(s: SampleView) -> bool {
    exists|board: GridView, source: (int, int), sink: (int, int), item: Item|
        #![trigger one_run(board, source, sink, item, s)]
        one_run(board, source, sink, item, s) && board.inside(source.0, source.1) && board.inside(
            sink.0,
            sink.1,
        ) && route::distance(source, sink) >= 2 && (item is IronPlate || item is CopperPlate || item
            is GreenCircuit)
}

/// The items that are carried from source to sink.
pub open spec fn cargo(k: int) -> Item {
    if k == 0 {
        Item::IronPlate
    } else if k == 1 {
        Item::CopperPlate
    } else {
        Item::GreenCircuit
    }
}

/// Which belt run, if any, is drawn from a stream, and the stream afterwards.
pub open spec fn move_lesson(canvas: Canvas, r: RandomStream, chaos: bool) -> (
    Option<SampleView>,
    RandomStream,
) {
    if !LessonKind::MoveOneItem.fits_on(canvas) {
        (None, r)
    } else {
        let (board, r) = if chaos {
            scattered(canvas, r, obstacle_count(canvas))
        } else {
            (canvas.blank(), r)
        };
        let (source, r) = roll_cell(canvas, r);
        if board.blocked(source.0, source.1) {
            (None, r)
        } else {
            let (sink, r) = roll_cell(canvas, r);
            if board.blocked(sink.0, sink.1) || route::distance(source, sink) < 2 {
                (None, r)
            } else {
                let (k, r) = r.select(3);
                let kind = if chaos {
                    LessonKind::MoveOneItemChaos
                } else {
                    LessonKind::MoveOneItem
                };
                (move_answer(board, source, sink, cargo(k), kind), r)
            }
        }
    }
}

/// Draw a run of belts from a source to a sink, with obstacles in the way if `chaos`
/// is set.
pub fn gen_move_one_item(canvas: Canvas, rng: &mut RandomStream, chaos: bool) -> (r: Option<Sample>)
    requires
        canvas.holdable(),
    ensures
        (templates::sample_option(r), *final(rng)) == move_lesson(canvas, *old(rng), chaos),
        r matches Some(s) ==> s@.sound() && aim::aimed(s@.solution),
        r matches Some(s) ==> delivery::feeds_a_sink(s@.solution),
        r matches Some(s) ==> runs_between_two_ports(s@),
        r matches Some(s) ==> (s@.kind is MoveOneItemChaos <==> chaos) && (s@.kind is MoveOneItem
            <==> !chaos),
        r matches Some(s) ==> !chaos ==> s@.solution.obstacle == canvas.blank().obstacle,
{
    if !LessonKind::MoveOneItem.fits(canvas) {
        return None;
    }
    let board = if chaos {
        scatter(canvas, rng)
    } else {
        canvas.grid()
    };
    let from = random_cell(canvas, rng);
    proof {
        grid::lemma_slot(board@, from.0 as int, from.1 as int);
    }
    if board.is_obstacle(from.0, from.1) {
        return None;
    }
    let to = random_cell(canvas, rng);
    proof {
        grid::lemma_slot(board@, to.0 as int, to.1 as int);
    }
    if board.is_obstacle(to.0, to.1) || manhattan(from, to) < 2 {
        return None;
    }
    let k = rng.pick(3);
    let item = if k == 0 {
        Item::IronPlate
    } else if k == 1 {
        Item::CopperPlate
    } else {
        Item::GreenCircuit
    };
    let kind = if chaos {
        LessonKind::MoveOneItemChaos
    } else {
        LessonKind::MoveOneItem
    };
    let ghost ground = board@;
    let r = build_move_one_item(board, from, to, item, kind);
    proof {
        if r is Some {
            assert(one_run(ground, grid::pos(from), grid::pos(to), item, r->0@));
            reveal(one_run);
        }
    }
    r
}

} // verus!
