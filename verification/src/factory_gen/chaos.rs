//! A craft for which nothing is stamped: obstacles, source and sink are drawn, and the
//! machine, its inserters and the belts follow from them.

use vstd::prelude::*;
use crate::factory_gen::aim;
use crate::factory_gen::canvas::{Canvas, LessonKind};
use crate::factory_gen::carries;
use crate::factory_gen::carries::Works;
use crate::factory_gen::lesson;
use crate::factory_gen::lesson::{Sample, SampleView};
use crate::factory_gen::placing;
use crate::factory_gen::placing::{inserter, machine, place, sink, source};
use crate::factory_gen::route;
use crate::factory_gen::route::{
    belt_run, canonical_assembler_anchor, dir_toward_footprint, manhattan, neighbours, step,
};
use crate::factory_gen::routed;
use crate::factory_gen::routed::{random_cell, scatter};
use crate::factory_gen::templates;
use crate::factory_gen::templates::finish;
use crate::random::RandomStream;
use crate::sim;
use crate::sim::holds;
use crate::throughput::delivery;
use crate::world::grid;
use crate::world::grid::GridView;
use crate::world::{Cell, Direction, Grid, Item, MAX_SIDE};

pub mod laws;

verus! {

/// Whether an inserter can stand on a tile beside the machine at `site`.
pub open spec fn is_face(g: GridView, site: (int, int), f: (int, int)) -> bool {
    &&& !g.blocked(f.0, f.1)
    &&& g.anchor_of(f.0, f.1) is None
    &&& route::toward(g, f, site) is Some
}

/// The tiles of a list on which an inserter can stand.
pub open spec fn faces_among(g: GridView, site: (int, int), tiles: Seq<(int, int)>) -> Seq<
    (int, int),
>
    decreases tiles.len(),
{
    if tiles.len() == 0 {
        seq![]
    } else {
        let rest = faces_among(g, site, tiles.drop_last());
        if is_face(g, site, tiles.last()) {
            rest.push(tiles.last())
        } else {
            rest
        }
    }
}

/// The tiles around the machine at `site` on which an inserter can stand.
pub open spec fn faces(g: GridView, site: (int, int)) -> Seq<(int, int)> {
    faces_among(g, site, g.loading_slots(site.0, site.1))
}

/// The direction from a face into the machine.
pub open spec fn inward(g: GridView, site: (int, int), f: (int, int)) -> Direction {
    route::toward(g, f, site)->0
}

/// The tile behind a face, on the side away from the machine.
pub open spec fn behind(g: GridView, site: (int, int), f: (int, int)) -> (int, int) {
    route::neighbour(f, inward(g, site, f).reversed())
}

/// Whether the machine may be loaded at one face and unloaded at another, with room
/// for a belt behind each.
pub open spec fn is_pair(g: GridView, site: (int, int), p: ((int, int), (int, int))) -> bool {
    &&& faces(g, site).contains(p.0)
    &&& faces(g, site).contains(p.1)
    &&& p.0 != p.1
    &&& g.inside(behind(g, site, p.0).0, behind(g, site, p.0).1)
    &&& g.inside(behind(g, site, p.1).0, behind(g, site, p.1).1)
}

/// How far the belts of a pair of faces have to go at least.
pub open spec fn pair_cost(
    g: GridView,
    source: (int, int),
    sink: (int, int),
    site: (int, int),
    p: ((int, int), (int, int)),
) -> int {
    route::distance(source, behind(g, site, p.0)) + route::distance(behind(g, site, p.1), sink)
}

/// Whether pair `a` is tried before pair `b`: by cost, then by the row and column of
/// the loading face, then by those of the unloading face.
pub open spec fn pair_before(
    g: GridView,
    source: (int, int),
    sink: (int, int),
    site: (int, int),
    a: ((int, int), (int, int)),
    b: ((int, int), (int, int)),
) -> bool {
    let ca = pair_cost(g, source, sink, site, a);
    let cb = pair_cost(g, source, sink, site, b);
    ca < cb || ca == cb && (a.0.1 < b.0.1 || a.0.1 == b.0.1 && (a.0.0 < b.0.0 || a.0.0 == b.0.0 && (
    a.1.1 < b.1.1 || a.1.1 == b.1.1 && a.1.0 < b.1.0)))
}

/// The tiles of a list without two of them.
pub open spec fn without(tiles: Seq<(int, int)>, a: (int, int), b: (int, int)) -> Seq<(int, int)>
    decreases tiles.len(),
{
    if tiles.len() == 0 {
        seq![]
    } else {
        let rest = without(tiles.drop_last(), a, b);
        if tiles.last() != a && tiles.last() != b {
            rest.push(tiles.last())
        } else {
            rest
        }
    }
}

/// The board with both inserters and the belts behind them.
pub open spec fn fitted(
    g: GridView,
    site: (int, int),
    load: (int, int),
    unload: (int, int),
) -> GridView {
    let into = inward(g, site, load);
    let away = inward(g, site, unload).reversed();
    let pickup = behind(g, site, load);
    let drop = behind(g, site, unload);
    g.put(load.0, load.1, placing::inserter_cell(into)).put(
        unload.0,
        unload.1,
        placing::inserter_cell(away),
    ).put(pickup.0, pickup.1, Cell::belt_cell(into)).put(drop.0, drop.1, Cell::belt_cell(away))
}

/// Whether the tiles behind a pair of faces are free to build on, apart from each
/// other and from everything else, and the output does not start beside the source.
pub open spec fn pair_fits(
    g: GridView,
    canvas: Canvas,
    source: (int, int),
    sink: (int, int),
    site: (int, int),
    load: (int, int),
    unload: (int, int),
) -> bool {
    let pickup = behind(g, site, load);
    let drop = behind(g, site, unload);
    &&& !g.blocked(pickup.0, pickup.1) && g.anchor_of(pickup.0, pickup.1) is None
    &&& !g.blocked(drop.0, drop.1) && g.anchor_of(drop.0, drop.1) is None
    &&& !route::neighbourhood(canvas, source).contains(drop)
    &&& seq![source, sink, load, unload, pickup, drop].no_duplicates()
}

/// The lesson that a pair of faces gives: belts from the source to the loading face
/// that keep off the other faces, and belts from the unloading face to the sink that
/// keep off the other faces and off the source. `None` where the faces do not fit,
/// a belt finds no way or the factory does not work.
pub open spec fn pair_lesson(
    g: GridView,
    canvas: Canvas,
    source: (int, int),
    sink: (int, int),
    site: (int, int),
    p: ((int, int), (int, int)),
) -> Option<SampleView> {
    let (load, unload) = p;
    let pickup = behind(g, site, load);
    let drop = behind(g, site, unload);
    let clear = without(faces(g, site), load, unload);
    let c1 = fitted(g, site, load, unload);
    if !pair_fits(g, canvas, source, sink, site, load, unload) {
        None
    } else {
        match route::best_route(c1, source, pickup, clear) {
            None => None,
            Some(m1) => if m1.len() == 0 {
                None
            } else {
                let c2 = route::belted(c1, source, m1, (m1.len() - 1) as nat);
                match route::best_route(
                    c2,
                    drop,
                    sink,
                    clear + route::neighbourhood(canvas, source),
                ) {
                    None => None,
                    Some(m2) => if m2.len() == 0 {
                        None
                    } else {
                        let c3 = route::belted(c2, drop, m2, (m2.len() - 1) as nat);
                        templates::working(
                            SampleView {
                                kind: LessonKind::AssemblerChaos,
                                solution: c3.put(drop.0, drop.1, Cell::belt_cell(m2[0])),
                                protected: seq![
                                    g.slot(source.0, source.1),
                                    g.slot(sink.0, sink.1),
                                    g.slot(site.0, site.1),
                                ],
                                removable: seq![
                                    g.slot(load.0, load.1),
                                    g.slot(unload.0, unload.1),
                                    g.slot(pickup.0, pickup.1),
                                    g.slot(drop.0, drop.1),
                                ] + route::between(c1, source, m1) + route::between(c2, drop, m2),
                            },
                        )
                    },
                }
            },
        }
    }
}

/// Whether `p` is the first pair of faces that gives a lesson.
pub open spec fn is_first_pair(
    g: GridView,
    canvas: Canvas,
    source: (int, int),
    sink: (int, int),
    site: (int, int),
    p: ((int, int), (int, int)),
) -> bool {
    &&& is_pair(g, site, p)
    &&& pair_lesson(g, canvas, source, sink, site, p) is Some
    &&& forall|q: ((int, int), (int, int))| #[trigger]
        is_pair(g, site, q) && pair_before(g, source, sink, site, q, p) ==> pair_lesson(
            g,
            canvas,
            source,
            sink,
            site,
            q,
        ) is None
}

/// The lesson of the first pair of faces that gives one.
pub open spec fn first_pair_lesson(
    g: GridView,
    canvas: Canvas,
    source: (int, int),
    sink: (int, int),
    site: (int, int),
) -> Option<SampleView> {
    if exists|p: ((int, int), (int, int))| #[trigger]
        is_first_pair(g, canvas, source, sink, site, p) {
        let p = choose|p: ((int, int), (int, int))| #[trigger]
            is_first_pair(g, canvas, source, sink, site, p);
        pair_lesson(g, canvas, source, sink, site, p)
    } else {
        None
    }
}

/// The task as it is shown: the board with a source of the ingredient and a sink for
/// the product.
pub open spec fn posed(
    board: GridView,
    source: (int, int),
    sink: (int, int),
    recipe: Item,
) -> GridView {
    board.put(source.0, source.1, placing::source_cell(recipe.inputs()[0].item)).put(
        sink.0,
        sink.1,
        placing::sink_cell(recipe),
    )
}

/// The answer to a task: the machine at the best site, unless that touches the source
/// or the sink, with the first pair of faces that gives a lesson.
pub open spec fn chaos_answer(
    board: GridView,
    canvas: Canvas,
    source: (int, int),
    sink: (int, int),
    recipe: Item,
) -> Option<SampleView> {
    let task = posed(board, source, sink, recipe);
    match route::best_site(task, source, sink) {
        None => None,
        Some(site) => {
            let g = task.put(site.0, site.1, placing::machine_cell(recipe));
            let around = g.loading_slots(site.0, site.1);
            if around.contains(source) || around.contains(sink) {
                None
            } else {
                first_pair_lesson(g, canvas, source, sink, site)
            }
        },
    }
}

/// Two faces with what follows from them.
#[derive(Debug, Clone, Copy)]
pub struct FacePair {
    pub load: (usize, usize),
    pub unload: (usize, usize),
    pub into: Direction,
    pub away: Direction,
    pub pickup: (usize, usize),
    pub drop: (usize, usize),
    pub cost: u64,
}

impl FacePair {
    pub open spec fn tiles(self) -> ((int, int), (int, int)) {
        (grid::pos(self.load), grid::pos(self.unload))
    }

    /// Whether the record tells what follows from its faces.
    pub open spec fn of(
        self,
        g: GridView,
        source: (int, int),
        sink: (int, int),
        site: (int, int),
    ) -> bool {
        &&& is_pair(g, site, self.tiles())
        &&& self.into == inward(g, site, grid::pos(self.load))
        &&& self.away == inward(g, site, grid::pos(self.unload)).reversed()
        &&& grid::pos(self.pickup) == behind(g, site, grid::pos(self.load))
        &&& grid::pos(self.drop) == behind(g, site, grid::pos(self.unload))
        &&& self.cost == pair_cost(g, source, sink, site, self.tiles())
    }

    /// Whether this pair is tried before another.
    fn before(&self, other: &FacePair) -> (r: bool)
        ensures
            r == (self.cost < other.cost || self.cost == other.cost && (self.load.1 < other.load.1
                || self.load.1 == other.load.1 && (self.load.0 < other.load.0 || self.load.0
                == other.load.0 && (self.unload.1 < other.unload.1 || self.unload.1
                == other.unload.1 && self.unload.0 < other.unload.0)))),
    {
        if self.cost != other.cost {
            return self.cost < other.cost;
        }
        if self.load.1 != other.load.1 {
            return self.load.1 < other.load.1;
        }
        if self.load.0 != other.load.0 {
            return self.load.0 < other.load.0;
        }
        if self.unload.1 != other.unload.1 {
            return self.unload.1 < other.unload.1;
        }
        self.unload.0 < other.unload.0
    }
}

proof fn lemma_faces_among(g: GridView, site: (int, int), tiles: Seq<(int, int)>, f: (int, int))
    ensures
        faces_among(g, site, tiles).contains(f) ==> tiles.contains(f) && is_face(g, site, f),
    decreases tiles.len(),
{
    if tiles.len() > 0 {
        let rest = faces_among(g, site, tiles.drop_last());
        let all = faces_among(g, site, tiles);
        lemma_faces_among(g, site, tiles.drop_last(), f);
        if all.contains(f) {
            let k = all.index_of(f);
            if k < rest.len() {
                assert(rest[k] == f);
                let j = tiles.drop_last().index_of(f);
                assert(tiles[j] == f);
            } else {
                assert(tiles[tiles.len() - 1] == f);
            }
        }
    }
}

/// A face is on the board and free to build on.
proof fn lemma_face(g: GridView, site: (int, int), f: (int, int))
    requires
        faces(g, site).contains(f),
    ensures
        g.inside(f.0, f.1),
        is_face(g, site, f),
        inward(g, site, f) !is Nowhere,
        !placing::taken(g, f.0, f.1),
{
    let around = g.loading_slots(site.0, site.1);
    lemma_faces_among(g, site, around, f);
    sim::lemma_on_board_inside(g, g.ring(site.0, site.1));
    let k = around.index_of(f);
    assert(around[k] == f);
    placing::lemma_taken(g, f.0, f.1);
}

/// The tiles around the machine on which an inserter can stand.
pub fn free_faces(grid: &Grid, site: (usize, usize)) -> (r: Vec<(usize, usize)>)
    requires
        grid.wf(),
        grid@.inside(site.0 as int, site.1 as int),
    ensures
        grid::pos_list(r@) == faces(grid@, grid::pos(site)),
{
    let ghost g = grid@;
    let ghost around = g.loading_slots(site.0 as int, site.1 as int);
    let slots = grid.perimeter(site.0, site.1);
    proof {
        sim::lemma_on_board_inside(g, g.ring(site.0 as int, site.1 as int));
    }
    let mut out: Vec<(usize, usize)> = Vec::new();
    let mut k: usize = 0;
    while k < slots.len()
        invariant
            grid.wf(),
            g == grid@,
            g.inside(site.0 as int, site.1 as int),
            grid::pos_list(slots@) == around,
            sim::all_inside(g, around),
            k <= slots.len(),
            grid::pos_list(out@) == faces_among(g, grid::pos(site), around.take(k as int)),
        decreases slots.len() - k,
    {
        let f = slots[k];
        assert(around[k as int] == grid::pos(f));
        assert(around.take(k as int + 1).drop_last() =~= around.take(k as int));
        proof {
            grid::lemma_slot(g, f.0 as int, f.1 as int);
        }
        let ghost before = out@;
        if !grid.is_obstacle(f.0, f.1) && grid.anchor_at(f.0, f.1).is_none()
            && dir_toward_footprint(grid, f, site).is_some() {
            out.push(f);
            assert(grid::pos_list(out@) =~= grid::pos_list(before).push(grid::pos(f)));
        }
        k = k + 1;
    }
    assert(around.take(around.len() as int) =~= around);
    out
}

/// Whether a list of pairs is in the order in which they are tried.
#[verifier::opaque]
spec fn in_order(
    g: GridView,
    source: (int, int),
    sink: (int, int),
    site: (int, int),
    v: Seq<FacePair>,
) -> bool {
    forall|i: int, j: int|
        0 <= i < j < v.len() ==> !pair_before(
            g,
            source,
            sink,
            site,
            (#[trigger] v[j]).tiles(),
            (#[trigger] v[i]).tiles(),
        )
}

/// Put a pair into its place in a list that is in order.
fn insert_pair(
    v: &mut Vec<FacePair>,
    p: FacePair,
    g: Ghost<GridView>,
    source: Ghost<(int, int)>,
    sink: Ghost<(int, int)>,
    site: Ghost<(int, int)>,
)
    requires
        forall|i: int| 0 <= i < old(v)@.len() ==> (#[trigger] old(v)@[i]).of(g@, source@, sink@, site@),
        p.of(g@, source@, sink@, site@),
        in_order(g@, source@, sink@, site@, old(v)@),
    ensures
        in_order(g@, source@, sink@, site@, final(v)@),
        forall|i: int|
            0 <= i < final(v)@.len() ==> (#[trigger] final(v)@[i]).of(g@, source@, sink@, site@),
        forall|q: FacePair| old(v)@.contains(q) ==> #[trigger] final(v)@.contains(q),
        final(v)@.contains(p),
{
    let mut k: usize = 0;
    while k < v.len() && !p.before(&v[k])
        invariant
            k <= v.len(),
            v@ == old(v)@,
            p.of(g@, source@, sink@, site@),
            forall|i: int| 0 <= i < v@.len() ==> (#[trigger] v@[i]).of(g@, source@, sink@, site@),
            forall|i: int|
                0 <= i < k ==> !pair_before(
                    g@,
                    source@,
                    sink@,
                    site@,
                    p.tiles(),
                    (#[trigger] v@[i]).tiles(),
                ),
        decreases v.len() - k,
    {
        k = k + 1;
    }
    let ghost before = v@;
    v.insert(k, p);
    proof {
        reveal(in_order);
        assert forall|i: int, j: int| 0 <= i < j < v@.len() implies !pair_before(
            g@,
            source@,
            sink@,
            site@,
            (#[trigger] v@[j]).tiles(),
            (#[trigger] v@[i]).tiles(),
        ) by {
            if i == k && j > k {
                let first = before[k as int];
                let other = before[j - 1];
                assert(v@[j] == other);
                assert(pair_before(g@, source@, sink@, site@, p.tiles(), first.tiles()));
                if j - 1 > k {
                    assert(!pair_before(
                        g@,
                        source@,
                        sink@,
                        site@,
                        other.tiles(),
                        first.tiles(),
                    ));
                }
            } else if j == k {
                assert(v@[i] == before[i]);
            } else {
                let i0 = if i < k { i } else { i - 1 };
                let j0 = if j < k { j } else { j - 1 };
                assert(v@[i] == before[i0]);
                assert(v@[j] == before[j0]);
            }
        }
        assert forall|q: FacePair| before.contains(q) implies #[trigger] v@.contains(q) by {
            let i = before.index_of(q);
            if i < k {
                assert(v@[i] == q);
            } else {
                assert(v@[i + 1] == q);
            }
        }
        assert(v@[k as int] == p);
        assert forall|i: int| 0 <= i < v@.len() implies (#[trigger] v@[i]).of(
            g@,
            source@,
            sink@,
            site@,
        ) by {
            if i < k {
                assert(v@[i] == before[i]);
            } else if i > k {
                assert(v@[i] == before[i - 1]);
            }
        }
    }
}

/// Whether a list holds the pair of two faces.
spec fn has_pair(v: Seq<FacePair>, p: ((int, int), (int, int))) -> bool {
    exists|i: int| 0 <= i < v.len() && (#[trigger] v[i]).tiles() == p
}

/// The pair of a loading face, given with its direction and the tile behind it, and an
/// unloading face, if there is room for belts behind both.
#[verifier::spinoff_prover]
fn pair_of(
    grid: &Grid,
    start: (usize, usize),
    goal: (usize, usize),
    site: (usize, usize),
    loading: ((usize, usize), Direction, (usize, usize)),
    unload: (usize, usize),
) -> (r: Option<FacePair>)
    requires
        grid.wf(),
        grid@.inside(site.0 as int, site.1 as int),
        start.0 <= MAX_SIDE && start.1 <= MAX_SIDE,
        goal.0 <= MAX_SIDE && goal.1 <= MAX_SIDE,
        faces(grid@, grid::pos(site)).contains(grid::pos(loading.0)),
        faces(grid@, grid::pos(site)).contains(grid::pos(unload)),
        loading.1 == inward(grid@, grid::pos(site), grid::pos(loading.0)),
        grid::pos(loading.2) == behind(grid@, grid::pos(site), grid::pos(loading.0)),
        grid@.inside(loading.2.0 as int, loading.2.1 as int),
    ensures
        match r {
            Some(pair) => {
                &&& pair.of(grid@, grid::pos(start), grid::pos(goal), grid::pos(site))
                &&& pair.tiles() == (grid::pos(loading.0), grid::pos(unload))
            },
            None => !is_pair(
                grid@,
                grid::pos(site),
                (grid::pos(loading.0), grid::pos(unload)),
            ),
        },
{
    proof {
        lemma_face(grid@, grid::pos(site), grid::pos(loading.0));
        lemma_face(grid@, grid::pos(site), grid::pos(unload));
    }
    let (load, into, pickup) = loading;
    if unload.0 == load.0 && unload.1 == load.1 {
        return None;
    }
    let ghost u = grid::pos(unload);
    let away = match dir_toward_footprint(grid, unload, site) {
        Some(toward) => toward.opposite(),
        None => {
            return None;
        },
    };
    assert(away == inward(grid@, grid::pos(site), u).reversed());
    let drop = match step(unload, away, Canvas::new(grid.width, grid.height)) {
        Some(drop) => drop,
        None => {
            return None;
        },
    };
    assert(grid::pos(drop) == behind(grid@, grid::pos(site), u));
    let cost: u64 = manhattan(start, pickup) as u64 + manhattan(drop, goal) as u64;
    let pair = FacePair { load, unload, into, away, pickup, drop, cost };
    assert(is_pair(grid@, grid::pos(site), pair.tiles()));
    Some(pair)
}

/// All pairs of faces in the order in which they are tried.
pub fn face_pairs(
    grid: &Grid,
    faces_here: &Vec<(usize, usize)>,
    start: (usize, usize),
    goal: (usize, usize),
    site: (usize, usize),
) -> (r: Vec<FacePair>)
    requires
        grid.wf(),
        grid@.inside(site.0 as int, site.1 as int),
        start.0 <= MAX_SIDE && start.1 <= MAX_SIDE,
        goal.0 <= MAX_SIDE && goal.1 <= MAX_SIDE,
        grid::pos_list(faces_here@) == faces(grid@, grid::pos(site)),
    ensures
        forall|i: int|
            0 <= i < r@.len() ==> (#[trigger] r@[i]).of(
                grid@,
                grid::pos(start),
                grid::pos(goal),
                grid::pos(site),
            ),
        forall|p: ((int, int), (int, int))| #[trigger]
            is_pair(grid@, grid::pos(site), p) ==> exists|i: int|
                0 <= i < r@.len() && (#[trigger] r@[i]).tiles() == p,
        forall|i: int, j: int|
            0 <= i < j < r@.len() ==> !pair_before(
                grid@,
                grid::pos(start),
                grid::pos(goal),
                grid::pos(site),
                (#[trigger] r@[j]).tiles(),
                (#[trigger] r@[i]).tiles(),
            ),
{
    let ghost g = grid@;
    let ghost a = grid::pos(start);
    let ghost b = grid::pos(goal);
    let ghost k = grid::pos(site);
    let ghost fs = faces(g, k);
    let canvas = Canvas::new(grid.width, grid.height);
    let mut pairs: Vec<FacePair> = Vec::new();
    assert(in_order(g, a, b, k, pairs@)) by {
        reveal(in_order);
    }
    let mut i: usize = 0;
    while i < faces_here.len()
        invariant
            grid.wf(),
            g == grid@,
            a == grid::pos(start),
            b == grid::pos(goal),
            k == grid::pos(site),
            g.inside(k.0, k.1),
            fs == faces(g, k),
            grid::pos_list(faces_here@) == fs,
            canvas == (Canvas { width: grid.width, height: grid.height }),
            start.0 <= MAX_SIDE && start.1 <= MAX_SIDE,
            goal.0 <= MAX_SIDE && goal.1 <= MAX_SIDE,
            i <= faces_here.len(),
            forall|n: int| 0 <= n < pairs@.len() ==> (#[trigger] pairs@[n]).of(g, a, b, k),
            in_order(g, a, b, k, pairs@),
            forall|x: int, y: int|
                0 <= x < i && 0 <= y < fs.len() && is_pair(
                    g,
                    k,
                    (#[trigger] fs[x], #[trigger] fs[y]),
                ) ==> has_pair(pairs@, (fs[x], fs[y])),
        decreases faces_here.len() - i,
    {
        let load = faces_here[i];
        proof {
            assert(fs[i as int] == grid::pos(load));
            lemma_face(g, k, fs[i as int]);
        }
        if let Some(into) = dir_toward_footprint(grid, load, site) {
            if let Some(pickup) = step(load, into.opposite(), canvas) {
                let mut j: usize = 0;
                while j < faces_here.len()
                    invariant
                        grid.wf(),
                        g == grid@,
                        a == grid::pos(start),
                        b == grid::pos(goal),
                        k == grid::pos(site),
                        g.inside(k.0, k.1),
                        fs == faces(g, k),
                        grid::pos_list(faces_here@) == fs,
                        canvas == (Canvas { width: grid.width, height: grid.height }),
                        start.0 <= MAX_SIDE && start.1 <= MAX_SIDE,
                        goal.0 <= MAX_SIDE && goal.1 <= MAX_SIDE,
                        i < faces_here.len(),
                        fs[i as int] == grid::pos(load),
                        into == inward(g, k, fs[i as int]),
                        grid::pos(pickup) == behind(g, k, fs[i as int]),
                        g.inside(pickup.0 as int, pickup.1 as int),
                        j <= faces_here.len(),
                        forall|n: int|
                            0 <= n < pairs@.len() ==> (#[trigger] pairs@[n]).of(g, a, b, k),
                        in_order(g, a, b, k, pairs@),
                        forall|x: int, y: int|
                            (0 <= x < i && 0 <= y < fs.len() || x == i && 0 <= y < j) && is_pair(
                                g,
                                k,
                                (#[trigger] fs[x], #[trigger] fs[y]),
                            ) ==> has_pair(pairs@, (fs[x], fs[y])),
                    decreases faces_here.len() - j,
                {
                    let unload = faces_here[j];
                    proof {
                        assert(fs[j as int] == grid::pos(unload));
                        lemma_face(g, k, fs[j as int]);
                    }
                    let ghost before = pairs@;
                    if let Some(pair) = pair_of(
                        grid,
                        start,
                        goal,
                        site,
                        (load, into, pickup),
                        unload,
                    ) {
                        insert_pair(&mut pairs, pair, Ghost(g), Ghost(a), Ghost(b), Ghost(k));
                        assert(has_pair(pairs@, (fs[i as int], fs[j as int]))) by {
                            let n = pairs@.index_of(pair);
                            assert(pairs@[n].tiles() == (fs[i as int], fs[j as int]));
                        }
                    }
                    proof {
                        assert forall|p: ((int, int), (int, int))| #[trigger]
                            has_pair(before, p) implies has_pair(pairs@, p) by {
                            let n = choose|n: int|
                                0 <= n < before.len() && (#[trigger] before[n]).tiles() == p;
                            assert(before.contains(before[n]));
                            assert(pairs@.contains(before[n]));
                            let m = pairs@.index_of(before[n]);
                            assert(pairs@[m].tiles() == p);
                        }
                    }
                    j = j + 1;
                }
            }
        }
        i = i + 1;
    }
    proof {
        reveal(in_order);
        assert forall|p: ((int, int), (int, int))| #[trigger] is_pair(g, k, p) implies exists|n: int|
            0 <= n < pairs@.len() && (#[trigger] pairs@[n]).tiles() == p by {
            let x = fs.index_of(p.0);
            let y = fs.index_of(p.1);
            assert(is_pair(g, k, (fs[x], fs[y])));
            assert(has_pair(pairs@, (fs[x], fs[y])));
        }
    }
    pairs
}

/// Whether no position occurs twice in a list.
fn all_distinct(v: &Vec<(usize, usize)>) -> (r: bool)
    ensures
        r == grid::pos_list(v@).no_duplicates(),
{
    let ghost s = grid::pos_list(v@);
    let mut i: usize = 0;
    while i < v.len()
        invariant
            s == grid::pos_list(v@),
            i <= v.len(),
            forall|a: int, b: int| 0 <= a < i && a < b < s.len() ==> s[a] != s[b],
        decreases v.len() - i,
    {
        let mut j: usize = i + 1;
        while j < v.len()
            invariant
                s == grid::pos_list(v@),
                i < j <= v.len(),
                i < v.len(),
                forall|b: int| i < b < j ==> s[i as int] != s[b],
            decreases v.len() - j,
        {
            if v[i].0 == v[j].0 && v[i].1 == v[j].1 {
                assert(s[i as int] == s[j as int]);
                return false;
            }
            assert(s[i as int] != s[j as int]);
            j = j + 1;
        }
        i = i + 1;
    }
    assert forall|a: int, b: int| 0 <= a < s.len() && 0 <= b < s.len() && a != b implies s[a]
        != s[b] by {
        if a < b {
        } else {
            assert(s[b] != s[a]);
        }
    }
    true
}

/// The tiles of a list without two of them.
fn drop_two(v: &Vec<(usize, usize)>, a: (usize, usize), b: (usize, usize)) -> (r: Vec<(usize, usize)>)
    ensures
        grid::pos_list(r@) == without(grid::pos_list(v@), grid::pos(a), grid::pos(b)),
{
    let ghost s = grid::pos_list(v@);
    let mut out: Vec<(usize, usize)> = Vec::new();
    let mut k: usize = 0;
    while k < v.len()
        invariant
            s == grid::pos_list(v@),
            k <= v.len(),
            grid::pos_list(out@) == without(s.take(k as int), grid::pos(a), grid::pos(b)),
        decreases v.len() - k,
    {
        let p = v[k];
        assert(s[k as int] == grid::pos(p));
        assert(s.take(k as int + 1).drop_last() =~= s.take(k as int));
        let ghost before = out@;
        if !(p.0 == a.0 && p.1 == a.1) && !(p.0 == b.0 && p.1 == b.1) {
            out.push(p);
            assert(grid::pos_list(out@) =~= grid::pos_list(before).push(grid::pos(p)));
        }
        k = k + 1;
    }
    assert(s.take(s.len() as int) =~= s);
    out
}

/// Whether the sources and sinks of a board are exactly `source` and `sink`.
pub open spec fn ports_are(g: GridView, source: (int, int), sink: (int, int)) -> bool {
    forall|x: int, y: int| #[trigger]
        g.inside(x, y) ==> (lesson::is_port(g.at(x, y)) <==> (x, y) == source || (x, y) == sink)
}

/// Whether a board holds one machine and that one at `site`.
pub open spec fn sole_machine(g: GridView, site: (int, int)) -> bool {
    forall|x: int, y: int| #[trigger]
        g.inside(x, y) ==> (g.at(x, y).entity is Assembler <==> (x, y) == site)
}

/// The state of the board when the machine is placed.
pub open spec fn machine_placed(
    g: GridView,
    source: (int, int),
    sink: (int, int),
    site: (int, int),
) -> bool {
    &&& g.valid()
    &&& g.consistent()
    &&& g.inside(source.0, source.1)
    &&& g.inside(sink.0, sink.1)
    &&& g.inside(site.0, site.1)
    &&& ports_are(g, source, sink)
    &&& sole_machine(g, site)
    &&& g.at(site.0, site.1).entity is Assembler
}

/// Whether the tiles behind a pair of faces are free and apart from everything else.
fn does_pair_fit(
    grid: &Grid,
    canvas: Canvas,
    start: (usize, usize),
    goal: (usize, usize),
    pair: &FacePair,
    site: Ghost<(int, int)>,
) -> (r: bool)
    requires
        grid.wf(),
        pair.of(grid@, grid::pos(start), grid::pos(goal), site@),
    ensures
        r == pair_fits(
            grid@,
            canvas,
            grid::pos(start),
            grid::pos(goal),
            site@,
            grid::pos(pair.load),
            grid::pos(pair.unload),
        ),
{
    let (pickup, drop) = (pair.pickup, pair.drop);
    proof {
        grid::lemma_slot(grid@, pickup.0 as int, pickup.1 as int);
        grid::lemma_slot(grid@, drop.0 as int, drop.1 as int);
    }
    let pickup_free = !grid.is_obstacle(pickup.0, pickup.1) && grid.anchor_at(
        pickup.0,
        pickup.1,
    ).is_none();
    let drop_free = !grid.is_obstacle(drop.0, drop.1) && grid.anchor_at(drop.0, drop.1).is_none();
    let beside = neighbours(start, canvas);
    let named = vec![start, goal, pair.load, pair.unload, pickup, drop];
    assert(grid::pos_list(named@) =~= seq![
        grid::pos(start),
        grid::pos(goal),
        grid::pos(pair.load),
        grid::pos(pair.unload),
        grid::pos(pickup),
        grid::pos(drop),
    ]);
    pickup_free && drop_free && !holds(&beside, drop) && all_distinct(&named)
}

/// Place both inserters and the belts behind them.
fn fit_pair(
    grid: &Grid,
    canvas: Canvas,
    start: (usize, usize),
    goal: (usize, usize),
    pair: &FacePair,
    site: Ghost<(int, int)>,
) -> (c: Grid)
    requires
        machine_placed(grid@, grid::pos(start), grid::pos(goal), site@),
        pair.of(grid@, grid::pos(start), grid::pos(goal), site@),
        pair_fits(
            grid@,
            canvas,
            grid::pos(start),
            grid::pos(goal),
            site@,
            grid::pos(pair.load),
            grid::pos(pair.unload),
        ),
    ensures
        c.wf(),
        c@ == fitted(grid@, site@, grid::pos(pair.load), grid::pos(pair.unload)),
        c@.consistent(),
        c.width == grid.width,
        c.height == grid.height,
        ports_are(c@, grid::pos(start), grid::pos(goal)),
        forall|x: int, y: int| #[trigger]
            placing::taken(c@, x, y) <==> placing::taken(grid@, x, y) || (x, y) == grid::pos(
                pair.load,
            ) || (x, y) == grid::pos(pair.unload) || (x, y) == grid::pos(pair.pickup) || (x, y)
                == grid::pos(pair.drop),
        c@.obstacle == grid@.obstacle,
        c@.at(start.0 as int, start.1 as int) == grid@.at(start.0 as int, start.1 as int),
        c@.at(goal.0 as int, goal.1 as int) == grid@.at(goal.0 as int, goal.1 as int),
        c@.at(site@.0, site@.1).entity is Assembler,
        sole_machine(c@, site@),
        c@.at(pair.drop.0 as int, pair.drop.1 as int).entity is TransportBelt,
        aim::aimed(grid@) ==> aim::aimed(c@),
{
    let ghost g = grid@;
    let (load, unload, pickup, drop) = (pair.load, pair.unload, pair.pickup, pair.drop);
    proof {
        lemma_face(g, site@, grid::pos(load));
        lemma_face(g, site@, grid::pos(unload));
        placing::lemma_taken(g, pickup.0 as int, pickup.1 as int);
        placing::lemma_taken(g, drop.0 as int, drop.1 as int);
        placing::lemma_taken(g, site@.0, site@.1);
        lemma_apart(
            grid::pos(start),
            grid::pos(goal),
            grid::pos(load),
            grid::pos(unload),
            grid::pos(pickup),
            grid::pos(drop),
        );
    }
    let c = place_four(
        grid,
        [load, unload, pickup, drop],
        [inserter(pair.into), inserter(pair.away), Cell::belt(pair.into), Cell::belt(pair.away)],
    );
    proof {
        assert forall|x: int, y: int| #[trigger] c@.inside(x, y) implies (lesson::is_port(
            c@.at(x, y),
        ) <==> (x, y) == grid::pos(start) || (x, y) == grid::pos(goal)) by {
            assert(g.inside(x, y));
        }
        assert(c@.inside(site@.0, site@.1));
        assert forall|x: int, y: int| #[trigger] c@.inside(x, y) implies (c@.at(
            x,
            y,
        ).entity is Assembler <==> (x, y) == site@) by {
            assert(g.inside(x, y));
        }
        assert(c@.inside(drop.0 as int, drop.1 as int));
        assert(c@.inside(start.0 as int, start.1 as int));
        assert(c@.inside(goal.0 as int, goal.1 as int));
        if aim::aimed(g) {
            lemma_fitted_aimed(
                g,
                c@,
                site@,
                grid::pos(load),
                grid::pos(unload),
                grid::pos(pickup),
                grid::pos(drop),
            );
        }
    }
    c
}

/// A pair of inserters is aimed: the loading one at the machine, the unloading one at
/// the belt behind it.
proof fn lemma_fitted_aimed(
    g: GridView,
    c: GridView,
    site: (int, int),
    load: (int, int),
    unload: (int, int),
    pickup: (int, int),
    drop: (int, int),
)
    requires
        aim::aimed(g),
        g.inside(site.0, site.1),
        g.consistent(),
        g.at(site.0, site.1).entity is Assembler,
        is_face(g, site, load),
        is_face(g, site, unload),
        drop == behind(g, site, unload),
        g.inside(drop.0, drop.1),
        c.width == g.width,
        c.height == g.height,
        forall|x: int, y: int| #[trigger]
            placing::taken(c, x, y) <==> placing::taken(g, x, y) || (x, y) == load || (x, y)
                == unload || (x, y) == pickup || (x, y) == drop,
        forall|x: int, y: int| #[trigger]
            c.inside(x, y) ==> c.at(x, y) == (if (x, y) == drop {
                Cell::belt_cell(inward(g, site, unload).reversed())
            } else if (x, y) == pickup {
                Cell::belt_cell(inward(g, site, load))
            } else if (x, y) == unload {
                placing::inserter_cell(inward(g, site, unload).reversed())
            } else if (x, y) == load {
                placing::inserter_cell(inward(g, site, load))
            } else {
                g.at(x, y)
            }),
    ensures
        aim::aimed(c),
{
    reveal(aim::aimed);
    assert forall|x: int, y: int| #[trigger]
        c.inside(x, y) && c.at(x, y).entity is Inserter implies {
        let t = aim::ahead(c, x, y);
        c.inside(t.0, t.1) && c.anchor_of(t.0, t.1) is Some
    } by {
        let t = aim::ahead(c, x, y);
        assert(g.inside(x, y));
        if (x, y) == unload {
            assert(t == drop);
        } else if (x, y) == load {
            assert(g.covers(site.0, site.1, t.0, t.1));
            assert(g.inside(t.0, t.1)) by {
                reveal(GridView::consistent);
                assert(g.stands_clear(site.0, site.1));
            }
            grid::lemma_anchor_of(g, t.0, t.1);
            placing::lemma_taken(g, t.0, t.1);
        } else {
            placing::lemma_taken(g, t.0, t.1);
        }
        placing::lemma_taken(c, t.0, t.1);
    }
}

proof fn lemma_apart(
    a: (int, int),
    b: (int, int),
    c: (int, int),
    d: (int, int),
    e: (int, int),
    f: (int, int),
)
    requires
        seq![a, b, c, d, e, f].no_duplicates(),
    ensures
        a != c && a != d && a != e && a != f,
        b != c && b != d && b != e && b != f,
        c != d && c != e && c != f && d != e && d != f && e != f,
{
    let s = seq![a, b, c, d, e, f];
    assert(s[0] != s[2] && s[0] != s[3] && s[0] != s[4] && s[0] != s[5]);
    assert(s[1] != s[2] && s[1] != s[3] && s[1] != s[4] && s[1] != s[5]);
    assert(s[2] != s[3] && s[2] != s[4] && s[2] != s[5] && s[3] != s[4] && s[3] != s[5] && s[4]
        != s[5]);
}

/// Whether a cell is a well-formed entity of one tile.
spec fn single(cell: Cell) -> bool {
    &&& cell.consistent()
    &&& cell.entity !is Empty
    &&& cell.entity.extent(cell.direction) == (1int, 1int)
}

/// Place four entities of one tile each on four different free tiles.
fn place_four(grid: &Grid, at: [(usize, usize); 4], cells: [Cell; 4]) -> (c: Grid)
    requires
        grid.wf(),
        grid@.consistent(),
        forall|k: int| 0 <= k < 4 ==> single(#[trigger] cells[k]),
        forall|k: int|
            0 <= k < 4 ==> {
                let p = grid::pos(#[trigger] at[k]);
                grid@.inside(p.0, p.1) && !grid@.blocked(p.0, p.1) && !placing::taken(
                    grid@,
                    p.0,
                    p.1,
                )
            },
        forall|i: int, j: int|
            0 <= i < j < 4 ==> grid::pos(#[trigger] at[i]) != grid::pos(#[trigger] at[j]),
    ensures
        c.wf(),
        c.width == grid.width,
        c.height == grid.height,
        c@.consistent(),
        c@ == grid@.put(at[0].0 as int, at[0].1 as int, cells[0]).put(
            at[1].0 as int,
            at[1].1 as int,
            cells[1],
        ).put(at[2].0 as int, at[2].1 as int, cells[2]).put(
            at[3].0 as int,
            at[3].1 as int,
            cells[3],
        ),
        forall|x: int, y: int| #[trigger]
            placing::taken(c@, x, y) <==> placing::taken(grid@, x, y) || (x, y) == grid::pos(at[0])
                || (x, y) == grid::pos(at[1]) || (x, y) == grid::pos(at[2]) || (x, y) == grid::pos(
                at[3],
            ),
        forall|x: int, y: int| #[trigger]
            c@.inside(x, y) ==> c@.at(x, y) == (if (x, y) == grid::pos(at[3]) {
                cells[3]
            } else if (x, y) == grid::pos(at[2]) {
                cells[2]
            } else if (x, y) == grid::pos(at[1]) {
                cells[1]
            } else if (x, y) == grid::pos(at[0]) {
                cells[0]
            } else {
                grid@.at(x, y)
            }),
{
    broadcast use grid::lemma_put_at;

    let ghost (p0, p1) = (grid::pos(at[0]), grid::pos(at[1]));
    let ghost (p2, p3) = (grid::pos(at[2]), grid::pos(at[3]));
    assert(single(cells[0]) && single(cells[1]) && single(cells[2]) && single(cells[3]));
    assert(p0 != p1 && p0 != p2 && p0 != p3 && p1 != p2 && p1 != p3 && p2 != p3);
    let mut c = grid.clone();
    place(&mut c, at[0].0, at[0].1, cells[0]);
    place(&mut c, at[1].0, at[1].1, cells[1]);
    place(&mut c, at[2].0, at[2].1, cells[2]);
    place(&mut c, at[3].0, at[3].1, cells[3]);
    c
}

/// A slot that is not protected holds no port, if all ports are protected.
proof fn lemma_not_port(g: GridView, protected: Seq<int>, i: int)
    requires
        g.valid(),
        templates::ports_among(g, protected),
        0 <= i < g.cells.len(),
        !protected.contains(i),
    ensures
        !lesson::is_port(g.cells[i]),
{
    grid::lemma_slot_surjective(g, i);
    let (x, y) = (i % (g.width as int), i / (g.width as int));
    assert(g.inside(x, y) && g.at(x, y) == g.cells[i]);
}

/// The slots of three tiles.
spec fn three_slots(g: GridView, a: (int, int), b: (int, int), c: (int, int)) -> Seq<int> {
    seq![g.slot(a.0, a.1), g.slot(b.0, b.1), g.slot(c.0, c.1)]
}

/// The slot of a fourth tile is none of those of three others.
proof fn lemma_other_slot(
    g: GridView,
    a: (int, int),
    b: (int, int),
    c: (int, int),
    p: (int, int),
)
    requires
        g.inside(a.0, a.1) && g.inside(b.0, b.1) && g.inside(c.0, c.1) && g.inside(p.0, p.1),
        p != a && p != b && p != c,
    ensures
        !three_slots(g, a, b, c).contains(g.slot(p.0, p.1)),
{
    let s = three_slots(g, a, b, c);
    let i = g.slot(p.0, p.1);
    if s.contains(i) {
        let k = s.index_of(i);
        if k == 0 {
            grid::lemma_slot_injective(g, a.0, a.1, p.0, p.1);
        } else if k == 1 {
            grid::lemma_slot_injective(g, b.0, b.1, p.0, p.1);
        } else {
            grid::lemma_slot_injective(g, c.0, c.1, p.0, p.1);
        }
    }
}

/// Everything that the board of a task and its answer keep while belts are laid.
spec fn connected_state(
    g: GridView,
    now: GridView,
    source: (int, int),
    sink: (int, int),
    site: (int, int),
    drop: (int, int),
) -> bool {
    &&& now.valid()
    &&& now.consistent()
    &&& now.width == g.width
    &&& now.height == g.height
    &&& now.obstacle == g.obstacle
    &&& ports_are(now, source, sink)
    &&& now.at(source.0, source.1) == g.at(source.0, source.1)
    &&& now.at(sink.0, sink.1) == g.at(sink.0, sink.1)
    &&& now.at(site.0, site.1).entity is Assembler
    &&& sole_machine(now, site)
    &&& now.at(drop.0, drop.1).entity is TransportBelt
}

/// Laying belts along a route keeps the state of the board.
proof fn lemma_connected(
    g: GridView,
    now: GridView,
    source: (int, int),
    sink: (int, int),
    site: (int, int),
    drop: (int, int),
    from: (int, int),
    to: (int, int),
    avoid: Seq<(int, int)>,
    m: Seq<Direction>,
)
    requires
        g.valid(),
        connected_state(g, now, source, sink, site, drop),
        g.inside(source.0, source.1) && g.inside(sink.0, sink.1),
        g.inside(site.0, site.1) && g.inside(drop.0, drop.1),
        route::is_best_route(now, from, to, avoid, m),
        m.len() > 0,
    ensures
        connected_state(
            g,
            route::belted(now, from, m, (m.len() - 1) as nat),
            source,
            sink,
            site,
            drop,
        ),
        forall|x: int, y: int| #[trigger]
            placing::taken(now, x, y) ==> placing::taken(
                route::belted(now, from, m, (m.len() - 1) as nat),
                x,
                y,
            ),
        ({
            let slots = route::between(now, from, m);
            forall|k: int|
                0 <= k < slots.len() ==> {
                    let i = #[trigger] slots[k];
                    0 <= i < g.cells.len() && !three_slots(g, source, sink, site).contains(i)
                }
        }),
{
    let b = route::belted(now, from, m, (m.len() - 1) as nat);
    let protected = three_slots(g, source, sink, site);
    routed::lemma_belted(now, from, to, avoid, m, (m.len() - 1) as nat);
    assert(now.inside(source.0, source.1) && now.inside(sink.0, sink.1));
    assert(now.inside(site.0, site.1) && now.inside(drop.0, drop.1));
    placing::lemma_taken(now, source.0, source.1);
    placing::lemma_taken(now, sink.0, sink.1);
    placing::lemma_taken(now, site.0, site.1);
    placing::lemma_taken(now, drop.0, drop.1);
    assert forall|x: int, y: int| #[trigger] b.inside(x, y) implies (lesson::is_port(b.at(x, y))
        <==> (x, y) == source || (x, y) == sink) by {
        assert(now.inside(x, y));
    }
    assert forall|x: int, y: int| #[trigger] b.inside(x, y) implies (b.at(
        x,
        y,
    ).entity is Assembler <==> (x, y) == site) by {
        assert(now.inside(x, y));
        placing::lemma_taken(b, x, y);
    }
    assert forall|k: int| 0 <= k < protected.len() implies exists|x: int, y: int|
        now.inside(x, y) && placing::taken(now, x, y) && #[trigger] now.slot(x, y)
            == #[trigger] protected[k] by {
        if k == 0 {
            assert(now.slot(source.0, source.1) == protected[k]);
        } else if k == 1 {
            assert(now.slot(sink.0, sink.1) == protected[k]);
        } else {
            assert(now.slot(site.0, site.1) == protected[k]);
        }
    }
    routed::lemma_run_removable(now, from, to, avoid, m, protected);
}

/// Try a pair of faces.
pub fn try_pair(
    grid: &Grid,
    faces_here: &Vec<(usize, usize)>,
    start: (usize, usize),
    goal: (usize, usize),
    site: (usize, usize),
    pair: &FacePair,
) -> (r: Option<Sample>)
    requires
        machine_placed(grid@, grid::pos(start), grid::pos(goal), grid::pos(site)),
        pair.of(grid@, grid::pos(start), grid::pos(goal), grid::pos(site)),
        grid::pos_list(faces_here@) == faces(grid@, grid::pos(site)),
    ensures
        templates::sample_option(r) == pair_lesson(
            grid@,
            Canvas { width: grid.width, height: grid.height },
            grid::pos(start),
            grid::pos(goal),
            grid::pos(site),
            pair.tiles(),
        ),
        r matches Some(s) ==> {
            &&& s@.sound()
            &&& aim::aimed(grid@) ==> aim::aimed(s@.solution)
            &&& lesson::ports_only(s@.solution) == lesson::ports_only(grid@)
            &&& sole_machine(s@.solution, grid::pos(site))
            &&& well_matched(
                grid@,
                grid::pos(start),
                grid::pos(goal),
                grid::pos(site),
            ) ==> delivery::feeds_a_sink(s@.solution)
        },
{
    let ghost g = grid@;
    let ghost a = grid::pos(start);
    let ghost b = grid::pos(goal);
    let ghost k = grid::pos(site);
    let (load, unload, pickup, drop) = (pair.load, pair.unload, pair.pickup, pair.drop);
    let ghost d = grid::pos(drop);
    let canvas = Canvas::new(grid.width, grid.height);
    let keep_clear = drop_two(faces_here, load, unload);
    if !does_pair_fit(grid, canvas, start, goal, pair, Ghost(k)) {
        return None;
    }
    let mut candidate = fit_pair(grid, canvas, start, goal, pair, Ghost(k));
    let ghost c1 = candidate@;
    assert(connected_state(g, c1, a, b, k, d));
    let inbound = match belt_run(&mut candidate, start, pickup, &keep_clear) {
        Some((inbound, _)) => inbound,
        None => {
            return None;
        },
    };
    let ghost off1 = grid::pos_list(keep_clear@);
    let ghost m1 = route::best_route(c1, a, grid::pos(pickup), off1)->0;
    let ghost c2 = candidate@;
    proof {
        lemma_connected(g, c1, a, b, k, d, a, grid::pos(pickup), off1, m1);
        if aim::aimed(g) {
            aim::lemma_belted_aimed(c1, a, grid::pos(pickup), off1, m1);
        }
    }
    let mut avoid = keep_clear;
    let mut beside = neighbours(start, canvas);
    avoid.append(&mut beside);
    let ghost off2 = grid::pos_list(avoid@);
    assert(off2 =~= off1 + route::neighbourhood(canvas, a));
    let (outbound, out_dir) = match belt_run(&mut candidate, drop, goal, &avoid) {
        Some(run) => run,
        None => {
            return None;
        },
    };
    let ghost m2 = route::best_route(c2, d, b, off2)->0;
    let ghost c3 = candidate@;
    proof {
        lemma_connected(g, c2, a, b, k, d, d, b, off2, m2);
        route::lemma_first_step(c2, d, b, off2, m2);
        grid::lemma_slot(c3, d.0, d.1);
        placing::lemma_replace(c3, d.0, d.1, Cell::belt_cell(m2[0]));
    }
    candidate.set(drop.0, drop.1, Cell::belt(out_dir));
    let ghost c4 = candidate@;
    proof {
        assert forall|x: int, y: int| #[trigger] c4.inside(x, y) implies (lesson::is_port(
            c4.at(x, y),
        ) <==> (x, y) == a || (x, y) == b) by {
            grid::lemma_put_at(c3, d.0, d.1, Cell::belt_cell(m2[0]), x, y);
            assert(c3.inside(x, y));
        }
        grid::lemma_put_at(c3, d.0, d.1, Cell::belt_cell(m2[0]), k.0, k.1);
        grid::lemma_put_at(c3, d.0, d.1, Cell::belt_cell(m2[0]), a.0, a.1);
        grid::lemma_put_at(c3, d.0, d.1, Cell::belt_cell(m2[0]), b.0, b.1);
        assert(c3.inside(d.0, d.1) && c3.inside(a.0, a.1) && c3.inside(b.0, b.1));
        lemma_same_task(g, c4, a, b);
        assert forall|x: int, y: int| #[trigger] c4.inside(x, y) implies (c4.at(
            x,
            y,
        ).entity is Assembler <==> (x, y) == k) by {
            grid::lemma_put_at(c3, d.0, d.1, Cell::belt_cell(m2[0]), x, y);
            assert(c3.inside(x, y));
        }
        if aim::aimed(g) {
            aim::lemma_belted_aimed(c2, d, b, off2, m2);
            assert forall|x: int, y: int| #[trigger]
                c4.inside(x, y) && c4.at(x, y).entity is Inserter implies c3.at(x, y) == c4.at(
                x,
                y,
            ) by {
                grid::lemma_put_at(c3, d.0, d.1, Cell::belt_cell(m2[0]), x, y);
            }
            aim::lemma_still_aimed(c3, c4);
        }
        if well_matched(g, a, b, k) {
            lemma_pair_feeds_sink(
                g,
                canvas,
                a,
                b,
                k,
                grid::pos(load),
                grid::pos(unload),
                off1,
                m1,
                off2,
                m2,
            );
        }
    }
    list_and_finish(
        candidate,
        start,
        goal,
        site,
        pair,
        inbound,
        outbound,
        Ghost(g),
        Ghost(route::between(c1, a, m1)),
        Ghost(route::between(c2, d, m2)),
    )
}

/// Whether the source, the machine and the sink of a board are made for each other: the
/// machine needs what the source gives and no more, and makes what the sink accepts.
pub open spec fn well_matched(
    g: GridView,
    source: (int, int),
    sink: (int, int),
    site: (int, int),
) -> bool {
    let recipe = g.at(site.0, site.1).item;
    &&& recipe.inputs().len() == 1
    &&& g.at(source.0, source.1) == placing::source_cell(recipe.inputs()[0].item)
    &&& g.at(sink.0, sink.1) == placing::sink_cell(recipe)
    &&& g.at(site.0, site.1) == placing::machine_cell(recipe)
}

/// The tiles of a pair of faces and what lies behind them.
spec fn works_of(
    g: GridView,
    source: (int, int),
    sink: (int, int),
    site: (int, int),
    load: (int, int),
    unload: (int, int),
) -> Works {
    Works {
        source,
        sink,
        site,
        load,
        unload,
        pickup: behind(g, site, load),
        drop: behind(g, site, unload),
        into: inward(g, site, load),
        away: inward(g, site, unload).reversed(),
    }
}

/// Both inserters and the belts behind them stand where they are put, and everything else
/// as before.
proof fn lemma_fitted_stands(
    g: GridView,
    canvas: Canvas,
    source: (int, int),
    sink: (int, int),
    site: (int, int),
    load: (int, int),
    unload: (int, int),
)
    requires
        machine_placed(g, source, sink, site),
        well_matched(g, source, sink, site),
        is_pair(g, site, (load, unload)),
        pair_fits(g, canvas, source, sink, site, load, unload),
    ensures
        ({
            let c = fitted(g, site, load, unload);
            let w = works_of(g, source, sink, site, load, unload);
            &&& c.valid()
            &&& c.width == g.width
            &&& c.height == g.height
            &&& w.apt(c)
            &&& w.stands(c, g.at(site.0, site.1).item, w.away)
        }),
{
    broadcast use {grid::lemma_slot, grid::lemma_put_at};

    let w = works_of(g, source, sink, site, load, unload);
    lemma_face(g, site, load);
    lemma_face(g, site, unload);
    lemma_apart(source, sink, load, unload, w.pickup, w.drop);
    let c1 = g.put(load.0, load.1, placing::inserter_cell(w.into));
    let c2 = c1.put(unload.0, unload.1, placing::inserter_cell(w.away));
    let c3 = c2.put(w.pickup.0, w.pickup.1, Cell::belt_cell(w.into));
    assert(c1.valid() && c2.valid() && c3.valid());
    assert(load != site && unload != site && w.pickup != site && w.drop != site);
}

/// A pair of faces that is connected by belts to a source and a sink that suit the machine
/// feeds the sink.
proof fn lemma_pair_feeds_sink(
    g: GridView,
    canvas: Canvas,
    source: (int, int),
    sink: (int, int),
    site: (int, int),
    load: (int, int),
    unload: (int, int),
    off1: Seq<(int, int)>,
    m1: Seq<Direction>,
    off2: Seq<(int, int)>,
    m2: Seq<Direction>,
)
    requires
        machine_placed(g, source, sink, site),
        well_matched(g, source, sink, site),
        is_pair(g, site, (load, unload)),
        pair_fits(g, canvas, source, sink, site, load, unload),
        m1.len() > 0,
        m2.len() > 0,
        ({
            let c1 = fitted(g, site, load, unload);
            let c2 = route::belted(c1, source, m1, (m1.len() - 1) as nat);
            let drop = behind(g, site, unload);
            let c3 = route::belted(c2, drop, m2, (m2.len() - 1) as nat);
            &&& route::is_best_route(c1, source, behind(g, site, load), off1, m1)
            &&& route::is_best_route(c2, drop, sink, off2, m2)
            &&& c3.put(drop.0, drop.1, Cell::belt_cell(m2[0])).consistent()
        }),
    ensures
        ({
            let c1 = fitted(g, site, load, unload);
            let c2 = route::belted(c1, source, m1, (m1.len() - 1) as nat);
            let drop = behind(g, site, unload);
            let c3 = route::belted(c2, drop, m2, (m2.len() - 1) as nat);
            delivery::feeds_a_sink(c3.put(drop.0, drop.1, Cell::belt_cell(m2[0])))
        }),
{
    let w = works_of(g, source, sink, site, load, unload);
    let recipe = g.at(site.0, site.1).item;
    let (n1, n2) = ((m1.len() - 1) as nat, (m2.len() - 1) as nat);
    let c1 = fitted(g, site, load, unload);
    let c2 = route::belted(c1, source, m1, n1);
    let c3 = route::belted(c2, w.drop, m2, n2);
    let c4 = c3.put(w.drop.0, w.drop.1, Cell::belt_cell(m2[0]));
    lemma_fitted_stands(g, canvas, source, sink, site, load, unload);
    lemma_apart(source, sink, load, unload, w.pickup, w.drop);
    assert(c2.valid() && c3.valid() && c3.width == g.width && c3.height == g.height) by {
        carries::lemma_kept(c1, source, w.pickup, off1, m1, n1, source);
        carries::lemma_kept(c2, w.drop, sink, off2, m2, n2, source);
    }
    assert forall|t: (int, int)|
        g.inside(t.0, t.1) && c1.at(t.0, t.1).entity !is Empty implies #[trigger] c4.at(t.0, t.1)
        == (if t == w.drop {
        Cell::belt_cell(m2[0])
    } else {
        c1.at(t.0, t.1)
    }) by {
        carries::lemma_kept(c1, source, w.pickup, off1, m1, n1, t);
        carries::lemma_kept(c2, w.drop, sink, off2, m2, n2, t);
        grid::lemma_put_at(c3, w.drop.0, w.drop.1, Cell::belt_cell(m2[0]), t.0, t.1);
    }
    assert(w.stands(c4, recipe, m2[0]));
    assert(w.apt(c4));
    assert(carries::laid(c4, source, m1)) by {
        assert forall|k: int| 1 <= k < m1.len() implies {
            let p = #[trigger] carries::stop(source, m1, k);
            c4.inside(p.0, p.1) && c4.at(p.0, p.1) == Cell::belt_cell(m1[k])
        } by {
            let p = carries::stop(source, m1, k);
            carries::lemma_laid(c1, source, w.pickup, off1, m1, n1, k);
            route::law_best_route_is_free(c1, source, w.pickup, off1, m1, k);
            carries::lemma_kept(c2, w.drop, sink, off2, m2, n2, p);
            grid::lemma_put_at(c3, w.drop.0, w.drop.1, Cell::belt_cell(m2[0]), p.0, p.1);
        }
    }
    assert(carries::laid(c4, w.drop, m2)) by {
        assert forall|k: int| 1 <= k < m2.len() implies {
            let p = #[trigger] carries::stop(w.drop, m2, k);
            c4.inside(p.0, p.1) && c4.at(p.0, p.1) == Cell::belt_cell(m2[k])
        } by {
            let p = carries::stop(w.drop, m2, k);
            carries::lemma_laid(c2, w.drop, sink, off2, m2, n2, k);
            route::law_best_route_is_free(c2, w.drop, sink, off2, m2, k);
            grid::lemma_put_at(c3, w.drop.0, w.drop.1, Cell::belt_cell(m2[0]), p.0, p.1);
        }
    }
    assert(c4.loading_slots(site.0, site.1).contains(unload)) by {
        lemma_faces_among(g, site, g.loading_slots(site.0, site.1), unload);
        assert(c4.ring(site.0, site.1) =~= g.ring(site.0, site.1));
        lemma_same_board(g, c4, g.ring(site.0, site.1));
    }
    grid::lemma_slot(c3, w.drop.0, w.drop.1);
    carries::lemma_works_feed_sink(c4, c1, c2, w, recipe, off1, m1, off2, m2);
}

/// Which tiles are on the board depends on its size only.
proof fn lemma_same_board(g: GridView, h: GridView, tiles: Seq<(int, int)>)
    requires
        g.width == h.width,
        g.height == h.height,
    ensures
        g.on_board(tiles) == h.on_board(tiles),
    decreases tiles.len(),
{
    if tiles.len() > 0 {
        lemma_same_board(g, h, tiles.drop_last());
    }
}

/// Boards with the same terrain and the same ports pose the same task.
proof fn lemma_same_task(g: GridView, h: GridView, source: (int, int), sink: (int, int))
    requires
        g.valid(),
        h.valid(),
        h.width == g.width,
        h.height == g.height,
        h.obstacle == g.obstacle,
        ports_are(g, source, sink),
        ports_are(h, source, sink),
        h.at(source.0, source.1) == g.at(source.0, source.1),
        h.at(sink.0, sink.1) == g.at(sink.0, sink.1),
    ensures
        lesson::ports_only(h) == lesson::ports_only(g),
{
    assert forall|i: int| 0 <= i < g.cells.len() implies lesson::ports_only(h).cells[i]
        == lesson::ports_only(g).cells[i] by {
        grid::lemma_slot_surjective(g, i);
        let (x, y) = (i % (g.width as int), i / (g.width as int));
        assert(g.inside(x, y) && h.inside(x, y));
        assert(g.at(x, y) == g.cells[i] && h.at(x, y) == h.cells[i]);
    }
    assert(lesson::ports_only(h) =~= lesson::ports_only(g));
}

/// List the slots of a finished board and make it a lesson.
fn list_and_finish(
    grid: Grid,
    start: (usize, usize),
    goal: (usize, usize),
    site: (usize, usize),
    pair: &FacePair,
    inbound: Vec<usize>,
    outbound: Vec<usize>,
    g: Ghost<GridView>,
    run_in: Ghost<Seq<int>>,
    run_out: Ghost<Seq<int>>,
) -> (r: Option<Sample>)
    requires
        grid.wf(),
        grid@.consistent(),
        grid@.width == g@.width,
        grid@.height == g@.height,
        machine_placed(g@, grid::pos(start), grid::pos(goal), grid::pos(site)),
        pair.of(g@, grid::pos(start), grid::pos(goal), grid::pos(site)),
        pair_fits(
            g@,
            Canvas { width: grid.width, height: grid.height },
            grid::pos(start),
            grid::pos(goal),
            grid::pos(site),
            grid::pos(pair.load),
            grid::pos(pair.unload),
        ),
        ports_are(grid@, grid::pos(start), grid::pos(goal)),
        grid@.at(site.0 as int, site.1 as int).entity is Assembler,
        lesson::ints(inbound@) == run_in@,
        lesson::ints(outbound@) == run_out@,
        forall|k: int|
            0 <= k < run_in@.len() ==> {
                let i = #[trigger] run_in@[k];
                0 <= i < g@.cells.len() && !three_slots(
                    g@,
                    grid::pos(start),
                    grid::pos(goal),
                    grid::pos(site),
                ).contains(i)
            },
        forall|k: int|
            0 <= k < run_out@.len() ==> {
                let i = #[trigger] run_out@[k];
                0 <= i < g@.cells.len() && !three_slots(
                    g@,
                    grid::pos(start),
                    grid::pos(goal),
                    grid::pos(site),
                ).contains(i)
            },
    ensures
        r matches Some(s) ==> s@.sound(),
        templates::sample_option(r) == templates::working(
            SampleView {
                kind: LessonKind::AssemblerChaos,
                solution: grid@,
                protected: seq![
                    g@.slot(start.0 as int, start.1 as int),
                    g@.slot(goal.0 as int, goal.1 as int),
                    g@.slot(site.0 as int, site.1 as int),
                ],
                removable: seq![
                    g@.slot(pair.load.0 as int, pair.load.1 as int),
                    g@.slot(pair.unload.0 as int, pair.unload.1 as int),
                    g@.slot(pair.pickup.0 as int, pair.pickup.1 as int),
                    g@.slot(pair.drop.0 as int, pair.drop.1 as int),
                ] + run_in@ + run_out@,
            },
        ),
{
    let ghost h = grid@;
    let ghost (a, b, k) = (grid::pos(start), grid::pos(goal), grid::pos(site));
    let ghost (l, u) = (grid::pos(pair.load), grid::pos(pair.unload));
    let ghost (p, d) = (grid::pos(pair.pickup), grid::pos(pair.drop));
    let ghost protected_slots = three_slots(h, a, b, k);
    proof {
        lemma_face(g@, k, l);
        lemma_face(g@, k, u);
        placing::lemma_taken(g@, p.0, p.1);
        placing::lemma_taken(g@, d.0, d.1);
        placing::lemma_taken(g@, k.0, k.1);
        lemma_apart(a, b, l, u, p, d);
        lemma_other_slot(h, a, b, k, l);
        lemma_other_slot(h, a, b, k, u);
        lemma_other_slot(h, a, b, k, p);
        lemma_other_slot(h, a, b, k, d);
        grid::lemma_slot(h, a.0, a.1);
        grid::lemma_slot(h, b.0, b.1);
        grid::lemma_slot(h, k.0, k.1);
        grid::lemma_slot(h, l.0, l.1);
        grid::lemma_slot(h, u.0, u.1);
        grid::lemma_slot(h, p.0, p.1);
        grid::lemma_slot(h, d.0, d.1);
        assert(grid.cells.len() <= usize::MAX);
    }
    let protected = vec![
        grid.idx(start.0, start.1),
        grid.idx(goal.0, goal.1),
        grid.idx(site.0, site.1),
    ];
    let mut removable = vec![
        grid.idx(pair.load.0, pair.load.1),
        grid.idx(pair.unload.0, pair.unload.1),
        grid.idx(pair.pickup.0, pair.pickup.1),
        grid.idx(pair.drop.0, pair.drop.1),
    ];
    let ghost four = removable@;
    let mut inbound = inbound;
    let mut outbound = outbound;
    removable.append(&mut inbound);
    removable.append(&mut outbound);
    proof {
        assert(lesson::ints(protected@) =~= protected_slots);
        let all = lesson::ints(removable@);
        assert(all =~= lesson::ints(four) + run_in@ + run_out@);
        assert(lesson::ints(four) =~= seq![
            h.slot(l.0, l.1),
            h.slot(u.0, u.1),
            h.slot(p.0, p.1),
            h.slot(d.0, d.1),
        ]);
        assert(protected_slots.contains(protected_slots[0]) && protected_slots.contains(
            protected_slots[1],
        ));
        assert(templates::ports_among(h, protected_slots));
        templates::lemma_ports_listed(h, protected_slots);
        assert(three_slots(g@, a, b, k) =~= protected_slots);
        assert forall|j: int| 0 <= j < all.len() implies {
            let i = #[trigger] all[j];
            &&& 0 <= i < h.cells.len()
            &&& !protected_slots.contains(i)
            &&& !lesson::is_port(h.cells[i])
        } by {
            let n = run_in@.len();
            if j < 4 {
                assert(all[j] == lesson::ints(four)[j]);
            } else if j < 4 + n {
                assert(all[j] == run_in@[j - 4]);
            } else {
                assert(all[j] == run_out@[j - 4 - n]);
            }
            lemma_not_port(h, protected_slots, all[j]);
        }
        assert(h.inside(a.0, a.1) && h.inside(b.0, b.1));
        assert(lesson::is_port(h.at(a.0, a.1)) && lesson::is_port(h.at(b.0, b.1)));
    }
    finish(LessonKind::AssemblerChaos, grid, protected, removable)
}

/// Try the pairs of faces in order until one gives a lesson.
pub fn first_fitting_pair(
    grid: &Grid,
    start: (usize, usize),
    goal: (usize, usize),
    site: (usize, usize),
) -> (r: Option<Sample>)
    requires
        machine_placed(grid@, grid::pos(start), grid::pos(goal), grid::pos(site)),
    ensures
        templates::sample_option(r) == first_pair_lesson(
            grid@,
            Canvas { width: grid.width, height: grid.height },
            grid::pos(start),
            grid::pos(goal),
            grid::pos(site),
        ),
        r matches Some(s) ==> {
            &&& s@.sound()
            &&& aim::aimed(grid@) ==> aim::aimed(s@.solution)
            &&& lesson::ports_only(s@.solution) == lesson::ports_only(grid@)
            &&& sole_machine(s@.solution, grid::pos(site))
            &&& well_matched(
                grid@,
                grid::pos(start),
                grid::pos(goal),
                grid::pos(site),
            ) ==> delivery::feeds_a_sink(s@.solution)
        },
{
    let ghost g = grid@;
    let ghost (a, b, k) = (grid::pos(start), grid::pos(goal), grid::pos(site));
    let ghost canvas = Canvas { width: grid.width, height: grid.height };
    let faces_here = free_faces(grid, site);
    let pairs = face_pairs(grid, &faces_here, start, goal, site);
    let mut i: usize = 0;
    while i < pairs.len()
        invariant
            g == grid@,
            (a, b, k) == (grid::pos(start), grid::pos(goal), grid::pos(site)),
            canvas == (Canvas { width: grid.width, height: grid.height }),
            machine_placed(g, a, b, k),
            grid::pos_list(faces_here@) == faces(g, k),
            i <= pairs.len(),
            forall|n: int| 0 <= n < pairs@.len() ==> (#[trigger] pairs@[n]).of(g, a, b, k),
            forall|p: ((int, int), (int, int))| #[trigger]
                is_pair(g, k, p) ==> exists|n: int|
                    0 <= n < pairs@.len() && (#[trigger] pairs@[n]).tiles() == p,
            forall|x: int, y: int|
                0 <= x < y < pairs@.len() ==> !pair_before(
                    g,
                    a,
                    b,
                    k,
                    (#[trigger] pairs@[y]).tiles(),
                    (#[trigger] pairs@[x]).tiles(),
                ),
            forall|n: int|
                0 <= n < i ==> pair_lesson(
                    g,
                    canvas,
                    a,
                    b,
                    k,
                    (#[trigger] pairs@[n]).tiles(),
                ) is None,
        decreases pairs.len() - i,
    {
        let found = try_pair(grid, &faces_here, start, goal, site, &pairs[i]);
        if found.is_some() {
            proof {
                let p = pairs@[i as int].tiles();
                assert(is_first_pair(g, canvas, a, b, k, p)) by {
                    assert forall|q: ((int, int), (int, int))| #[trigger]
                        is_pair(g, k, q) && pair_before(g, a, b, k, q, p) implies pair_lesson(
                        g,
                        canvas,
                        a,
                        b,
                        k,
                        q,
                    ) is None by {
                        let n = choose|n: int|
                            0 <= n < pairs@.len() && (#[trigger] pairs@[n]).tiles() == q;
                        if n > i {
                            assert(!pair_before(
                                g,
                                a,
                                b,
                                k,
                                pairs@[n].tiles(),
                                pairs@[i as int].tiles(),
                            ));
                        }
                    }
                }
                let c = choose|c: ((int, int), (int, int))| #[trigger]
                    is_first_pair(g, canvas, a, b, k, c);
                lemma_one_first_pair(g, canvas, a, b, k, p, c);
            }
            return found;
        }
        i = i + 1;
    }
    proof {
        assert forall|p: ((int, int), (int, int))| !#[trigger] is_first_pair(
            g,
            canvas,
            a,
            b,
            k,
            p,
        ) by {
            if is_first_pair(g, canvas, a, b, k, p) {
                let n = choose|n: int| 0 <= n < pairs@.len() && (#[trigger] pairs@[n]).tiles() == p;
                assert(pair_lesson(g, canvas, a, b, k, pairs@[n].tiles()) is None);
            }
        }
    }
    None
}

/// Only one pair of faces can be the first.
proof fn lemma_one_first_pair(
    g: GridView,
    canvas: Canvas,
    source: (int, int),
    sink: (int, int),
    site: (int, int),
    p: ((int, int), (int, int)),
    q: ((int, int), (int, int)),
)
    requires
        is_first_pair(g, canvas, source, sink, site, p),
        is_first_pair(g, canvas, source, sink, site, q),
    ensures
        p == q,
{
    if p != q {
        assert(pair_before(g, source, sink, site, p, q) || pair_before(
            g,
            source,
            sink,
            site,
            q,
            p,
        ));
    }
}

/// If no pair of faces is the first to give a lesson, none gives one at all.
pub proof fn law_no_first_pair_no_lesson(
    g: GridView,
    canvas: Canvas,
    source: (int, int),
    sink: (int, int),
    site: (int, int),
    p: ((int, int), (int, int)),
)
    requires
        first_pair_lesson(g, canvas, source, sink, site) is None,
        g.valid(),
        is_pair(g, site, p),
    ensures
        pair_lesson(g, canvas, source, sink, site, p) is None,
    decreases
            pair_cost(g, source, sink, site, p),
            p.0.1,
            p.0.0,
            p.1.1,
            p.1.0,
{
    if pair_lesson(g, canvas, source, sink, site, p) is Some {
        assert(!is_first_pair(g, canvas, source, sink, site, p)) by {
            if is_first_pair(g, canvas, source, sink, site, p) {
                let c = choose|c: ((int, int), (int, int))| #[trigger]
                    is_first_pair(g, canvas, source, sink, site, c);
                assert(is_first_pair(g, canvas, source, sink, site, c));
            }
        }
        let q = choose|q: ((int, int), (int, int))| #[trigger]
            is_pair(g, site, q) && pair_before(g, source, sink, site, q, p) && pair_lesson(
                g,
                canvas,
                source,
                sink,
                site,
                q,
            ) is Some;
        lemma_face(g, site, q.0);
        lemma_face(g, site, q.1);
        law_no_first_pair_no_lesson(g, canvas, source, sink, site, q);
    }
}

/// Whether a factory holds one source, one sink and one machine, and the machine stands
/// where the source and the sink alone imply.
pub open spec fn stands_where_implied(
    g: GridView,
    source: (int, int),
    sink: (int, int),
) -> bool {
    let site = route::best_site(lesson::ports_only(g), source, sink);
    &&& g.inside(source.0, source.1)
    &&& g.inside(sink.0, sink.1)
    &&& forall|x: int, y: int| #[trigger]
        g.inside(x, y) ==> (g.at(x, y).entity is Source <==> (x, y) == source)
    &&& forall|x: int, y: int| #[trigger]
        g.inside(x, y) ==> (g.at(x, y).entity is Sink <==> (x, y) == sink)
    &&& site is Some
    &&& g.inside((site->0).0, (site->0).1)
    &&& sole_machine(g, site->0)
}

/// Whether the machine of a factory stands where its source and its sink imply.
pub open spec fn machine_implied(g: GridView) -> bool {
    exists|source: (int, int), sink: (int, int)| #[trigger]
        stands_where_implied(g, source, sink)
}

/// Solve a task: the machine, its inserters and the belts that make `recipe` from what
/// the source gives and bring it to the sink.
///
/// What a scaffold of the lesson shows is the task, and the machine stands where the
/// task alone implies.
pub fn build_assembler_chaos(
    board: Grid,
    start: (usize, usize),
    goal: (usize, usize),
    recipe: Item,
) -> (r: Option<Sample>)
    requires
        board.wf(),
        routed::bare(board@),
        board@.inside(start.0 as int, start.1 as int),
        board@.inside(goal.0 as int, goal.1 as int),
        !board@.blocked(start.0 as int, start.1 as int),
        !board@.blocked(goal.0 as int, goal.1 as int),
        start != goal,
        recipe.is_crafted(),
    ensures
        templates::sample_option(r) == chaos_answer(
            board@,
            Canvas { width: board.width, height: board.height },
            grid::pos(start),
            grid::pos(goal),
            recipe,
        ),
        r matches Some(s) ==> {
            &&& s@.sound()
            &&& aim::aimed(s@.solution)
            &&& lesson::ports_only(s@.solution) == posed(
                board@,
                grid::pos(start),
                grid::pos(goal),
                recipe,
            )
            &&& stands_where_implied(s@.solution, grid::pos(start), grid::pos(goal))
            &&& recipe.inputs().len() == 1 ==> delivery::feeds_a_sink(s@.solution)
        },
{
    broadcast use grid::lemma_put_at;

    let ghost (a, b) = (grid::pos(start), grid::pos(goal));
    let ghost bare = board@;
    let inputs = recipe.ingredients();
    let mut grid = board;
    proof {
        placing::lemma_bare(grid@);
    }
    place(&mut grid, start.0, start.1, source(inputs[0].item));
    place(&mut grid, goal.0, goal.1, sink(recipe));
    let ghost task = grid@;
    proof {
        assert forall|x: int, y: int| #[trigger] task.inside(x, y) implies (lesson::is_port(
            task.at(x, y),
        ) <==> (x, y) == a || (x, y) == b) by {
            grid::lemma_slot(bare, x, y);
            assert(bare.inside(x, y));
        }
    }
    let site = match canonical_assembler_anchor(&grid, start, goal) {
        Some(site) => site,
        None => {
            return None;
        },
    };
    let ghost k = grid::pos(site);
    proof {
        let cell = placing::machine_cell(recipe);
        assert(placing::clear_for(task, k.0, k.1, cell)) by {
            assert forall|x: int, y: int| #[trigger]
                placing::spans(cell, k.0, k.1, x, y) implies task.inside(x, y) && !task.blocked(
                x,
                y,
            ) && !placing::taken(task, x, y) by {
                assert(task.anchor_of(x, y) is None);
                placing::lemma_taken(task, x, y);
            }
        }
        placing::lemma_taken(task, a.0, a.1);
        placing::lemma_taken(task, b.0, b.1);
        assert(task.inside(a.0, a.1) && task.inside(b.0, b.1));
        assert(placing::spans(cell, k.0, k.1, k.0, k.1));
    }
    place(&mut grid, site.0, site.1, machine(recipe));
    let ghost g = grid@;
    proof {
        assert forall|x: int, y: int| #[trigger] g.inside(x, y) implies (lesson::is_port(g.at(x, y))
            <==> (x, y) == a || (x, y) == b) && g.at(x, y).entity !is Inserter && (g.at(
            x,
            y,
        ).entity is Assembler <==> (x, y) == k) by {
            assert(task.inside(x, y));
            grid::lemma_slot(bare, x, y);
        }
        aim::lemma_no_inserters(g);
        assert(machine_placed(g, a, b, k));
        assert(recipe.inputs().len() == 1 ==> well_matched(g, a, b, k));
        lemma_same_task(task, g, a, b);
        assert(lesson::ports_only(task) =~= task) by {
            assert forall|i: int| 0 <= i < task.cells.len() implies lesson::ports_only(
                task,
            ).cells[i] == task.cells[i] by {
                grid::lemma_slot_surjective(task, i);
                let (x, y) = (i % (task.width as int), i / (task.width as int));
                assert(task.inside(x, y) && task.at(x, y) == task.cells[i]);
                assert(bare.inside(x, y) && bare.at(x, y) == bare.cells[i]);
            }
        }
    }
    let around = grid.perimeter(site.0, site.1);
    if holds(&around, start) || holds(&around, goal) {
        return None;
    }
    let r = first_fitting_pair(&grid, start, goal, site);
    proof {
        if r is Some {
            lemma_stands(r->0@.solution, task, a, b, k);
        }
    }
    r
}

/// A factory with one machine, at the best site of the task that it shows, has its
/// machine where the task implies.
proof fn lemma_stands(
    g: GridView,
    task: GridView,
    source: (int, int),
    sink: (int, int),
    site: (int, int),
)
    requires
        g.valid(),
        task.valid(),
        lesson::ports_only(g) == task,
        task.inside(source.0, source.1) && task.inside(sink.0, sink.1),
        task.inside(site.0, site.1),
        source != sink,
        task.at(source.0, source.1).entity is Source,
        task.at(sink.0, sink.1).entity is Sink,
        forall|x: int, y: int| #[trigger]
            task.inside(x, y) ==> (lesson::is_port(task.at(x, y)) <==> (x, y) == source || (x, y)
                == sink),
        route::best_site(task, source, sink) == Some(site),
        sole_machine(g, site),
    ensures
        stands_where_implied(g, source, sink),
{
    assert forall|x: int, y: int| #[trigger] g.inside(x, y) implies (g.at(x, y).entity is Source
        <==> (x, y) == source) && (g.at(x, y).entity is Sink <==> (x, y) == sink) by {
        assert(task.inside(x, y));
        grid::lemma_slot(g, x, y);
        assert(task.at(x, y) == task.cells[g.slot(x, y)]);
        assert(g.at(x, y) == g.cells[g.slot(x, y)]);
    }
}

/// Which task with its answer, if any, is drawn from a stream, and the stream
/// afterwards.
pub open spec fn chaos_lesson(canvas: Canvas, r: RandomStream) -> (
    Option<SampleView>,
    RandomStream,
) {
    if !LessonKind::AssemblerChaos.fits_on(canvas) {
        (None, r)
    } else {
        let (board, r) = routed::scattered(canvas, r, routed::obstacle_count(canvas));
        let (k, r) = r.select(2);
        let (source, r) = routed::roll_cell(canvas, r);
        let (sink, r) = routed::roll_cell(canvas, r);
        if source == sink || board.blocked(source.0, source.1) || board.blocked(sink.0, sink.1) {
            (None, r)
        } else {
            (chaos_answer(board, canvas, source, sink, templates::single_input_product(k)), r)
        }
    }
}

/// Draw a task with obstacles and solve it. The task is drawn first; the answer is a
/// function of what the task shows.
pub fn gen_assembler_chaos(canvas: Canvas, rng: &mut RandomStream) -> (r: Option<Sample>)
    requires
        canvas.holdable(),
    ensures
        (templates::sample_option(r), *final(rng)) == chaos_lesson(canvas, *old(rng)),
        r matches Some(s) ==> s@.sound() && aim::aimed(s@.solution) && machine_implied(s@.solution),
        r matches Some(s) ==> delivery::feeds_a_sink(s@.solution),
{
    if !LessonKind::AssemblerChaos.fits(canvas) {
        return None;
    }
    let board = scatter(canvas, rng);
    let products = Item::single_input_craftable();
    let recipe = products[rng.pick(2)];
    let from = random_cell(canvas, rng);
    let to = random_cell(canvas, rng);
    proof {
        grid::lemma_slot(board@, from.0 as int, from.1 as int);
        grid::lemma_slot(board@, to.0 as int, to.1 as int);
    }
    if from.0 == to.0 && from.1 == to.1 || board.is_obstacle(from.0, from.1) || board.is_obstacle(
        to.0,
        to.1,
    ) {
        return None;
    }
    build_assembler_chaos(board, from, to, recipe)
}

} // verus!
