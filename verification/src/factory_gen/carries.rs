//! Belts along a route carry what they are given to its end.

use vstd::prelude::*;
use crate::factory_gen::placing;
use crate::factory_gen::route;
use crate::factory_gen::works;
use crate::sim;
use crate::throughput::delivery;
use crate::world::grid;
use crate::world::grid::GridView;
use crate::world::{Cell, Direction, Item};

verus! {

/// The tile that a route reaches with its `k`-th step.
pub open spec fn stop(start: (int, int), m: Seq<Direction>, k: int) -> (int, int) {
    route::walk(start, m.take(k))
}

/// Whether belts stand on the tiles that a route visits between its ends, each facing
/// the next.
pub open spec fn laid(h: GridView, start: (int, int), m: Seq<Direction>) -> bool {
    forall|k: int|
        1 <= k < m.len() ==> {
            let p = #[trigger] stop(start, m, k);
            h.inside(p.0, p.1) && h.at(p.0, p.1) == Cell::belt_cell(m[k])
        }
}

/// A route goes from each of its tiles to the next.
pub proof fn lemma_next_stop(start: (int, int), m: Seq<Direction>, k: int)
    requires
        0 <= k < m.len(),
    ensures
        stop(start, m, k + 1) == route::neighbour(stop(start, m, k), m[k]),
        stop(start, m, 0) == start,
{
    assert(m.take(k + 1).drop_last() =~= m.take(k));
    assert(m.take(0) =~= Seq::empty());
}

/// Belts along the best route stand on its tiles.
pub proof fn lemma_laid(
    g: GridView,
    start: (int, int),
    goal: (int, int),
    avoid: Seq<(int, int)>,
    m: Seq<Direction>,
    n: nat,
    k: int,
)
    requires
        g.valid(),
        route::is_best_route(g, start, goal, avoid, m),
        n < m.len(),
        1 <= k <= n,
    ensures
        ({
            let p = stop(start, m, k);
            let b = route::belted(g, start, m, n);
            &&& b.valid()
            &&& b.inside(p.0, p.1)
            &&& b.at(p.0, p.1) == Cell::belt_cell(m[k])
            &&& b.width == g.width
            &&& b.height == g.height
        }),
    decreases n,
{
    let p = stop(start, m, k);
    let q = stop(start, m, n as int);
    let before = route::belted(g, start, m, (n - 1) as nat);
    route::law_best_route_is_free(g, start, goal, avoid, m, k);
    route::law_best_route_is_free(g, start, goal, avoid, m, n as int);
    if k < n {
        lemma_laid(g, start, goal, avoid, m, (n - 1) as nat, k);
        route::law_best_route_is_simple(g, start, goal, avoid, m, k, n as int);
    } else if n > 1 {
        lemma_laid(g, start, goal, avoid, m, (n - 1) as nat, 1);
    }
    grid::lemma_slot(before, q.0, q.1);
    grid::lemma_put_at(before, q.0, q.1, Cell::belt_cell(m[n as int]), p.0, p.1);
}

/// A source offers to what stands beside it.
pub proof fn lemma_source_offers(h: GridView, s: (int, int), d: Direction)
    requires
        h.at(s.0, s.1).entity is Source,
        d !is Nowhere,
        ({
            let q = route::neighbour(s, d);
            h.inside(q.0, q.1) && h.at(q.0, q.1).entity !is Empty
        }),
    ensures
        sim::targets(h, s.0, s.1).contains(route::neighbour(s, d)),
{
    let q = route::neighbour(s, d);
    let ring = h.ring(s.0, s.1);
    let k: int = match d {
        Direction::North => 0,
        Direction::East => 1,
        Direction::South => 2,
        _ => 3,
    };
    assert(ring.len() == 4 && ring[k] == q);
    works::lemma_offers_around(h, s, k, q);
}

/// Whether what stands at `p` is a source or a belt that faces `d`.
pub open spec fn gives(h: GridView, p: (int, int), d: Direction) -> bool {
    let cell = h.at(p.0, p.1);
    cell.entity is Source || cell.entity is TransportBelt && cell.direction == d
}

/// A source, or a belt that faces it, pushes into whatever is stored on the next tile.
proof fn lemma_gives(h: GridView, p: (int, int), d: Direction)
    requires
        gives(h, p, d),
        d !is Nowhere,
        ({
            let q = route::neighbour(p, d);
            h.inside(q.0, q.1) && h.at(q.0, q.1).entity !is Empty
        }),
    ensures
        sim::targets(h, p.0, p.1).contains(route::neighbour(p, d)),
{
    if h.at(p.0, p.1).entity is Source {
        lemma_source_offers(h, p, d);
    } else {
        works::lemma_pushes_ahead(h, p, route::neighbour(p, d));
    }
}

/// What the start of a route hands on is received by every belt along it.
pub proof fn lemma_run_receives(
    h: GridView,
    g: GridView,
    start: (int, int),
    goal: (int, int),
    avoid: Seq<(int, int)>,
    m: Seq<Direction>,
    item: Item,
    k: int,
)
    requires
        route::is_best_route(g, start, goal, avoid, m),
        laid(h, start, m),
        h.inside(start.0, start.1),
        h.inside(goal.0, goal.1),
        h.at(goal.0, goal.1).entity !is Empty,
        m.len() > 0,
        gives(h, start, m[0]),
        sim::hands_on(h, delivery::received(h), start.0, start.1, item),
        1 <= k < m.len(),
    ensures
        delivery::received(h).contains((stop(start, m, k).0, stop(start, m, k).1, item)),
    decreases k,
{
    let p = stop(start, m, k - 1);
    let q = stop(start, m, k);
    let next = stop(start, m, k + 1);
    lemma_next_stop(start, m, k - 1);
    lemma_next_stop(start, m, k);
    assert(m.take(m.len() as int) =~= m);
    route::law_best_route_is_simple(g, start, goal, avoid, m, k - 1, k + 1);
    route::law_best_route_is_simple(g, start, goal, avoid, m, k - 1, k);
    route::lemma_first_step(g, start, goal, avoid, m);
    if k > 1 {
        lemma_run_receives(h, g, start, goal, avoid, m, item, k - 1);
        route::law_best_route_is_free(g, start, goal, avoid, m, k - 1);
    }
    assert(gives(h, p, m[k - 1]));
    lemma_gives(h, p, m[k - 1]);
    assert(h.at(next.0, next.1).entity !is Empty);
    works::lemma_belt_takes(h, p, q);
    works::lemma_carry(h, p, q, item);
}

/// The last tile before the end of a route hands on what the start does.
pub proof fn lemma_run_arrives(
    h: GridView,
    g: GridView,
    start: (int, int),
    goal: (int, int),
    avoid: Seq<(int, int)>,
    m: Seq<Direction>,
    item: Item,
)
    requires
        route::is_best_route(g, start, goal, avoid, m),
        laid(h, start, m),
        h.inside(start.0, start.1),
        h.inside(goal.0, goal.1),
        h.at(goal.0, goal.1).entity !is Empty,
        m.len() > 0,
        gives(h, start, m[0]),
        sim::hands_on(h, delivery::received(h), start.0, start.1, item),
    ensures
        ({
            let p = stop(start, m, m.len() - 1);
            &&& h.inside(p.0, p.1)
            &&& gives(h, p, m.last())
            &&& sim::hands_on(h, delivery::received(h), p.0, p.1, item)
            &&& route::neighbour(p, m.last()) == goal
            &&& sim::targets(h, p.0, p.1).contains(goal)
            &&& p != goal
            &&& m.len() > 1 ==> h.at(p.0, p.1).entity is TransportBelt
        }),
{
    let n = m.len() - 1;
    let p = stop(start, m, n);
    assert(m.take(m.len() as int) =~= m);
    lemma_next_stop(start, m, n);
    route::law_best_route_is_simple(g, start, goal, avoid, m, n, n + 1);
    route::lemma_first_step(g, start, goal, avoid, m);
    if n > 0 {
        lemma_run_receives(h, g, start, goal, avoid, m, item, n);
        route::law_best_route_is_free(g, start, goal, avoid, m, n);
    }
    lemma_gives(h, p, m[n]);
}

/// A run of belts from where an item is handed on to a sink that accepts it feeds the
/// sink.
pub proof fn lemma_run_feeds_sink(
    h: GridView,
    g: GridView,
    start: (int, int),
    goal: (int, int),
    avoid: Seq<(int, int)>,
    m: Seq<Direction>,
    item: Item,
)
    requires
        route::is_best_route(g, start, goal, avoid, m),
        laid(h, start, m),
        h.inside(start.0, start.1),
        h.inside(goal.0, goal.1),
        h.at(goal.0, goal.1).entity is Sink,
        sim::accepts(h.at(goal.0, goal.1).item, item),
        m.len() > 0,
        m.len() > 1 || h.at(start.0, start.1).entity is TransportBelt,
        gives(h, start, m[0]),
        sim::hands_on(h, delivery::received(h), start.0, start.1, item),
    ensures
        delivery::feeds_a_sink(h),
{
    lemma_run_arrives(h, g, start, goal, avoid, m, item);
    lemma_next_stop(start, m, 0);
    let p = stop(start, m, m.len() - 1);
    assert(delivery::supplies(h, p, goal, item));
}

/// Belts along the best route leave every tile on which something is stored as it is.
pub proof fn lemma_kept(
    g: GridView,
    start: (int, int),
    goal: (int, int),
    avoid: Seq<(int, int)>,
    m: Seq<Direction>,
    n: nat,
    t: (int, int),
)
    requires
        g.valid(),
        route::is_best_route(g, start, goal, avoid, m),
        n < m.len(),
        g.inside(t.0, t.1),
        g.at(t.0, t.1).entity !is Empty,
    ensures
        ({
            let b = route::belted(g, start, m, n);
            &&& b.valid()
            &&& b.width == g.width
            &&& b.height == g.height
            &&& b.at(t.0, t.1) == g.at(t.0, t.1)
        }),
    decreases n,
{
    if n > 0 {
        let q = stop(start, m, n as int);
        let before = route::belted(g, start, m, (n - 1) as nat);
        lemma_kept(g, start, goal, avoid, m, (n - 1) as nat, t);
        route::law_best_route_is_free(g, start, goal, avoid, m, n as int);
        grid::lemma_slot(before, q.0, q.1);
        grid::lemma_put_at(before, q.0, q.1, Cell::belt_cell(m[n as int]), t.0, t.1);
    }
}

/// The tiles of a machine that is fed and emptied by belts.
pub struct Works {
    pub source: (int, int),
    pub sink: (int, int),
    pub site: (int, int),
    pub load: (int, int),
    pub unload: (int, int),
    pub pickup: (int, int),
    pub drop: (int, int),
    pub into: Direction,
    pub away: Direction,
}

/// Whether a tile is under a machine at `site`.
pub open spec fn under(site: (int, int), t: (int, int)) -> bool {
    site.0 <= t.0 < site.0 + 3 && site.1 <= t.1 < site.1 + 3
}

impl Works {
    /// Whether the tiles lie as they must: a belt in front of the loading inserter,
    /// which faces the machine, and one behind the other, which faces away from it.
    pub open spec fn apt(self, h: GridView) -> bool {
        &&& h.inside(self.source.0, self.source.1)
        &&& h.inside(self.sink.0, self.sink.1)
        &&& h.inside(self.site.0, self.site.1)
        &&& h.inside(self.load.0, self.load.1)
        &&& h.inside(self.unload.0, self.unload.1)
        &&& h.inside(self.pickup.0, self.pickup.1)
        &&& h.inside(self.drop.0, self.drop.1)
        &&& self.into !is Nowhere
        &&& self.away !is Nowhere
        &&& route::neighbour(self.pickup, self.into) == self.load
        &&& under(self.site, route::neighbour(self.load, self.into))
        &&& route::neighbour(self.unload, self.away) == self.drop
        &&& under(self.site, route::neighbour(self.unload, self.away.reversed()))
    }

    /// What is stored on the tiles: a source of the one ingredient, the machine and a
    /// sink for its product, and the inserters and belts beside it.
    pub open spec fn stands(self, h: GridView, recipe: Item, first: Direction) -> bool {
        &&& recipe.inputs().len() == 1
        &&& h.at(self.source.0, self.source.1) == placing::source_cell(recipe.inputs()[0].item)
        &&& h.at(self.sink.0, self.sink.1) == placing::sink_cell(recipe)
        &&& h.at(self.site.0, self.site.1) == placing::machine_cell(recipe)
        &&& h.at(self.load.0, self.load.1) == placing::inserter_cell(self.into)
        &&& h.at(self.unload.0, self.unload.1) == placing::inserter_cell(self.away)
        &&& h.at(self.pickup.0, self.pickup.1) == Cell::belt_cell(self.into)
        &&& h.at(self.drop.0, self.drop.1) == Cell::belt_cell(first)
    }
}

/// The ingredient is carried to the belt in front of the loading inserter.
proof fn lemma_inbound(
    h: GridView,
    g: GridView,
    w: Works,
    recipe: Item,
    first: Direction,
    avoid: Seq<(int, int)>,
    m: Seq<Direction>,
)
    requires
        w.apt(h),
        w.stands(h, recipe, first),
        route::is_best_route(g, w.source, w.pickup, avoid, m),
        m.len() > 0,
        laid(h, w.source, m),
    ensures
        delivery::received(h).contains((w.pickup.0, w.pickup.1, recipe.inputs()[0].item)),
{
    let item = recipe.inputs()[0].item;
    lemma_run_arrives(h, g, w.source, w.pickup, avoid, m, item);
    let p = stop(w.source, m, m.len() - 1);
    lemma_next_stop(w.source, m, 0);
    works::lemma_belt_takes(h, p, w.pickup);
    works::lemma_carry(h, p, w.pickup, item);
}

/// What is loaded is crafted and unloaded.
proof fn lemma_crafted(h: GridView, w: Works, recipe: Item, first: Direction)
    requires
        h.valid(),
        h.consistent(),
        w.apt(h),
        w.stands(h, recipe, first),
        h.loading_slots(w.site.0, w.site.1).contains(w.unload),
        delivery::received(h).contains((w.pickup.0, w.pickup.1, recipe.inputs()[0].item)),
        h.anchor_of(
            route::neighbour(w.drop, first).0,
            route::neighbour(w.drop, first).1,
        ) != Some(w.unload),
    ensures
        delivery::received(h).contains((w.drop.0, w.drop.1, recipe)),
{
    let item = recipe.inputs()[0].item;
    works::lemma_pass(h, w.pickup, w.load, item);
    let t = route::neighbour(w.load, w.into);
    works::lemma_under_machine(h, w.site, t.0, t.1);
    works::lemma_pass(h, w.load, w.site, item);
    works::lemma_craft_one(h, w.site);
    let slots = h.loading_slots(w.site.0, w.site.1);
    let b = route::neighbour(w.unload, w.away.reversed());
    works::lemma_under_machine(h, w.site, b.0, b.1);
    works::lemma_entity_on(h, w.site, slots, slots.index_of(w.unload), w.unload);
    works::lemma_carry(h, w.site, w.unload, recipe);
    works::lemma_belt_takes(h, w.unload, w.drop);
    works::lemma_pass(h, w.unload, w.drop, recipe);
}

/// A machine fed and emptied by belts along routes feeds the sink.
pub proof fn lemma_works_feed_sink(
    h: GridView,
    g1: GridView,
    g2: GridView,
    w: Works,
    recipe: Item,
    avoid1: Seq<(int, int)>,
    m1: Seq<Direction>,
    avoid2: Seq<(int, int)>,
    m2: Seq<Direction>,
)
    requires
        h.valid(),
        h.consistent(),
        m1.len() > 0,
        m2.len() > 0,
        w.apt(h),
        w.stands(h, recipe, m2[0]),
        h.loading_slots(w.site.0, w.site.1).contains(w.unload),
        route::is_best_route(g1, w.source, w.pickup, avoid1, m1),
        laid(h, w.source, m1),
        route::is_best_route(g2, w.drop, w.sink, avoid2, m2),
        laid(h, w.drop, m2),
    ensures
        delivery::feeds_a_sink(h),
{
    lemma_inbound(h, g1, w, recipe, m2[0], avoid1, m1);
    let next = stop(w.drop, m2, 1);
    lemma_next_stop(w.drop, m2, 0);
    assert(h.at(next.0, next.1).entity !is Empty && h.at(next.0, next.1).entity !is Inserter) by {
        assert(m2.take(m2.len() as int) =~= m2);
    }
    lemma_crafted(h, w, recipe, m2[0]);
    lemma_run_feeds_sink(h, g2, w.drop, w.sink, avoid2, m2, recipe);
}

} // verus!
