//! What holds of the ways to load and unload a machine.

use vstd::prelude::*;
use crate::factory_gen::canvas::Canvas;
use crate::factory_gen::chaos;
use crate::factory_gen::placing;
use crate::factory_gen::route;
use crate::factory_gen::works;
use crate::sim::laws::beside;
use crate::world::grid;
use crate::world::grid::GridView;
use crate::world::{Direction, Item};

verus! {

/// A tile that an inserter can stand on is one of those searched.
proof fn lemma_kept_face(g: GridView, site: (int, int), tiles: Seq<(int, int)>, i: int)
    requires
        0 <= i < tiles.len(),
        chaos::is_face(g, site, tiles[i]),
    ensures
        chaos::faces_among(g, site, tiles).contains(tiles[i]),
    decreases tiles.len(),
{
    let rest = chaos::faces_among(g, site, tiles.drop_last());
    let all = chaos::faces_among(g, site, tiles);
    if i == tiles.len() - 1 {
        assert(all[rest.len() as int] == tiles[i]);
    } else {
        assert(tiles.drop_last()[i] == tiles[i]);
        lemma_kept_face(g, site, tiles.drop_last(), i);
        assert(all[rest.index_of(tiles[i])] == tiles[i]);
    }
}

/// The faces of a machine are the open tiles on the board that share an edge with it and
/// that nothing stands on.
pub proof fn law_the_faces_of_a_machine(g: GridView, site: (int, int), f: (int, int))
    requires
        g.at(site.0, site.1).entity is Assembler,
    ensures
        chaos::faces(g, site).contains(f) <==> {
            &&& g.inside(f.0, f.1)
            &&& beside(site.0, site.1, 3, 3, f)
            &&& !g.blocked(f.0, f.1)
            &&& forall|ax: int, ay: int| !#[trigger] g.covers(ax, ay, f.0, f.1)
        },
{
    let ring = g.ring(site.0, site.1);
    let around = g.loading_slots(site.0, site.1);
    if chaos::faces(g, site).contains(f) {
        chaos::lemma_face(g, site, f);
        grid::lemma_anchor_of(g, f.0, f.1);
        chaos::lemma_faces_among(g, site, around, f);
        works::lemma_from_board(g, ring, f);
        let k = ring.index_of(f);
        assert(ring[k] == f);
    }
    if g.inside(f.0, f.1) && beside(site.0, site.1, 3, 3, f) && !g.blocked(f.0, f.1) && forall|
        ax: int,
        ay: int,
    |
        !#[trigger] g.covers(ax, ay, f.0, f.1) {
        grid::lemma_anchor_of(g, f.0, f.1);
        let (x, y) = site;
        let k: int = if f.1 == y - 1 && x <= f.0 < x + 3 {
            f.0 - x
        } else if f.0 == x + 3 {
            3 + (f.1 - y)
        } else if f.1 == y + 3 && x <= f.0 < x + 3 {
            6 + (f.0 - x)
        } else {
            9 + (f.1 - y)
        };
        assert(ring[k] == f);
        works::lemma_kept_on_board(g, ring, k);
        let i = around.index_of(f);
        assert(around[i] == f);
        lemma_kept_face(g, site, around, i);
    }
}

/// From a face one step inward leads into the machine, and the tile behind the face lies
/// one step the other way.
pub proof fn law_inward_leads_into_the_machine(g: GridView, site: (int, int), f: (int, int))
    requires
        g.at(site.0, site.1).entity is Assembler,
        beside(site.0, site.1, 3, 3, f),
    ensures
        ({
            let d = chaos::inward(g, site, f);
            let (x, y) = (f.0 + d.dx(), f.1 + d.dy());
            let b = chaos::behind(g, site, f);
            &&& d !is Nowhere
            &&& site.0 <= x <= site.0 + 2 && site.1 <= y <= site.1 + 2
            &&& b == (f.0 - d.dx(), f.1 - d.dy())
            &&& !(site.0 <= b.0 <= site.0 + 2 && site.1 <= b.1 <= site.1 + 2)
        }),
{
}

/// Of the pairs of faces that give a lesson the first one is that whose belts have the
/// shortest way from the source to the tile behind the loading face and from the tile
/// behind the unloading face to the sink; of equals, the one whose loading face is topmost
/// and then leftmost, and then the one whose unloading face is.
pub proof fn law_the_first_pair_has_the_shortest_way(
    g: GridView,
    canvas: Canvas,
    source: (int, int),
    sink: (int, int),
    site: (int, int),
    first: ((int, int), (int, int)),
    other: ((int, int), (int, int)),
)
    requires
        chaos::is_first_pair(g, canvas, source, sink, site, first),
        chaos::is_pair(g, site, other),
        chaos::pair_lesson(g, canvas, source, sink, site, other) is Some,
        other != first,
    ensures
        ({
            let far = |p: ((int, int), (int, int))|
                route::distance(source, chaos::behind(g, site, p.0)) + route::distance(
                    chaos::behind(g, site, p.1),
                    sink,
                );
            let (a, b) = (first, other);
            let (fl, fu, ol, ou) = (a.0, a.1, b.0, b.1);
            &&& far(a) <= far(b)
            &&& far(a) == far(b) ==> fl.1 <= ol.1
            &&& far(a) == far(b) && fl.1 == ol.1 ==> fl.0 <= ol.0
            &&& far(a) == far(b) && fl == ol ==> fu.1 <= ou.1
            &&& far(a) == far(b) && fl == ol && fu.1 == ou.1 ==> fu.0 < ou.0
        }),
{
    assert(!chaos::pair_before(g, source, sink, site, other, first));
}

/// A pair of faces gives a lesson only where there are free tiles behind both faces, where
/// the two ends, the two faces and the tiles behind them are six tiles, and where the belt
/// away from the machine does not start beside the source.
pub proof fn law_a_pair_needs_room(
    g: GridView,
    canvas: Canvas,
    source: (int, int),
    sink: (int, int),
    site: (int, int),
    p: ((int, int), (int, int)),
)
    requires
        (canvas.width as nat, canvas.height as nat) == (g.width, g.height),
        chaos::is_pair(g, site, p),
        chaos::pair_lesson(g, canvas, source, sink, site, p) is Some,
    ensures
        ({
            let (pickup, drop) = (chaos::behind(g, site, p.0), chaos::behind(g, site, p.1));
            &&& p.0 != p.1 && pickup != drop
            &&& pickup != source && pickup != sink && drop != source && drop != sink
            &&& pickup != p.0 && pickup != p.1 && drop != p.0 && drop != p.1
            &&& !g.blocked(pickup.0, pickup.1) && !g.blocked(drop.0, drop.1)
            &&& g.anchor_of(pickup.0, pickup.1) is None && g.anchor_of(drop.0, drop.1) is None
            &&& route::distance(source, drop) != 1
        }),
{
    let (pickup, drop) = (chaos::behind(g, site, p.0), chaos::behind(g, site, p.1));
    let all = seq![source, sink, p.0, p.1, pickup, drop];
    assert(all[0] == source && all[1] == sink && all[2] == p.0 && all[3] == p.1 && all[4] == pickup
        && all[5] == drop);
    route::laws::law_neighbours_are_one_step_away(canvas, source, drop);
}

/// Loading and unloading: the loading inserter faces into the machine and the belt behind
/// it faces the inserter; the unloading inserter faces away from the machine, as does the
/// belt behind it. Nothing else changes.
pub proof fn law_the_inserters_of_a_pair(
    g: GridView,
    site: (int, int),
    load: (int, int),
    unload: (int, int),
    x: int,
    y: int,
)
    requires
        g.valid(),
        g.at(site.0, site.1).entity is Assembler,
        beside(site.0, site.1, 3, 3, load),
        beside(site.0, site.1, 3, 3, unload),
        g.inside(load.0, load.1),
        g.inside(unload.0, unload.1),
        g.inside(chaos::behind(g, site, load).0, chaos::behind(g, site, load).1),
        g.inside(chaos::behind(g, site, unload).0, chaos::behind(g, site, unload).1),
        load != unload,
        chaos::behind(g, site, load) != chaos::behind(g, site, unload),
        chaos::behind(g, site, load) != unload,
        chaos::behind(g, site, unload) != load,
        g.inside(x, y),
    ensures
        ({
            let h = chaos::fitted(g, site, load, unload);
            let (pickup, drop) = (chaos::behind(g, site, load), chaos::behind(g, site, unload));
            let c = h.at(x, y);
            let (tx, ty) = (x + c.direction.dx(), y + c.direction.dy());
            if (x, y) == load {
                &&& c.entity is Inserter
                &&& site.0 <= tx <= site.0 + 2 && site.1 <= ty <= site.1 + 2
            } else if (x, y) == unload {
                c.entity is Inserter && (tx, ty) == drop
            } else if (x, y) == pickup {
                c.entity is TransportBelt && (tx, ty) == load
            } else if (x, y) == drop {
                &&& c.entity is TransportBelt
                &&& c.direction == h.at(unload.0, unload.1).direction
            } else {
                c == g.at(x, y)
            }
        }),
{
    broadcast use {grid::lemma_slot, grid::lemma_put_at};

    law_inward_leads_into_the_machine(g, site, load);
    law_inward_leads_into_the_machine(g, site, unload);
}

/// The task shows the source of the one ingredient and the sink of the product, and nothing
/// else but the board.
pub proof fn law_the_task_shows_its_ports(
    board: GridView,
    source: (int, int),
    sink: (int, int),
    recipe: Item,
    x: int,
    y: int,
)
    requires
        board.valid(),
        board.inside(source.0, source.1),
        board.inside(sink.0, sink.1),
        source != sink,
        recipe.is_crafted(),
        board.inside(x, y),
    ensures
        ({
            let task = chaos::posed(board, source, sink, recipe);
            let c = task.at(x, y);
            &&& task.obstacle == board.obstacle
            &&& if (x, y) == source {
                c.entity is Source && c.item == recipe.inputs()[0].item
            } else if (x, y) == sink {
                c.entity is Sink && c.item == recipe
            } else {
                c == board.at(x, y)
            }
        }),
{
    broadcast use {grid::lemma_slot, grid::lemma_put_at};

}

/// There is no answer where the machine would touch the source or the sink.
pub proof fn law_the_machine_keeps_off_its_ports(
    board: GridView,
    canvas: Canvas,
    source: (int, int),
    sink: (int, int),
    recipe: Item,
    site: (int, int),
)
    requires
        board.valid(),
        board.inside(source.0, source.1),
        board.inside(sink.0, sink.1),
        board.inside(site.0, site.1),
        route::best_site(chaos::posed(board, source, sink, recipe), source, sink) == Some(site),
        chaos::chaos_answer(board, canvas, source, sink, recipe) is Some,
    ensures
        !beside(site.0, site.1, 3, 3, source),
        !beside(site.0, site.1, 3, 3, sink),
{
    broadcast use {grid::lemma_slot, grid::lemma_put_at};

    let task = chaos::posed(board, source, sink, recipe);
    let g = task.put(site.0, site.1, placing::machine_cell(recipe));
    assert(g.at(site.0, site.1) == placing::machine_cell(recipe));
    if beside(site.0, site.1, 3, 3, source) {
        lemma_beside_is_around(g, site, source);
    }
    if beside(site.0, site.1, 3, 3, sink) {
        lemma_beside_is_around(g, site, sink);
    }
}

/// A tile on the board beside a machine is one of those around it.
proof fn lemma_beside_is_around(g: GridView, site: (int, int), f: (int, int))
    requires
        g.at(site.0, site.1).entity is Assembler,
        g.inside(f.0, f.1),
        beside(site.0, site.1, 3, 3, f),
    ensures
        g.loading_slots(site.0, site.1).contains(f),
{
    let ring = g.ring(site.0, site.1);
    let (x, y) = site;
    let k: int = if f.1 == y - 1 && x <= f.0 < x + 3 {
        f.0 - x
    } else if f.0 == x + 3 {
        3 + (f.1 - y)
    } else if f.1 == y + 3 && x <= f.0 < x + 3 {
        6 + (f.0 - x)
    } else {
        9 + (f.1 - y)
    };
    assert(ring[k] == f);
    works::lemma_kept_on_board(g, ring, k);
}

/// What is left of a list without two tiles.
proof fn lemma_without(tiles: Seq<(int, int)>, a: (int, int), b: (int, int), t: (int, int))
    requires
        tiles.contains(t),
        t != a,
        t != b,
    ensures
        chaos::without(tiles, a, b).contains(t),
    decreases tiles.len(),
{
    let rest = chaos::without(tiles.drop_last(), a, b);
    let all = chaos::without(tiles, a, b);
    let k = tiles.index_of(t);
    if k == tiles.len() - 1 {
        assert(all[rest.len() as int] == t);
    } else {
        assert(tiles.drop_last()[k] == t);
        lemma_without(tiles.drop_last(), a, b, t);
        assert(all[rest.index_of(t)] == t);
    }
}

/// Whether a tile is a face of the machine other than the two of a pair.
pub open spec fn other_face(
    g: GridView,
    site: (int, int),
    p: ((int, int), (int, int)),
    t: (int, int),
) -> bool {
    chaos::faces(g, site).contains(t) && t != p.0 && t != p.1
}

/// Whether belts lead along a route in a factory, from tile to tile between its ends, and
/// keep off the other faces of a machine and, where that is asked for, off the tiles beside
/// another one.
pub open spec fn belts_lead(
    h: GridView,
    from: (int, int),
    to: (int, int),
    m: Seq<Direction>,
    g: GridView,
    site: (int, int),
    p: ((int, int), (int, int)),
    shun: Option<(int, int)>,
) -> bool {
    &&& route::walk(from, m) == to
    &&& forall|k: int|
        0 < k < m.len() ==> {
            let t = #[trigger] route::walk(from, m.take(k));
            &&& h.at(t.0, t.1).entity is TransportBelt
            &&& route::walk(from, m.take(k + 1)) == (
                t.0 + h.at(t.0, t.1).direction.dx(),
                t.1 + h.at(t.0, t.1).direction.dy(),
            )
            &&& !other_face(g, site, p, t)
            &&& shun matches Some(a) ==> route::distance(a, t) != 1
        }
}

/// In the lesson that a pair of faces gives, belts lead from the source to the tile behind
/// the loading face and from the tile behind the unloading face to the sink; none stands on
/// another face of the machine, and those to the sink keep off the tiles beside the source.
pub proof fn law_the_belts_of_a_pair_keep_off_the_other_faces(
    g: GridView,
    canvas: Canvas,
    source: (int, int),
    sink: (int, int),
    site: (int, int),
    p: ((int, int), (int, int)),
)
    requires
        g.valid(),
        (canvas.width as nat, canvas.height as nat) == (g.width, g.height),
        g.at(site.0, site.1).entity is Assembler,
        chaos::is_pair(g, site, p),
        chaos::pair_lesson(g, canvas, source, sink, site, p) is Some,
    ensures
        ({
            let s = chaos::pair_lesson(g, canvas, source, sink, site, p)->0;
            let (pickup, drop) = (chaos::behind(g, site, p.0), chaos::behind(g, site, p.1));
            &&& exists|m: Seq<Direction>| #[trigger]
                belts_lead(s.solution, source, pickup, m, g, site, p, None)
            &&& exists|m: Seq<Direction>| #[trigger]
                belts_lead(s.solution, drop, sink, m, g, site, p, Some(source))
        }),
{
    broadcast use {grid::lemma_slot, grid::lemma_put_at};

    let s = chaos::pair_lesson(g, canvas, source, sink, site, p)->0;
    let (load, unload) = p;
    let (pickup, drop) = (chaos::behind(g, site, load), chaos::behind(g, site, unload));
    let clear = chaos::without(chaos::faces(g, site), load, unload);
    let c1 = chaos::fitted(g, site, load, unload);
    chaos::lemma_face(g, site, load);
    chaos::lemma_face(g, site, unload);
    law_a_pair_needs_room(g, canvas, source, sink, site, p);
    assert(c1.valid() && c1.width == g.width && c1.height == g.height);
    assert(c1.at(drop.0, drop.1).entity is TransportBelt);
    route::laws::law_the_route_taken_is_the_best(c1, source, pickup, clear);
    let m1 = route::best_route(c1, source, pickup, clear)->0;
    let n1 = (m1.len() - 1) as nat;
    let c2 = route::belted(c1, source, m1, n1);
    let off = clear + route::neighbourhood(canvas, source);
    route::laws::law_the_route_taken_is_the_best(c2, drop, sink, off);
    let m2 = route::best_route(c2, drop, sink, off)->0;
    let n2 = (m2.len() - 1) as nat;
    let c3 = route::belted(c2, drop, m2, n2);
    let h = s.solution;
    route::laws::law_belts_face_along_the_route(
        c1,
        source,
        pickup,
        clear,
        m1,
        n1,
        drop.0,
        drop.1,
    );
    assert(c2.valid());
    route::laws::law_belts_face_along_the_route(c2, drop, sink, off, m2, n2, drop.0, drop.1);
    assert(c3.valid());
    assert forall|k: int| 0 < k < m1.len() implies {
        let t = #[trigger] route::walk(source, m1.take(k));
        &&& h.at(t.0, t.1).entity is TransportBelt
        &&& route::walk(source, m1.take(k + 1)) == (
            t.0 + h.at(t.0, t.1).direction.dx(),
            t.1 + h.at(t.0, t.1).direction.dy(),
        )
        &&& !other_face(g, site, p, t)
    } by {
        let t = route::walk(source, m1.take(k));
        route::law_best_route_is_free(c1, source, pickup, clear, m1, k);
        route::laws::law_belts_face_along_the_route(c1, source, pickup, clear, m1, n1, t.0, t.1);
        if other_face(g, site, p, t) {
            lemma_without(chaos::faces(g, site), load, unload, t);
        }
        assert(t != drop);
        assert forall|j: int| 1 <= j <= n2 implies #[trigger] route::walk(drop, m2.take(j)) != t by {
            route::law_best_route_is_free(c2, drop, sink, off, m2, j);
        }
        route::laws::law_belts_face_along_the_route(c2, drop, sink, off, m2, n2, t.0, t.1);
    }
    assert(belts_lead(h, source, pickup, m1, g, site, p, None));
    assert forall|k: int| 0 < k < m2.len() implies {
        let t = #[trigger] route::walk(drop, m2.take(k));
        &&& h.at(t.0, t.1).entity is TransportBelt
        &&& route::walk(drop, m2.take(k + 1)) == (
            t.0 + h.at(t.0, t.1).direction.dx(),
            t.1 + h.at(t.0, t.1).direction.dy(),
        )
        &&& !other_face(g, site, p, t)
        &&& route::distance(source, t) != 1
    } by {
        let t = route::walk(drop, m2.take(k));
        route::law_best_route_is_free(c2, drop, sink, off, m2, k);
        route::laws::law_belts_face_along_the_route(c2, drop, sink, off, m2, n2, t.0, t.1);
        if other_face(g, site, p, t) {
            lemma_without(chaos::faces(g, site), load, unload, t);
            assert(off[clear.index_of(t)] == t);
        }
        route::laws::law_neighbours_are_one_step_away(canvas, source, t);
        if route::neighbourhood(canvas, source).contains(t) {
            let j = route::neighbourhood(canvas, source).index_of(t);
            assert(off[clear.len() + j] == t);
        }
    }
    assert(belts_lead(h, drop, sink, m2, g, site, p, Some(source)));
}

/// The lesson of a pair of faces may lose its inserters and its belts; its source, its sink
/// and its machine stay.
pub proof fn law_a_machine_task_may_lose_its_inserters_and_belts(
    g: GridView,
    canvas: Canvas,
    source: (int, int),
    sink: (int, int),
    site: (int, int),
    p: ((int, int), (int, int)),
    x: int,
    y: int,
)
    requires
        g.valid(),
        g.inside(source.0, source.1),
        g.inside(sink.0, sink.1),
        g.inside(site.0, site.1),
        g.at(source.0, source.1).entity is Source,
        g.at(sink.0, sink.1).entity is Sink,
        g.at(site.0, site.1).entity is Assembler,
        forall|a: int, b: int| #[trigger]
            g.inside(a, b) && (a, b) != source && (a, b) != sink && (a, b) != site ==> g.at(
                a,
                b,
            ).entity is Empty,
        (canvas.width as nat, canvas.height as nat) == (g.width, g.height),
        chaos::is_pair(g, site, p),
        chaos::pair_lesson(g, canvas, source, sink, site, p) is Some,
        g.inside(x, y),
    ensures
        ({
            let s = chaos::pair_lesson(g, canvas, source, sink, site, p)->0;
            let e = s.solution.at(x, y).entity;
            let i = y * canvas.width + x;
            &&& s.kind is AssemblerChaos
            &&& s.removable.contains(i) <==> e is Inserter || e is TransportBelt
            &&& s.protected.contains(i) <==> e is Source || e is Sink || e is Assembler
        }),
{
    broadcast use {grid::lemma_slot, grid::lemma_put_at};

    let s = chaos::pair_lesson(g, canvas, source, sink, site, p)->0;
    let (load, unload) = p;
    let (pickup, drop) = (chaos::behind(g, site, load), chaos::behind(g, site, unload));
    let clear = chaos::without(chaos::faces(g, site), load, unload);
    let c1 = chaos::fitted(g, site, load, unload);
    chaos::lemma_face(g, site, load);
    chaos::lemma_face(g, site, unload);
    law_a_pair_needs_room(g, canvas, source, sink, site, p);
    assert(c1.valid() && c1.width == g.width && c1.height == g.height);
    route::laws::law_the_route_taken_is_the_best(c1, source, pickup, clear);
    let m1 = route::best_route(c1, source, pickup, clear)->0;
    let n1 = (m1.len() - 1) as nat;
    let c2 = route::belted(c1, source, m1, n1);
    let off = clear + route::neighbourhood(canvas, source);
    route::laws::law_the_route_taken_is_the_best(c2, drop, sink, off);
    let m2 = route::best_route(c2, drop, sink, off)->0;
    let n2 = (m2.len() - 1) as nat;
    route::laws::law_belts_face_along_the_route(c1, source, pickup, clear, m1, n1, x, y);
    route::laws::law_belts_face_along_the_route(c2, drop, sink, off, m2, n2, x, y);
    route::laws::law_the_slots_of_a_route(c1, source, pickup, clear, m1, x, y);
    route::laws::law_the_slots_of_a_route(c2, drop, sink, off, m2, x, y);
    let t = (x, y);
    let i = g.slot(x, y);
    let four = seq![
        g.slot(load.0, load.1),
        g.slot(unload.0, unload.1),
        g.slot(pickup.0, pickup.1),
        g.slot(drop.0, drop.1),
    ];
    let b1 = route::between(c1, source, m1);
    let b2 = route::between(c2, drop, m2);
    assert(s.removable == four + b1 + b2);
    lemma_three_lists(four, b1, b2, i);
    lemma_four_slots(g, four, load, unload, pickup, drop, t);
    let kept = s.protected;
    assert(kept.len() == 3);
    lemma_three_slots(g, kept, source, sink, site, t);
    let on1 = exists|k: int|
        1 <= k <= m1.len() - 1 && #[trigger] route::walk(source, m1.take(k)) == (x, y);
    let on2 = exists|k: int|
        1 <= k <= m2.len() - 1 && #[trigger] route::walk(drop, m2.take(k)) == (x, y);
    if on1 {
        let k = choose|k: int|
            1 <= k <= m1.len() - 1 && #[trigger] route::walk(source, m1.take(k)) == (x, y);
        route::law_best_route_is_free(c1, source, pickup, clear, m1, k);
    }
    if on2 {
        let k = choose|k: int|
            1 <= k <= m2.len() - 1 && #[trigger] route::walk(drop, m2.take(k)) == (x, y);
        route::law_best_route_is_free(c2, drop, sink, off, m2, k);
    }
}

proof fn lemma_three_lists(a: Seq<int>, b: Seq<int>, c: Seq<int>, i: int)
    ensures
        (a + b + c).contains(i) <==> a.contains(i) || b.contains(i) || c.contains(i),
{
    let all = a + b + c;
    if a.contains(i) {
        assert(all[a.index_of(i)] == i);
    }
    if b.contains(i) {
        assert(all[a.len() + b.index_of(i)] == i);
    }
    if c.contains(i) {
        assert(all[a.len() + b.len() + c.index_of(i)] == i);
    }
    if all.contains(i) {
        let k = all.index_of(i);
        if k < a.len() {
            assert(a[k] == i);
        } else if k < a.len() + b.len() {
            assert(b[k - a.len()] == i);
        } else {
            assert(c[k - a.len() - b.len()] == i);
        }
    }
}

proof fn lemma_four_slots(
    g: GridView,
    slots: Seq<int>,
    a: (int, int),
    b: (int, int),
    c: (int, int),
    d: (int, int),
    t: (int, int),
)
    requires
        g.valid(),
        g.inside(a.0, a.1) && g.inside(b.0, b.1) && g.inside(c.0, c.1) && g.inside(d.0, d.1),
        g.inside(t.0, t.1),
        slots == seq![g.slot(a.0, a.1), g.slot(b.0, b.1), g.slot(c.0, c.1), g.slot(d.0, d.1)],
    ensures
        slots.contains(g.slot(t.0, t.1)) <==> t == a || t == b || t == c || t == d,
{
    let i = g.slot(t.0, t.1);
    assert(slots[0] == g.slot(a.0, a.1) && slots[1] == g.slot(b.0, b.1) && slots[2] == g.slot(
        c.0,
        c.1,
    ) && slots[3] == g.slot(d.0, d.1));
    if slots.contains(i) {
        let k = slots.index_of(i);
        let u = if k == 0 {
            a
        } else if k == 1 {
            b
        } else if k == 2 {
            c
        } else {
            d
        };
        grid::lemma_slot_injective(g, t.0, t.1, u.0, u.1);
    }
}

proof fn lemma_three_slots(
    g: GridView,
    slots: Seq<int>,
    a: (int, int),
    b: (int, int),
    c: (int, int),
    t: (int, int),
)
    requires
        g.valid(),
        g.inside(a.0, a.1) && g.inside(b.0, b.1) && g.inside(c.0, c.1),
        g.inside(t.0, t.1),
        slots == seq![g.slot(a.0, a.1), g.slot(b.0, b.1), g.slot(c.0, c.1)],
    ensures
        slots.contains(g.slot(t.0, t.1)) <==> t == a || t == b || t == c,
{
    let i = g.slot(t.0, t.1);
    assert(slots[0] == g.slot(a.0, a.1) && slots[1] == g.slot(b.0, b.1) && slots[2] == g.slot(
        c.0,
        c.1,
    ));
    if slots.contains(i) {
        let k = slots.index_of(i);
        let u = if k == 0 {
            a
        } else if k == 1 {
            b
        } else {
            c
        };
        grid::lemma_slot_injective(g, t.0, t.1, u.0, u.1);
    }
}

} // verus!
