//! Who hands what to whom.

use vstd::prelude::*;
use crate::factory_gen::works;
use crate::sim;
use crate::world::grid::GridView;
use crate::world::{Direction, Entity, Item};

verus! {

/// A belt hands on to every inserter beside it that faces away from it, on whichever side
/// that stands.
pub proof fn law_a_belt_feeds_the_inserters_that_take_from_it(
    g: GridView,
    x: int,
    y: int,
    d: Direction,
)
    requires
        g.at(x, y).entity is TransportBelt,
        d !is Nowhere,
        g.inside(x + d.dx(), y + d.dy()),
        g.at(x + d.dx(), y + d.dy()).entity is Inserter,
        g.at(x + d.dx(), y + d.dy()).direction == d,
    ensures
        sim::targets(g, x, y).contains((x + d.dx(), y + d.dy())),
{
    let t = (x + d.dx(), y + d.dy());
    let n = sim::tap(g, x, y, Direction::North);
    let e = sim::tap(g, x, y, Direction::East);
    let s = sim::tap(g, x, y, Direction::South);
    let w = sim::tap(g, x, y, Direction::West);
    let ahead = sim::ahead(g, x, y, g.at(x, y).direction);
    let all = sim::offers(g, x, y);
    assert(all == ahead + (n + e + s + w));
    assert(sim::tap(g, x, y, d) == seq![t]);
    let i: int = match d {
        Direction::North => 0,
        Direction::East => n.len() as int,
        Direction::South => (n + e).len() as int,
        _ => (n + e + s).len() as int,
    };
    assert((n + e + s + w)[i] == t);
    assert(all[ahead.len() + i] == t);
    works::lemma_entity_on(g, (x, y), all, ahead.len() + i, t);
}

/// A belt, an inserter and the exit of a tunnel hand on to whatever stands on the tile
/// they face.
pub proof fn law_what_is_ahead_is_fed(g: GridView, x: int, y: int, q: (int, int))
    requires
        ({
            let cell = g.at(x, y);
            ||| cell.entity is TransportBelt
            ||| cell.entity is Inserter
            ||| cell.entity is UndergroundBelt && cell.misc is UndergroundUp
        }),
        g.inside(x + g.at(x, y).direction.dx(), y + g.at(x, y).direction.dy()),
        g.anchor_of(x + g.at(x, y).direction.dx(), y + g.at(x, y).direction.dy()) == Some(q),
        q != (x, y),
    ensures
        sim::targets(g, x, y).contains(q),
{
    works::lemma_entity_on(g, (x, y), sim::offers(g, x, y), 0, q);
}

/// A belt hands on to nothing but what stands ahead of it and the inserters beside it that
/// face away from it.
pub proof fn law_a_belt_feeds_nothing_else(g: GridView, x: int, y: int, q: (int, int))
    requires
        g.at(x, y).entity is TransportBelt,
        sim::targets(g, x, y).contains(q),
    ensures
        ({
            let f = g.at(x, y).direction;
            ||| g.inside(x + f.dx(), y + f.dy()) && g.anchor_of(x + f.dx(), y + f.dy()) == Some(q)
            ||| exists|d: Direction|
                q == (x + (#[trigger] d.dx()), y + d.dy()) && d !is Nowhere && g.at(
                    q.0,
                    q.1,
                ).entity is Inserter && g.at(q.0, q.1).direction == d
        }),
{
    let n = sim::tap(g, x, y, Direction::North);
    let e = sim::tap(g, x, y, Direction::East);
    let s = sim::tap(g, x, y, Direction::South);
    let w = sim::tap(g, x, y, Direction::West);
    let ahead = sim::ahead(g, x, y, g.at(x, y).direction);
    let all = sim::offers(g, x, y);
    assert(all == ahead + (n + e + s + w));
    works::lemma_stands_on(g, (x, y), all, q);
    let i = choose|i: int|
        0 <= i < all.len() && g.anchor_of((#[trigger] all[i]).0, all[i].1) == Some(q);
    if i >= ahead.len() {
        let t = all[i];
        let d = g.at(t.0, t.1).direction;
        assert(q == t);
        assert(q == (x + d.dx(), y + d.dy()));
    }
}

/// An inserter and the exit of a tunnel hand on to what stands on the tile they face, and
/// to nothing else.
pub proof fn law_an_inserter_feeds_one_tile(g: GridView, x: int, y: int, q: (int, int))
    requires
        ({
            let cell = g.at(x, y);
            cell.entity is Inserter || cell.entity is UndergroundBelt && cell.misc is UndergroundUp
        }),
        sim::targets(g, x, y).contains(q),
    ensures
        ({
            let f = g.at(x, y).direction;
            g.inside(x + f.dx(), y + f.dy()) && g.anchor_of(x + f.dx(), y + f.dy()) == Some(q)
        }),
        q != (x, y),
{
    let all = sim::offers(g, x, y);
    works::lemma_stands_on(g, (x, y), all, q);
    works::lemma_not_itself(g, (x, y), all, q);
}

/// A splitter hands on to what stands in front of either of its two tiles, and to nothing
/// else.
pub proof fn law_a_splitter_feeds_both_lanes(g: GridView, x: int, y: int, q: (int, int))
    requires
        g.at(x, y).entity is Splitter,
        g.at(x, y).direction !is Nowhere,
    ensures
        ({
            let f = g.at(x, y).direction;
            let one = (x + f.dx(), y + f.dy());
            let other = if f.dx() == 0 {
                (x + 1 + f.dx(), y + f.dy())
            } else {
                (x + f.dx(), y + 1 + f.dy())
            };
            sim::targets(g, x, y).contains(q) <==> q != (x, y) && (g.inside(one.0, one.1)
                && g.anchor_of(one.0, one.1) == Some(q) || g.inside(other.0, other.1)
                && g.anchor_of(other.0, other.1) == Some(q))
        }),
{
    let f = g.at(x, y).direction;
    let tiles = g.footprint_tiles(x, y);
    let second = if f.dx() == 0 {
        (x + 1, y)
    } else {
        (x, y + 1)
    };
    assert(0int % 2 == 0 && 0int / 2 == 0 && 1int % 2 == 1 && 1int / 2 == 0);
    assert(0int % 1 == 0 && 0int / 1 == 0 && 1int % 1 == 0 && 1int / 1 == 1);
    match f {
        Direction::North | Direction::South => {
            assert(g.extent_at(x, y) == (2int, 1int));
        },
        _ => {
            assert(g.extent_at(x, y) == (1int, 2int));
        },
    }
    assert(tiles.len() == 2);
    assert(tiles[0] == (x, y) && tiles[1] == second);
    assert(tiles =~= seq![(x, y), second]);
    reveal_with_fuel(sim::ahead_of_all, 3);
    let a = sim::ahead(g, x, y, f);
    let b = sim::ahead(g, second.0, second.1, f);
    let all = sim::offers(g, x, y);
    assert(all =~= a + b);
    if sim::targets(g, x, y).contains(q) {
        works::lemma_stands_on(g, (x, y), all, q);
        works::lemma_not_itself(g, (x, y), all, q);
        let i = choose|i: int|
            0 <= i < all.len() && g.anchor_of((#[trigger] all[i]).0, all[i].1) == Some(q);
        assert(all[i] == (if i < a.len() {
            a[i]
        } else {
            b[i - a.len()]
        }));
    }
    let one = (x + f.dx(), y + f.dy());
    let other = (second.0 + f.dx(), second.1 + f.dy());
    if q != (x, y) && g.inside(one.0, one.1) && g.anchor_of(one.0, one.1) == Some(q) {
        assert(all[0] == one);
        works::lemma_entity_on(g, (x, y), all, 0, q);
    }
    if q != (x, y) && g.inside(other.0, other.1) && g.anchor_of(other.0, other.1) == Some(q) {
        assert(all[a.len() as int] == other);
        works::lemma_entity_on(g, (x, y), all, a.len() as int, q);
    }
}

/// Whether a tile shares an edge with the rectangle of `w` by `h` tiles at `(x, y)`.
pub open spec fn beside(x: int, y: int, w: int, h: int, t: (int, int)) -> bool {
    ||| x <= t.0 < x + w && (t.1 == y - 1 || t.1 == y + h)
    ||| y <= t.1 < y + h && (t.0 == x - 1 || t.0 == x + w)
}

/// The width and the height of a source, which takes one tile, and of a machine, which
/// takes nine.
pub open spec fn side_of(e: Entity) -> int {
    if e is Source {
        1
    } else {
        3
    }
}

/// A source and a machine hand on to whatever stands on a tile that shares an edge with
/// them.
pub proof fn law_sources_and_machines_feed_all_around(
    g: GridView,
    x: int,
    y: int,
    t: (int, int),
    q: (int, int),
)
    requires
        g.at(x, y).entity is Source || g.at(x, y).entity is Assembler,
        beside(x, y, side_of(g.at(x, y).entity), side_of(g.at(x, y).entity), t),
        g.inside(t.0, t.1),
        g.anchor_of(t.0, t.1) == Some(q),
        q != (x, y),
    ensures
        sim::targets(g, x, y).contains(q),
{
    let side = side_of(g.at(x, y).entity);
    let ring = g.ring(x, y);
    let k: int = if t.1 == y - 1 && x <= t.0 < x + side {
        t.0 - x
    } else if t.0 == x + side {
        side + (t.1 - y)
    } else if t.1 == y + side && x <= t.0 < x + side {
        2 * side + (t.0 - x)
    } else {
        3 * side + (t.1 - y)
    };
    assert(ring[k] == t);
    works::lemma_offers_around(g, (x, y), k, q);
}

/// A source and a machine hand on to nothing but what stands on a tile that shares an edge
/// with them.
pub proof fn law_sources_and_machines_feed_nothing_else(
    g: GridView,
    x: int,
    y: int,
    q: (int, int),
)
    requires
        g.at(x, y).entity is Source || g.at(x, y).entity is Assembler,
        sim::targets(g, x, y).contains(q),
    ensures
        q != (x, y),
        exists|t: (int, int)|
            #![trigger g.anchor_of(t.0, t.1)]
            beside(x, y, side_of(g.at(x, y).entity), side_of(g.at(x, y).entity), t) && g.inside(
                t.0,
                t.1,
            ) && g.anchor_of(t.0, t.1) == Some(q),
{
    let side = side_of(g.at(x, y).entity);
    let ring = g.ring(x, y);
    let all = sim::offers(g, x, y);
    assert(all == g.on_board(ring));
    works::lemma_stands_on(g, (x, y), all, q);
    works::lemma_not_itself(g, (x, y), all, q);
    let i = choose|i: int|
        0 <= i < all.len() && g.anchor_of((#[trigger] all[i]).0, all[i].1) == Some(q);
    let t = all[i];
    works::lemma_from_board(g, ring, t);
    let k = ring.index_of(t);
    assert(ring[k] == t);
    sim::lemma_on_board_inside(g, ring);
    assert(beside(x, y, side, side, t));
    assert(g.inside(t.0, t.1));
}

/// Whether the exit of a tunnel that faces `d` stands `n` tiles from `(x, y)`.
pub open spec fn exit_at(g: GridView, x: int, y: int, d: Direction, n: int) -> bool {
    let (tx, ty) = (x + d.dx() * n, y + d.dy() * n);
    &&& g.inside(tx, ty)
    &&& g.at(tx, ty).entity is UndergroundBelt
    &&& g.at(tx, ty).misc is UndergroundUp
    &&& g.at(tx, ty).direction == d
}

/// `n` steps lead `n` tiles along the direction.
proof fn lemma_steps(d: Direction, n: int)
    ensures
        d.dx() * n == (match d {
            Direction::East => n,
            Direction::West => -n,
            _ => 0,
        }),
        d.dy() * n == (match d {
            Direction::South => n,
            Direction::North => -n,
            _ => 0,
        }),
{
    assert(0 * n == 0 && 1 * n == n && (-1) * n == -n) by (nonlinear_arith);
}

/// The search for an exit finds the nearest one, if it is near enough.
proof fn lemma_tunnel(g: GridView, x: int, y: int, d: Direction, step: int)
    requires
        g.inside(x, y),
        d !is Nowhere,
        1 <= step,
    ensures
        sim::tunnel_exit(g, x, y, d, step).len() <= 1,
        forall|n: int|
            #![trigger exit_at(g, x, y, d, n)]
            step <= n <= 5 && exit_at(g, x, y, d, n) && (forall|m: int|
                step <= m < n ==> !#[trigger] exit_at(g, x, y, d, m)) ==> sim::tunnel_exit(
                g,
                x,
                y,
                d,
                step,
            ) == seq![(x + d.dx() * n, y + d.dy() * n)],
        sim::tunnel_exit(g, x, y, d, step).len() == 1 ==> exists|n: int|
            step <= n <= 5 && #[trigger] exit_at(g, x, y, d, n) && (forall|m: int|
                step <= m < n ==> !#[trigger] exit_at(g, x, y, d, m)) && sim::tunnel_exit(
                g,
                x,
                y,
                d,
                step,
            ) == seq![(x + d.dx() * n, y + d.dy() * n)],
    decreases 6 - step,
{
    if step <= 5 {
        lemma_tunnel(g, x, y, d, step + 1);
        if exit_at(g, x, y, d, step) {
        } else if !g.inside(x + d.dx() * step, y + d.dy() * step) {
            assert forall|n: int| step <= n implies !#[trigger] exit_at(g, x, y, d, n) by {
                lemma_steps(d, n);
                lemma_steps(d, step);
            }
        } else {
            assert(sim::tunnel_exit(g, x, y, d, step) == sim::tunnel_exit(g, x, y, d, step + 1));
            if sim::tunnel_exit(g, x, y, d, step).len() == 1 {
                let n = choose|n: int|
                    step + 1 <= n <= 5 && #[trigger] exit_at(g, x, y, d, n) && (forall|m: int|
                        step + 1 <= m < n ==> !#[trigger] exit_at(g, x, y, d, m))
                        && sim::tunnel_exit(g, x, y, d, step + 1) == seq![
                        (x + d.dx() * n, y + d.dy() * n),
                    ];
                assert(exit_at(g, x, y, d, n));
            }
        }
    }
}

/// The entrance of a tunnel hands on to the nearest exit that faces the same way and is at
/// most five tiles away, and to nothing else.
pub proof fn law_a_tunnel_leads_to_its_nearest_exit(g: GridView, x: int, y: int, q: (int, int))
    requires
        g.inside(x, y),
        g.at(x, y).entity is UndergroundBelt,
        g.at(x, y).misc !is UndergroundUp,
        g.at(x, y).direction !is Nowhere,
    ensures
        sim::targets(g, x, y).contains(q) <==> exists|n: int|
            1 <= n <= 5 && #[trigger] exit_at(g, x, y, g.at(x, y).direction, n) && (forall|m: int|
                1 <= m < n ==> !#[trigger] exit_at(g, x, y, g.at(x, y).direction, m)) && q == (
                x + g.at(x, y).direction.dx() * n,
                y + g.at(x, y).direction.dy() * n,
            ),
{
    let d = g.at(x, y).direction;
    let all = sim::offers(g, x, y);
    lemma_tunnel(g, x, y, d, 1);
    assert(all == sim::tunnel_exit(g, x, y, d, 1));
    if sim::targets(g, x, y).contains(q) {
        works::lemma_stands_on(g, (x, y), all, q);
        let n = choose|n: int|
            1 <= n <= 5 && #[trigger] exit_at(g, x, y, d, n) && (forall|m: int|
                1 <= m < n ==> !#[trigger] exit_at(g, x, y, d, m)) && all == seq![
                (x + d.dx() * n, y + d.dy() * n),
            ];
        assert(exit_at(g, x, y, d, n));
        let i = choose|i: int|
            0 <= i < all.len() && g.anchor_of((#[trigger] all[i]).0, all[i].1) == Some(q);
        assert(all[i] == q);
    }
    if exists|n: int|
        1 <= n <= 5 && #[trigger] exit_at(g, x, y, d, n) && (forall|m: int|
            1 <= m < n ==> !#[trigger] exit_at(g, x, y, d, m)) && q == (
            x + d.dx() * n,
            y + d.dy() * n,
        ) {
        let n = choose|n: int|
            1 <= n <= 5 && #[trigger] exit_at(g, x, y, d, n) && (forall|m: int|
                1 <= m < n ==> !#[trigger] exit_at(g, x, y, d, m)) && q == (
                x + d.dx() * n,
                y + d.dy() * n,
            );
        lemma_steps(d, n);
        assert(all == seq![q]);
        assert(q != (x, y));
        works::lemma_entity_on(g, (x, y), all, 0, q);
    }
}

/// Sinks and empty tiles hand on nothing.
pub proof fn law_sinks_feed_nothing(g: GridView, x: int, y: int)
    requires
        g.at(x, y).entity is Sink || g.at(x, y).entity is Empty,
    ensures
        sim::targets(g, x, y).len() == 0,
{
}

/// What an entity hands on: a source what it gives, a conveyor what reached it, and a
/// machine its product once everything that one craft consumes has reached it.
pub proof fn law_what_is_handed_on(
    g: GridView,
    arrived: Set<(int, int, Item)>,
    x: int,
    y: int,
    item: Item,
)
    ensures
        g.at(x, y).entity is Source ==> (sim::hands_on(g, arrived, x, y, item) <==> item == g.at(
            x,
            y,
        ).item),
        g.at(x, y).entity is TransportBelt || g.at(x, y).entity is UndergroundBelt || g.at(
            x,
            y,
        ).entity is Splitter || g.at(x, y).entity is Inserter ==> (sim::hands_on(
            g,
            arrived,
            x,
            y,
            item,
        ) <==> arrived.contains((x, y, item))),
        g.at(x, y).entity is Assembler ==> (sim::hands_on(g, arrived, x, y, item) <==> item
            == g.at(x, y).item && match item {
            Item::IronGear => arrived.contains((x, y, Item::IronPlate)),
            Item::CopperCable => arrived.contains((x, y, Item::CopperPlate)),
            Item::GreenCircuit => arrived.contains((x, y, Item::IronPlate)) && arrived.contains(
                (x, y, Item::CopperCable),
            ),
            _ => false,
        }),
        g.at(x, y).entity is Sink || g.at(x, y).entity is Empty ==> !sim::hands_on(
            g,
            arrived,
            x,
            y,
            item,
        ),
{
    let made = g.at(x, y).item;
    match made {
        Item::IronGear => assert(made.inputs()[0].item is IronPlate),
        Item::CopperCable => assert(made.inputs()[0].item is CopperPlate),
        Item::GreenCircuit => {
            assert(made.inputs()[0].item is IronPlate);
            assert(made.inputs()[1].item is CopperCable);
        },
        _ => {},
    }
}

/// Whether an entity of a factory hands `item` on to the one at `t`.
pub open spec fn handed_over(g: GridView, p: (int, int), t: (int, int), item: Item) -> bool {
    &&& g.inside(p.0, p.1)
    &&& sim::targets(g, p.0, p.1).contains(t)
    &&& sim::hands_on(g, sim::arrivals(g), p.0, p.1, item)
}

/// Whether some entity hands an item to a conveyor or a machine.
spec fn received(g: GridView, x: int, y: int, item: Item) -> bool {
    exists|a: int, b: int| #[trigger]
        handed_over(g, (a, b), (x, y), item) && sim::conveys(g.at(x, y).entity)
}

/// An item reaches a belt, a splitter, an inserter or a machine exactly if some entity
/// hands it on to that: nothing is lost on the way, and nothing comes from nowhere.
pub proof fn law_items_arrive_where_they_are_handed_over(g: GridView, t: (int, int), item: Item)
    ensures
        sim::arrivals(g).contains((t.0, t.1, item)) <==> exists|p: (int, int)| #[trigger]
            handed_over(g, p, t, item) && (g.at(t.0, t.1).entity is TransportBelt || g.at(
                t.0,
                t.1,
            ).entity is UndergroundBelt || g.at(t.0, t.1).entity is Splitter || g.at(
                t.0,
                t.1,
            ).entity is Inserter || g.at(t.0, t.1).entity is Assembler),
{
    let all = sim::arrivals(g);
    sim::lemma_arrivals_closed(g);
    if exists|p: (int, int)| #[trigger]
        handed_over(g, p, t, item) && sim::conveys(g.at(t.0, t.1).entity) {
        let p = choose|p: (int, int)| #[trigger] handed_over(g, p, t, item);
        assert(sim::settled(g, all, p.0, p.1));
    }
    let some = Set::new(|u: (int, int, Item)| all.contains(u) && received(g, u.0, u.1, u.2));
    assert(sim::closed_under_flow(g, some)) by {
        assert forall|x: int, y: int| #[trigger] g.inside(x, y) implies sim::settled(
            g,
            some,
            x,
            y,
        ) by {
            assert(sim::settled(g, all, x, y));
            assert forall|q: (int, int), i: Item|
                sim::targets(g, x, y).contains(q) && sim::conveys(g.at(q.0, q.1).entity)
                    && sim::hands_on(g, some, x, y, i) implies #[trigger] some.contains(
                (q.0, q.1, i),
            ) by {
                assert(some.subset_of(all));
                sim::lemma_hands_on_monotone(g, some, all, x, y, i);
                assert(q == (q.0, q.1));
                assert(all.contains((q.0, q.1, i)));
                assert(handed_over(g, (x, y), (q.0, q.1), i));
                assert(received(g, q.0, q.1, i));
            }
        }
    }
    if all.contains((t.0, t.1, item)) {
        assert(some.contains((t.0, t.1, item)));
        assert(received(g, t.0, t.1, item));
        let (a, b) = choose|a: int, b: int| #[trigger] handed_over(g, (a, b), (t.0, t.1), item);
        assert(handed_over(g, (a, b), t, item));
    }
}

/// A factory works exactly if some entity other than a source hands to some sink an item
/// that the sink is tagged with, or any item where it is not tagged.
pub proof fn law_a_factory_works_if_a_sink_is_supplied(g: GridView)
    ensures
        sim::functional(g) <==> exists|p: (int, int), t: (int, int), item: Item| #[trigger]
            handed_over(g, p, t, item) && g.at(t.0, t.1).entity is Sink && g.at(
                p.0,
                p.1,
            ).entity !is Source && (g.at(t.0, t.1).item is Nothing || g.at(t.0, t.1).item == item),
{
    if sim::functional(g) {
        let (x, y, t, item) = choose|x: int, y: int, t: (int, int), item: Item| #[trigger]
            sim::delivers(g, sim::arrivals(g), x, y, t, item);
        assert(handed_over(g, (x, y), t, item));
    }
    if exists|p: (int, int), t: (int, int), item: Item| #[trigger]
        handed_over(g, p, t, item) && g.at(t.0, t.1).entity is Sink && g.at(
            p.0,
            p.1,
        ).entity !is Source && (g.at(t.0, t.1).item is Nothing || g.at(t.0, t.1).item == item) {
        let (p, t, item) = choose|p: (int, int), t: (int, int), item: Item| #[trigger]
            handed_over(g, p, t, item) && g.at(t.0, t.1).entity is Sink && g.at(
                p.0,
                p.1,
            ).entity !is Source && (g.at(t.0, t.1).item is Nothing || g.at(t.0, t.1).item == item);
        assert(sim::delivers(g, sim::arrivals(g), p.0, p.1, t, item));
    }
}

} // verus!
