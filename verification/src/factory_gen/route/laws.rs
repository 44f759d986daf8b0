//! What holds of every route and every machine site.

use vstd::prelude::*;
use crate::factory_gen::canvas::Canvas;
use crate::factory_gen::route;
use crate::world::grid;
use crate::world::grid::GridView;
use crate::world::Direction;

verus! {

/// Whether a direction comes before another in the order north, east, south, west.
pub open spec fn turns_first(a: Direction, b: Direction) -> bool {
    match a {
        Direction::North => b is East || b is South || b is West,
        Direction::East => b is South || b is West,
        Direction::South => b is West,
        _ => false,
    }
}

/// The best route is a shortest one.
pub proof fn law_the_best_route_is_a_shortest_one(
    g: GridView,
    start: (int, int),
    goal: (int, int),
    avoid: Seq<(int, int)>,
    best: Seq<Direction>,
    other: Seq<Direction>,
)
    requires
        route::is_best_route(g, start, goal, avoid, best),
        route::is_route(g, start, goal, avoid, other),
    ensures
        best.len() <= other.len(),
{
}

/// Where two sequences part, the earlier one takes the direction with the smaller id.
proof fn lemma_first_difference(a: Seq<Direction>, b: Seq<Direction>, i: int)
    requires
        route::earlier(a, b),
        0 <= i < a.len(),
        a.take(i) == b.take(i),
        a[i] != b[i],
    ensures
        a[i].code() < b[i].code(),
    decreases a.len(),
{
    let (x, y) = (a.drop_last(), b.drop_last());
    if i == a.len() - 1 {
        assert(x =~= a.take(i) && y =~= b.take(i));
        route::lemma_earlier_irreflexive(x);
    } else {
        assert(x[i] != y[i]);
        assert(x.take(i) =~= a.take(i) && y.take(i) =~= b.take(i));
        lemma_first_difference(x, y, i);
    }
}

/// Of the shortest routes the best one is that which, where it parts from another, turns
/// north rather than east, east rather than south, and south rather than west.
pub proof fn law_the_best_route_turns_in_order(
    g: GridView,
    start: (int, int),
    goal: (int, int),
    avoid: Seq<(int, int)>,
    best: Seq<Direction>,
    other: Seq<Direction>,
    i: int,
)
    requires
        route::is_best_route(g, start, goal, avoid, best),
        route::is_route(g, start, goal, avoid, other),
        best.len() == other.len(),
        0 <= i < best.len(),
        forall|j: int| 0 <= j < i ==> best[j] == other[j],
        best[i] != other[i],
    ensures
        turns_first(best[i], other[i]),
{
    assert(best.take(i) =~= other.take(i));
    lemma_first_difference(best, other, i);
    route::lemma_prefix_open(g, start, goal, avoid, best, i + 1);
    route::lemma_prefix_open(g, start, goal, avoid, other, i + 1);
}

/// Whether a route may pass over a tile: it is on the board and one of the two ends, or
/// neither to be avoided nor blocked nor built on.
pub open spec fn way_is_clear(
    g: GridView,
    start: (int, int),
    goal: (int, int),
    avoid: Seq<(int, int)>,
    p: (int, int),
) -> bool {
    &&& 0 <= p.0 < g.width && 0 <= p.1 < g.height
    &&& p != start && p != goal ==> {
        &&& !avoid.contains(p)
        &&& !g.blocked(p.0, p.1)
        &&& forall|ax: int, ay: int| !#[trigger] g.covers(ax, ay, p.0, p.1)
    }
}

proof fn lemma_way(
    g: GridView,
    start: (int, int),
    goal: (int, int),
    avoid: Seq<(int, int)>,
    p: (int, int),
)
    ensures
        route::passable(g, start, goal, avoid, p) <==> way_is_clear(g, start, goal, avoid, p),
{
    if g.inside(p.0, p.1) {
        grid::lemma_anchor_of(g, p.0, p.1);
    }
}

/// A route starts at its start, ends at its goal, goes one step at a time, and passes over
/// clear tiles only.
pub proof fn law_a_route_goes_step_by_step_over_clear_tiles(
    g: GridView,
    start: (int, int),
    goal: (int, int),
    avoid: Seq<(int, int)>,
    moves: Seq<Direction>,
    k: int,
)
    requires
        route::is_route(g, start, goal, avoid, moves),
        0 <= k < moves.len(),
    ensures
        ({
            let (p, q) = (
                route::walk(start, moves.take(k)),
                route::walk(start, moves.take(k + 1)),
            );
            &&& route::walk(start, moves.take(0)) == start
            &&& route::walk(start, moves.take(moves.len() as int)) == goal
            &&& moves[k] !is Nowhere
            &&& q == (p.0 + moves[k].dx(), p.1 + moves[k].dy())
            &&& way_is_clear(g, start, goal, avoid, q)
        }),
{
    assert(moves.take(0) =~= Seq::empty());
    assert(moves.take(moves.len() as int) =~= moves);
    assert(moves.take(k + 1).drop_last() =~= moves.take(k));
    route::lemma_prefix_open(g, start, goal, avoid, moves, k + 1);
    lemma_way(g, start, goal, avoid, route::walk(start, moves.take(k + 1)));
}

/// Whether a list of tiles leads from one end to the other over clear tiles, each next to
/// the one before.
pub open spec fn is_path(
    g: GridView,
    start: (int, int),
    goal: (int, int),
    avoid: Seq<(int, int)>,
    tiles: Seq<(int, int)>,
) -> bool {
    &&& tiles.len() > 0
    &&& tiles[0] == start
    &&& tiles.last() == goal
    &&& forall|i: int|
        0 <= i < tiles.len() ==> way_is_clear(g, start, goal, avoid, #[trigger] tiles[i])
    &&& forall|i: int|
        0 < i < tiles.len() ==> exists|d: Direction|
            d !is Nowhere && #[trigger] route::neighbour(tiles[i - 1], d) == #[trigger] tiles[i]
}

/// A list of neighbouring clear tiles is walked by some moves.
proof fn lemma_path_walked(
    g: GridView,
    start: (int, int),
    goal: (int, int),
    avoid: Seq<(int, int)>,
    tiles: Seq<(int, int)>,
    n: nat,
) -> (moves: Seq<Direction>)
    requires
        is_path(g, start, goal, avoid, tiles),
        n < tiles.len(),
    ensures
        moves.len() == n,
        route::walk(start, moves) == tiles[n as int],
        route::open_walk(g, start, goal, avoid, moves),
    decreases n,
{
    if n == 0 {
        Seq::empty()
    } else {
        let before = lemma_path_walked(g, start, goal, avoid, tiles, (n - 1) as nat);
        let at = tiles[n as int];
        let d = choose|d: Direction|
            d !is Nowhere && #[trigger] route::neighbour(tiles[n - 1], d) == at;
        let moves = before.push(d);
        assert(moves.drop_last() =~= before);
        lemma_way(g, start, goal, avoid, at);
        moves
    }
}

/// Wherever clear tiles lead from one end to the other there is a route, and the best one
/// has no more steps than they do.
pub proof fn law_where_there_is_a_path_there_is_a_route(
    g: GridView,
    start: (int, int),
    goal: (int, int),
    avoid: Seq<(int, int)>,
    tiles: Seq<(int, int)>,
    best: Seq<Direction>,
)
    requires
        is_path(g, start, goal, avoid, tiles),
    ensures
        route::best_route(g, start, goal, avoid) is Some,
        route::is_best_route(g, start, goal, avoid, best) ==> best.len() < tiles.len(),
{
    let moves = lemma_path_walked(g, start, goal, avoid, tiles, (tiles.len() - 1) as nat);
    assert(route::is_route(g, start, goal, avoid, moves));
}

/// The distance between two tiles is zero where they are one tile, and each step towards
/// the other takes one off it.
pub proof fn law_distance_counts_steps(a: (int, int), b: (int, int))
    ensures
        route::distance(a, b) >= 0,
        route::distance(a, b) == 0 <==> a == b,
        route::distance(a, b) == route::distance(b, a),
        a.0 < b.0 ==> route::distance((a.0 + 1, a.1), b) == route::distance(a, b) - 1,
        a.0 > b.0 ==> route::distance((a.0 - 1, a.1), b) == route::distance(a, b) - 1,
        a.1 < b.1 ==> route::distance((a.0, a.1 + 1), b) == route::distance(a, b) - 1,
        a.1 > b.1 ==> route::distance((a.0, a.1 - 1), b) == route::distance(a, b) - 1,
{
}

/// No walk is shorter than the distance between its ends.
pub proof fn law_no_walk_is_shorter_than_the_distance(start: (int, int), moves: Seq<Direction>)
    ensures
        route::distance(start, route::walk(start, moves)) <= moves.len(),
    decreases moves.len(),
{
    if moves.len() > 0 {
        law_no_walk_is_shorter_than_the_distance(start, moves.drop_last());
    }
}

/// The heading from one tile to another is the direction whose step leads there, and none
/// where no single step does.
pub proof fn law_the_heading_leads_there(a: (int, int), b: (int, int), d: Direction)
    ensures
        d !is Nowhere ==> (route::heading(a, b) == d <==> b == (a.0 + d.dx(), a.1 + d.dy())),
        route::heading(a, b) is Nowhere <==> route::distance(a, b) != 1,
{
}

/// The tiles next to one are those on the board at distance one, each once.
pub proof fn law_neighbours_are_one_step_away(canvas: Canvas, p: (int, int), q: (int, int))
    ensures
        route::neighbourhood(canvas, p).contains(q) <==> 0 <= q.0 < canvas.width && 0 <= q.1
            < canvas.height && route::distance(p, q) == 1,
        route::neighbourhood(canvas, p).no_duplicates(),
{
    let n = route::neighbour_list(canvas, p, Direction::North);
    let s = route::neighbour_list(canvas, p, Direction::South);
    let e = route::neighbour_list(canvas, p, Direction::East);
    let w = route::neighbour_list(canvas, p, Direction::West);
    let all = route::neighbourhood(canvas, p);
    assert(all == n + s + e + w);
    if route::on_canvas(canvas, q) && route::distance(p, q) == 1 {
        let k: int = match route::heading(p, q) {
            Direction::North => 0,
            Direction::South => n.len() as int,
            Direction::East => (n + s).len() as int,
            _ => (n + s + e).len() as int,
        };
        assert(all[k] == q);
    }
}

/// The direction from a tile into a footprint is the first, in the order north, east, south
/// and west, whose step leads into it; there is one exactly where the tile shares an edge
/// with the footprint or lies in it.
pub proof fn law_the_way_into_a_footprint(
    g: GridView,
    from: (int, int),
    anchor: (int, int),
    d: Direction,
)
    requires
        d !is Nowhere,
    ensures
        ({
            let (w, h) = g.extent_at(anchor.0, anchor.1);
            let (x, y) = (from.0 + d.dx(), from.1 + d.dy());
            let leads = anchor.0 <= x < anchor.0 + w && anchor.1 <= y < anchor.1 + h;
            let found = route::toward(g, from, anchor);
            &&& found == Some(d) ==> leads
            &&& leads ==> found is Some && (found == Some(d) || turns_first(found->0, d))
        }),
{
}

/// A site is free exactly where its nine tiles are on the board, open and not built on.
pub proof fn law_a_free_site_is_nine_free_tiles(g: GridView, x: int, y: int)
    ensures
        route::free_site(g, x, y) <==> forall|tx: int, ty: int|
            x <= tx <= x + 2 && y <= ty <= y + 2 ==> {
                &&& g.inside(tx, ty)
                &&& !g.blocked(tx, ty)
                &&& forall|ax: int, ay: int| !#[trigger] g.covers(ax, ay, tx, ty)
            } && #[trigger] g.inside(tx, ty),
{
    if route::free_site(g, x, y) {
        assert forall|tx: int, ty: int| x <= tx <= x + 2 && y <= ty <= y + 2 implies {
            &&& g.inside(tx, ty)
            &&& !g.blocked(tx, ty)
            &&& forall|ax: int, ay: int| !#[trigger] g.covers(ax, ay, tx, ty)
        } && #[trigger] g.inside(tx, ty) by {
            grid::lemma_anchor_of(g, tx, ty);
        }
    }
    if forall|tx: int, ty: int|
        x <= tx <= x + 2 && y <= ty <= y + 2 ==> {
            &&& g.inside(tx, ty)
            &&& !g.blocked(tx, ty)
            &&& forall|ax: int, ay: int| !#[trigger] g.covers(ax, ay, tx, ty)
        } && #[trigger] g.inside(tx, ty) {
        assert(g.inside(x, y) && g.inside(x + 2, y + 2));
        assert forall|tx: int, ty: int| x <= tx < x + 3 && y <= ty < y + 3 implies !g.blocked(
            tx,
            ty,
        ) && #[trigger] g.anchor_of(tx, ty) is None by {
            assert(g.inside(tx, ty));
            grid::lemma_anchor_of(g, tx, ty);
        }
    }
}

/// No free site makes the way from source to sink past its middle tile shorter than the
/// best site does; of those that make it equally short the best one is the topmost, and of
/// those in one row the leftmost.
pub proof fn law_the_best_site_makes_the_shortest_way(
    g: GridView,
    source: (int, int),
    sink: (int, int),
    best: (int, int),
    other: (int, int),
)
    requires
        route::is_best_site(g, source, sink, best),
        route::free_site(g, other.0, other.1),
        other != best,
    ensures
        ({
            let (b, o) = ((best.0 + 1, best.1 + 1), (other.0 + 1, other.1 + 1));
            let past_best = route::distance(source, b) + route::distance(b, sink);
            let past_other = route::distance(source, o) + route::distance(o, sink);
            &&& past_best <= past_other
            &&& past_best == past_other ==> best.1 <= other.1 && (best.1 == other.1 ==> best.0
                < other.0)
        }),
{
}

/// Belts along a route stand on the tiles it passes between its ends, each facing the next
/// tile of the route, and leave everything else as it was.
pub proof fn law_belts_face_along_the_route(
    g: GridView,
    start: (int, int),
    goal: (int, int),
    avoid: Seq<(int, int)>,
    moves: Seq<Direction>,
    n: nat,
    x: int,
    y: int,
)
    requires
        g.valid(),
        route::is_best_route(g, start, goal, avoid, moves),
        n < moves.len(),
        g.inside(x, y),
    ensures
        ({
            let b = route::belted(g, start, moves, n);
            &&& b.valid()
            &&& (b.width, b.height, b.obstacle) == (g.width, g.height, g.obstacle)
            &&& (forall|k: int|
                1 <= k <= n ==> #[trigger] route::walk(start, moves.take(k)) != (x, y)) ==> b.at(
                x,
                y,
            ) == g.at(x, y)
            &&& forall|k: int|
                1 <= k <= n && #[trigger] route::walk(start, moves.take(k)) == (x, y) ==> {
                    let next = route::walk(start, moves.take(k + 1));
                    &&& b.at(x, y).entity is TransportBelt
                    &&& b.at(x, y).item is Nothing
                    &&& next == (x + b.at(x, y).direction.dx(), y + b.at(x, y).direction.dy())
                }
        }),
    decreases n,
{
    if n > 0 {
        law_belts_face_along_the_route(g, start, goal, avoid, moves, (n - 1) as nat, x, y);
        let before = route::belted(g, start, moves, (n - 1) as nat);
        let b = route::belted(g, start, moves, n);
        let p = route::walk(start, moves.take(n as int));
        route::law_best_route_is_free(g, start, goal, avoid, moves, n as int);
        grid::lemma_slot(before, p.0, p.1);
        grid::lemma_put_at(
            before,
            p.0,
            p.1,
            crate::world::Cell::belt_cell(moves[n as int]),
            x,
            y,
        );
        assert forall|k: int|
            1 <= k <= n && #[trigger] route::walk(start, moves.take(k)) == (x, y) implies {
            let next = route::walk(start, moves.take(k + 1));
            &&& b.at(x, y).entity is TransportBelt
            &&& b.at(x, y).item is Nothing
            &&& next == (x + b.at(x, y).direction.dx(), y + b.at(x, y).direction.dy())
        } by {
            if k < n {
                route::law_best_route_is_simple(g, start, goal, avoid, moves, k, n as int);
            } else {
                assert(moves.take(k + 1).drop_last() =~= moves.take(k));
            }
        }
    }
}

/// A sequence whose direction has the smaller id where it parts from another is the earlier
/// one.
proof fn lemma_parts_earlier(a: Seq<Direction>, b: Seq<Direction>, i: int)
    requires
        a.len() == b.len(),
        0 <= i < a.len(),
        a.take(i) == b.take(i),
        a[i].code() < b[i].code(),
    ensures
        route::earlier(a, b),
    decreases a.len(),
{
    let (x, y) = (a.drop_last(), b.drop_last());
    if i == a.len() - 1 {
        assert(x =~= a.take(i) && y =~= b.take(i));
    } else {
        assert(x.take(i) =~= a.take(i) && y.take(i) =~= b.take(i));
        lemma_parts_earlier(x, y, i);
    }
}

/// Whether a route of a length starts with some steps.
spec fn continues(
    g: GridView,
    start: (int, int),
    goal: (int, int),
    avoid: Seq<(int, int)>,
    first: Seq<Direction>,
    n: nat,
    m: Seq<Direction>,
) -> bool {
    &&& route::is_route(g, start, goal, avoid, m)
    &&& m.len() == n
    &&& first.len() <= n
    &&& m.take(first.len() as int) == first
}

/// Of the routes of a length that start with some steps one is the earliest.
proof fn lemma_earliest(
    g: GridView,
    start: (int, int),
    goal: (int, int),
    avoid: Seq<(int, int)>,
    first: Seq<Direction>,
    n: nat,
    w: Seq<Direction>,
) -> (best: Seq<Direction>)
    requires
        continues(g, start, goal, avoid, first, n, w),
    ensures
        continues(g, start, goal, avoid, first, n, best),
        forall|o: Seq<Direction>| #[trigger]
            continues(g, start, goal, avoid, first, n, o) ==> o == best || route::earlier(best, o),
    decreases n - first.len(),
{
    let i = first.len() as int;
    if i == n {
        assert forall|o: Seq<Direction>| #[trigger]
            continues(g, start, goal, avoid, first, n, o) implies o == w by {
            assert(o.take(i) =~= o && w.take(i) =~= w);
        }
        w
    } else {
        let goes = |d: Direction|
            exists|m: Seq<Direction>| #[trigger]
                continues(g, start, goal, avoid, first.push(d), n, m);
        assert forall|o: Seq<Direction>| #[trigger]
            continues(g, start, goal, avoid, first, n, o) implies goes(o[i]) && o[i] !is Nowhere by {
            assert(o.take(i + 1) =~= first.push(o[i]));
            assert(continues(g, start, goal, avoid, first.push(o[i]), n, o));
            route::lemma_prefix_open(g, start, goal, avoid, o, i + 1);
        }
        assert(goes(w[i]));
        let d = if goes(Direction::North) {
            Direction::North
        } else if goes(Direction::East) {
            Direction::East
        } else if goes(Direction::South) {
            Direction::South
        } else {
            Direction::West
        };
        assert(goes(d));
        let next = first.push(d);
        let u = choose|m: Seq<Direction>| #[trigger]
            continues(g, start, goal, avoid, next, n, m);
        let best = lemma_earliest(g, start, goal, avoid, next, n, u);
        assert(best.take(i) =~= best.take(i + 1).drop_last());
        assert(next.drop_last() =~= first);
        assert(best[i] == best.take(i + 1)[i]);
        assert forall|o: Seq<Direction>| #[trigger]
            continues(g, start, goal, avoid, first, n, o) implies o == best || route::earlier(
            best,
            o,
        ) by {
            if o[i] == d {
                assert(o.take(i + 1) =~= next);
                assert(continues(g, start, goal, avoid, next, n, o));
            } else {
                assert(goes(o[i]));
                lemma_parts_earlier(best, o, i);
            }
        }
        best
    }
}

/// Among the routes there is a shortest one.
proof fn lemma_shortest(
    g: GridView,
    start: (int, int),
    goal: (int, int),
    avoid: Seq<(int, int)>,
    w: Seq<Direction>,
) -> (short: Seq<Direction>)
    requires
        route::is_route(g, start, goal, avoid, w),
    ensures
        route::is_route(g, start, goal, avoid, short),
        forall|o: Seq<Direction>| #[trigger]
            route::is_route(g, start, goal, avoid, o) ==> short.len() <= o.len(),
    decreases w.len(),
{
    if exists|o: Seq<Direction>| #[trigger]
        route::is_route(g, start, goal, avoid, o) && o.len() < w.len() {
        let o = choose|o: Seq<Direction>| #[trigger]
            route::is_route(g, start, goal, avoid, o) && o.len() < w.len();
        lemma_shortest(g, start, goal, avoid, o)
    } else {
        w
    }
}

/// Wherever there is a route there is a best one, and that is the one that is taken.
pub proof fn law_the_route_taken_is_the_best(
    g: GridView,
    start: (int, int),
    goal: (int, int),
    avoid: Seq<(int, int)>,
)
    ensures
        route::best_route(g, start, goal, avoid) is Some <==> exists|m: Seq<Direction>|
            route::is_route(g, start, goal, avoid, m),
        route::best_route(g, start, goal, avoid) matches Some(m) ==> route::is_best_route(
            g,
            start,
            goal,
            avoid,
            m,
        ),
{
    if exists|m: Seq<Direction>| route::is_route(g, start, goal, avoid, m) {
        let w = choose|m: Seq<Direction>| route::is_route(g, start, goal, avoid, m);
        let short = lemma_shortest(g, start, goal, avoid, w);
        let n = short.len();
        assert(short.take(0) =~= Seq::empty());
        let best = lemma_earliest(g, start, goal, avoid, Seq::empty(), n, short);
        assert forall|o: Seq<Direction>| #[trigger]
            route::is_route(g, start, goal, avoid, o) implies o == best || route::preferred(
            best,
            o,
        ) by {
            if o.len() == n {
                assert(o.take(0) =~= Seq::empty());
                assert(continues(g, start, goal, avoid, Seq::empty(), n, o));
            }
        }
        assert(route::is_best_route(g, start, goal, avoid, best));
    }
}

/// The slots of a route are those of the tiles that it passes between its ends.
pub proof fn law_the_slots_of_a_route(
    g: GridView,
    start: (int, int),
    goal: (int, int),
    avoid: Seq<(int, int)>,
    moves: Seq<Direction>,
    x: int,
    y: int,
)
    requires
        g.valid(),
        route::is_best_route(g, start, goal, avoid, moves),
        moves.len() > 0,
        g.inside(x, y),
    ensures
        route::between(g, start, moves).contains(g.slot(x, y)) <==> exists|k: int|
            1 <= k <= moves.len() - 1 && #[trigger] route::walk(start, moves.take(k)) == (x, y),
        route::between(g, start, moves).len() == moves.len() - 1,
{
    let slots = route::between(g, start, moves);
    let i = g.slot(x, y);
    if slots.contains(i) {
        let k = slots.index_of(i);
        let p = route::walk(start, moves.take(k + 1));
        route::law_best_route_is_free(g, start, goal, avoid, moves, k + 1);
        grid::lemma_slot_injective(g, x, y, p.0, p.1);
        assert(route::walk(start, moves.take(k + 1)) == (x, y));
    }
    if exists|k: int|
        1 <= k <= moves.len() - 1 && #[trigger] route::walk(start, moves.take(k)) == (x, y) {
        let k = choose|k: int|
            1 <= k <= moves.len() - 1 && #[trigger] route::walk(start, moves.take(k)) == (x, y);
        assert(slots[k - 1] == i);
    }
}

/// From any free site one comes to the best by going to one that comes before it.
proof fn lemma_best_site(
    g: GridView,
    source: (int, int),
    sink: (int, int),
    p: (int, int),
) -> (best: (int, int))
    requires
        route::free_site(g, p.0, p.1),
    ensures
        route::is_best_site(g, source, sink, best),
    decreases route::detour(source, sink, p), p.1, p.0,
{
    if exists|q: (int, int)| #[trigger]
        route::free_site(g, q.0, q.1) && route::site_before(source, sink, q, p) {
        let q = choose|q: (int, int)| #[trigger]
            route::free_site(g, q.0, q.1) && route::site_before(source, sink, q, p);
        lemma_best_site(g, source, sink, q)
    } else {
        p
    }
}

/// Wherever there is a free site there is a best one, and that is the one that a task
/// implies.
pub proof fn law_the_site_implied_is_the_best(g: GridView, source: (int, int), sink: (int, int))
    ensures
        route::best_site(g, source, sink) is Some <==> exists|p: (int, int)| #[trigger]
            route::free_site(g, p.0, p.1),
        route::best_site(g, source, sink) matches Some(p) ==> route::is_best_site(
            g,
            source,
            sink,
            p,
        ),
{
    if exists|p: (int, int)| #[trigger] route::free_site(g, p.0, p.1) {
        let p = choose|p: (int, int)| #[trigger] route::free_site(g, p.0, p.1);
        let best = lemma_best_site(g, source, sink, p);
        assert(route::is_best_site(g, source, sink, best));
    }
}

} // verus!
