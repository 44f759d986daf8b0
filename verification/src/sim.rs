//! Whether a factory works: does an item flow from a source to a sink that
//! accepts it?

use vstd::prelude::*;
use std::collections::VecDeque;
use crate::world;
use crate::world::grid;
use crate::world::grid::GridView;
use crate::world::{Cell, Direction, Entity, Grid, Item, Misc};

pub mod laws;

verus! {

/// How many tiles past its entrance the exit of an underground belt may lie.
pub const UNDERGROUND_REACH: i32 = 5;

/// The tile in front of `(x, y)`, if it is on the board.
pub open spec fn ahead(g: GridView, x: int, y: int, d: Direction) -> Seq<(int, int)> {
    if g.inside(x + d.dx(), y + d.dy()) {
        seq![(x + d.dx(), y + d.dy())]
    } else {
        seq![]
    }
}

/// The neighbour of `(x, y)` towards `d`, if an inserter stands there that faces
/// away from `(x, y)` and so picks up from it.
pub open spec fn tap(g: GridView, x: int, y: int, d: Direction) -> Seq<(int, int)> {
    let (nx, ny) = (x + d.dx(), y + d.dy());
    if g.inside(nx, ny) && g.at(nx, ny).entity is Inserter && g.at(nx, ny).direction == d {
        seq![(nx, ny)]
    } else {
        seq![]
    }
}

/// All inserters that pick up from `(x, y)`: north, east, south, west.
pub open spec fn taps(g: GridView, x: int, y: int) -> Seq<(int, int)> {
    tap(g, x, y, Direction::North) + tap(g, x, y, Direction::East) + tap(
        g,
        x,
        y,
        Direction::South,
    ) + tap(g, x, y, Direction::West)
}

/// The tiles in front of each of the first `k` tiles of a footprint.
pub open spec fn ahead_of_all(
    g: GridView,
    tiles: Seq<(int, int)>,
    d: Direction,
    k: nat,
) -> Seq<(int, int)>
    decreases k,
{
    if k == 0 || k > tiles.len() {
        seq![]
    } else {
        ahead_of_all(g, tiles, d, (k - 1) as nat) + ahead(g, tiles[k - 1].0, tiles[k - 1].1, d)
    }
}

/// The nearest exit that faces `d`, looking from `step` tiles ahead of `(x, y)`
/// up to the reach of a tunnel and no further than the edge of the board.
pub open spec fn tunnel_exit(g: GridView, x: int, y: int, d: Direction, step: int) -> Seq<
    (int, int),
>
    decreases UNDERGROUND_REACH + 1 - step,
{
    let (nx, ny) = (x + d.dx() * step, y + d.dy() * step);
    if step > UNDERGROUND_REACH || !g.inside(nx, ny) {
        seq![]
    } else if g.at(nx, ny).entity is UndergroundBelt && g.at(nx, ny).misc is UndergroundUp && g.at(
        nx,
        ny,
    ).direction == d {
        seq![(nx, ny)]
    } else {
        tunnel_exit(g, x, y, d, step + 1)
    }
}

/// The tiles that whatever is stored at `(x, y)` pushes flow towards.
pub open spec fn offers(g: GridView, x: int, y: int) -> Seq<(int, int)> {
    let cell = g.at(x, y);
    match cell.entity {
        Entity::TransportBelt => ahead(g, x, y, cell.direction) + taps(g, x, y),
        Entity::Inserter => ahead(g, x, y, cell.direction),
        Entity::Splitter => ahead_of_all(
            g,
            g.footprint_tiles(x, y),
            cell.direction,
            g.footprint_tiles(x, y).len(),
        ),
        Entity::Assembler | Entity::Source => g.loading_slots(x, y),
        Entity::UndergroundBelt => if cell.misc is UndergroundUp {
            ahead(g, x, y, cell.direction)
        } else {
            tunnel_exit(g, x, y, cell.direction, 1)
        },
        _ => seq![],
    }
}

/// The entities that stand on a list of tiles, in the order of the list, each
/// named once by its anchor and without `from`.
pub open spec fn entities_on(g: GridView, from: (int, int), tiles: Seq<(int, int)>) -> Seq<
    (int, int),
>
    decreases tiles.len(),
{
    if tiles.len() == 0 {
        seq![]
    } else {
        let rest = entities_on(g, from, tiles.drop_last());
        match g.anchor_of(tiles.last().0, tiles.last().1) {
            Some(a) => if a != from && !rest.contains(a) {
                rest.push(a)
            } else {
                rest
            },
            None => rest,
        }
    }
}

/// Every entity that the one stored at `(x, y)` pushes flow into.
pub open spec fn targets(g: GridView, x: int, y: int) -> Seq<(int, int)> {
    entities_on(g, (x, y), offers(g, x, y))
}

/// Every tile of a list is on the board.
pub open spec fn all_inside(g: GridView, tiles: Seq<(int, int)>) -> bool {
    forall|i: int| 0 <= i < tiles.len() ==> g.inside((#[trigger] tiles[i]).0, tiles[i].1)
}

pub proof fn lemma_on_board_inside(g: GridView, tiles: Seq<(int, int)>)
    ensures
        all_inside(g, g.on_board(tiles)),
    decreases tiles.len(),
{
    if tiles.len() > 0 {
        lemma_on_board_inside(g, tiles.drop_last());
    }
}

proof fn lemma_ahead_of_all_inside(g: GridView, tiles: Seq<(int, int)>, d: Direction, k: nat)
    ensures
        all_inside(g, ahead_of_all(g, tiles, d, k)),
    decreases k,
{
    if k > 0 {
        lemma_ahead_of_all_inside(g, tiles, d, (k - 1) as nat);
    }
}

proof fn lemma_tunnel_exit_inside(g: GridView, x: int, y: int, d: Direction, step: int)
    ensures
        all_inside(g, tunnel_exit(g, x, y, d, step)),
    decreases UNDERGROUND_REACH + 1 - step,
{
    if step <= UNDERGROUND_REACH {
        lemma_tunnel_exit_inside(g, x, y, d, step + 1);
    }
}

proof fn lemma_joined_inside(g: GridView, a: Seq<(int, int)>, b: Seq<(int, int)>)
    requires
        all_inside(g, a),
        all_inside(g, b),
    ensures
        all_inside(g, a + b),
{
    assert forall|i: int| 0 <= i < (a + b).len() implies g.inside(
        (#[trigger] (a + b)[i]).0,
        (a + b)[i].1,
    ) by {
        if i < a.len() {
            assert(g.inside(a[i].0, a[i].1));
        } else {
            assert(g.inside(b[i - a.len()].0, b[i - a.len()].1));
        }
    }
}

proof fn lemma_taps_inside(g: GridView, x: int, y: int)
    ensures
        all_inside(g, taps(g, x, y)),
{
    let n = tap(g, x, y, Direction::North);
    let e = tap(g, x, y, Direction::East);
    let s = tap(g, x, y, Direction::South);
    let w = tap(g, x, y, Direction::West);
    lemma_joined_inside(g, n, e);
    lemma_joined_inside(g, n + e, s);
    lemma_joined_inside(g, n + e + s, w);
}

/// What an entity offers to is on the board.
pub proof fn lemma_offers_inside(g: GridView, x: int, y: int)
    ensures
        all_inside(g, offers(g, x, y)),
{
    let cell = g.at(x, y);
    match cell.entity {
        Entity::TransportBelt => {
            lemma_taps_inside(g, x, y);
            lemma_joined_inside(g, ahead(g, x, y, cell.direction), taps(g, x, y));
        },
        Entity::Splitter => {
            lemma_ahead_of_all_inside(
                g,
                g.footprint_tiles(x, y),
                cell.direction,
                g.footprint_tiles(x, y).len(),
            );
        },
        Entity::Assembler | Entity::Source => {
            lemma_on_board_inside(g, g.ring(x, y));
        },
        Entity::UndergroundBelt => {
            lemma_tunnel_exit_inside(g, x, y, cell.direction, 1);
        },
        _ => {},
    }
}

proof fn lemma_entities_on(g: GridView, from: (int, int), tiles: Seq<(int, int)>)
    requires
        all_inside(g, tiles),
    ensures
        all_inside(g, entities_on(g, from, tiles)),
        forall|i: int|
            0 <= i < entities_on(g, from, tiles).len() ==> (#[trigger] entities_on(
                g,
                from,
                tiles,
            )[i]) != from,
        forall|i: int|
            0 <= i < entities_on(g, from, tiles).len() ==> g.at(
                (#[trigger] entities_on(g, from, tiles)[i]).0,
                entities_on(g, from, tiles)[i].1,
            ).entity !is Empty,
        entities_on(g, from, tiles).no_duplicates(),
        entities_on(g, from, tiles).len() <= tiles.len(),
    decreases tiles.len(),
{
    if tiles.len() > 0 {
        let t = tiles.last();
        assert(all_inside(g, tiles.drop_last())) by {
            assert forall|i: int| 0 <= i < tiles.drop_last().len() implies g.inside(
                (#[trigger] tiles.drop_last()[i]).0,
                tiles.drop_last()[i].1,
            ) by {
                assert(tiles[i] == tiles.drop_last()[i]);
            }
        }
        lemma_entities_on(g, from, tiles.drop_last());
        assert(g.inside(tiles[tiles.len() - 1].0, tiles[tiles.len() - 1].1));
        grid::lemma_anchor_of(g, t.0, t.1);
    }
}

/// An entity pushes flow into entities on the board, never into itself and never
/// twice into the same one.
pub proof fn law_targets_are_other_entities(g: GridView, x: int, y: int)
    requires
        g.inside(x, y),
    ensures
        all_inside(g, targets(g, x, y)),
        targets(g, x, y).no_duplicates(),
        forall|i: int| 0 <= i < targets(g, x, y).len() ==> (#[trigger] targets(g, x, y)[i]) != (x, y),
        forall|i: int|
            0 <= i < targets(g, x, y).len() ==> g.at(
                (#[trigger] targets(g, x, y)[i]).0,
                targets(g, x, y)[i].1,
            ).entity !is Empty,
{
    lemma_offers_inside(g, x, y);
    lemma_entities_on(g, (x, y), offers(g, x, y));
}

/// The step from a tile towards `d`, if it stays on the board.
fn tile_ahead(grid: &Grid, x: i32, y: i32, d: Direction) -> (r: Option<(usize, usize)>)
    requires
        grid.wf(),
        -2 < x < i32::MAX - 1,
        -2 < y < i32::MAX - 1,
    ensures
        r is Some <==> grid@.inside(x + d.dx(), y + d.dy()),
        r matches Some(p) ==> grid::pos(p) == (x + d.dx(), y + d.dy()),
{
    let (dx, dy) = d.delta();
    let (nx, ny): (i32, i32) = (x + dx, y + dy);
    if grid.in_bounds(nx, ny) {
        Some((nx as usize, ny as usize))
    } else {
        None
    }
}

/// Every inserter beside `(x, y)` whose hand reaches into it.
///
/// An inserter picks up from the tile behind it. One that points at `(x, y)`
/// drops onto it instead, and is not a tap.
pub fn tapping_inserters(grid: &Grid, x: usize, y: usize) -> (r: Vec<(usize, usize)>)
    requires
        grid.wf(),
        grid@.inside(x as int, y as int),
    ensures
        grid::pos_list(r@) == taps(grid@, x as int, y as int),
{
    let mut out: Vec<(usize, usize)> = Vec::new();
    tap_towards(grid, x, y, Direction::North, &mut out);
    tap_towards(grid, x, y, Direction::East, &mut out);
    tap_towards(grid, x, y, Direction::South, &mut out);
    tap_towards(grid, x, y, Direction::West, &mut out);
    assert(grid::pos_list(out@) =~= taps(grid@, x as int, y as int));
    out
}

/// Append the inserter that stands towards `d` and picks up from `(x, y)`.
fn tap_towards(grid: &Grid, x: usize, y: usize, d: Direction, out: &mut Vec<(usize, usize)>)
    requires
        grid.wf(),
        grid@.inside(x as int, y as int),
        d !is Nowhere,
    ensures
        grid::pos_list(final(out)@) == grid::pos_list(old(out)@) + tap(grid@, x as int, y as int, d),
{
    if let Some((nx, ny)) = tile_ahead(grid, x as i32, y as i32, d) {
        proof {
            grid::lemma_slot(grid@, nx as int, ny as int);
        }
        let neighbour = grid.get(nx, ny);
        let (idx, idy) = neighbour.direction.delta();
        if neighbour.entity == Entity::Inserter && nx as i32 - idx == x as i32 && ny as i32 - idy
            == y as i32 {
            out.push((nx, ny));
        }
    }
    assert(grid::pos_list(out@) =~= grid::pos_list(old(out)@) + tap(
        grid@,
        x as int,
        y as int,
        d,
    ));
}

/// The nearest matching exit of a tunnel that starts at `(x, y)`.
fn find_exit(grid: &Grid, x: usize, y: usize, d: Direction) -> (r: Option<(usize, usize)>)
    requires
        grid.wf(),
        grid@.inside(x as int, y as int),
    ensures
        tunnel_exit(grid@, x as int, y as int, d, 1) == (match r {
            Some(p) => seq![grid::pos(p)],
            None => Seq::empty(),
        }),
{
    let (dx, dy) = d.delta();
    let mut step: i32 = 1;
    while step <= UNDERGROUND_REACH
        invariant
            grid.wf(),
            grid@.inside(x as int, y as int),
            dx == d.dx(),
            dy == d.dy(),
            1 <= step <= UNDERGROUND_REACH + 1,
            tunnel_exit(grid@, x as int, y as int, d, 1) == tunnel_exit(
                grid@,
                x as int,
                y as int,
                d,
                step as int,
            ),
        decreases UNDERGROUND_REACH + 1 - step,
    {
        assert(-5 <= dx * step <= 5 && -5 <= dy * step <= 5) by (nonlinear_arith)
            requires
                -1 <= dx <= 1,
                -1 <= dy <= 1,
                1 <= step <= 5,
        ;
        let (nx, ny): (i32, i32) = (x as i32 + dx * step, y as i32 + dy * step);
        if !grid.in_bounds(nx, ny) {
            return None;
        }
        proof {
            grid::lemma_slot(grid@, nx as int, ny as int);
        }
        let c = grid.get(nx as usize, ny as usize);
        if c.entity == Entity::UndergroundBelt && c.misc == Misc::UndergroundUp && c.direction
            == d {
            return Some((nx as usize, ny as usize));
        }
        step = step + 1;
    }
    None
}

/// Every entity that the one stored at `(x, y)` pushes flow into, named by its
/// anchor.
///
/// A belt pushes to the tile it faces and to any inserter that takes off it. An
/// underground entrance jumps to the nearest matching exit within reach. A source
/// or an assembler offers to everything around its footprint. This says only who
/// offers; whether the receiver takes it is the receiver's business.
pub fn flow_targets(grid: &Grid, x: usize, y: usize) -> (r: Vec<(usize, usize)>)
    requires
        grid.wf(),
        grid@.inside(x as int, y as int),
    ensures
        grid::pos_list(r@) == targets(grid@, x as int, y as int),
{
    proof {
        grid::lemma_slot(grid@, x as int, y as int);
        lemma_offers_inside(grid@, x as int, y as int);
    }
    let cell = grid.get(x, y);
    let mut out: Vec<(usize, usize)> = Vec::new();
    match cell.entity {
        Entity::TransportBelt | Entity::Inserter => {
            if let Some(p) = tile_ahead(grid, x as i32, y as i32, cell.direction) {
                out.push(p);
            }
            assert(grid::pos_list(out@) =~= ahead(grid@, x as int, y as int, cell.direction));
            if cell.entity == Entity::TransportBelt {
                let mut taps_here = tapping_inserters(grid, x, y);
                let ghost front = out@;
                let ghost beside = taps_here@;
                out.append(&mut taps_here);
                assert(grid::pos_list(out@) =~= grid::pos_list(front) + grid::pos_list(beside));
            }
        },
        Entity::Splitter => {
            let tiles = grid.footprint_at(x, y);
            let ghost ts = grid@.footprint_tiles(x as int, y as int);
            let mut k: usize = 0;
            while k < tiles.len()
                invariant
                    grid.wf(),
                    grid@.inside(x as int, y as int),
                    cell == grid@.at(x as int, y as int),
                    ts == grid@.footprint_tiles(x as int, y as int),
                    grid::tile_list(tiles@) == ts,
                    k <= tiles.len(),
                    grid::pos_list(out@) == ahead_of_all(grid@, ts, cell.direction, k as nat),
                decreases tiles.len() - k,
            {
                let (tx, ty) = tiles[k];
                assert(ts[k as int] == (tx as int, ty as int));
                proof {
                    let (w, h) = grid@.extent_at(x as int, y as int);
                    assert(0 <= k < w * h);
                    assert(0 <= (k as int) % w < w);
                    vstd::arithmetic::div_mod::lemma_div_is_ordered(0, k as int, w);
                    vstd::arithmetic::div_mod::lemma_div_is_ordered(k as int, 9, w);
                    assert(0 <= (k as int) / w <= 9);
                }
                let ghost before = out@;
                if let Some(p) = tile_ahead(grid, tx, ty, cell.direction) {
                    out.push(p);
                }
                assert(grid::pos_list(out@) =~= grid::pos_list(before) + ahead(
                    grid@,
                    tx as int,
                    ty as int,
                    cell.direction,
                ));
                k = k + 1;
            }
        },
        Entity::Assembler | Entity::Source => {
            out = grid.perimeter(x, y);
        },
        Entity::UndergroundBelt => {
            if cell.misc == Misc::UndergroundUp {
                if let Some(p) = tile_ahead(grid, x as i32, y as i32, cell.direction) {
                    out.push(p);
                }
                assert(grid::pos_list(out@) =~= ahead(grid@, x as int, y as int, cell.direction));
            } else {
                if let Some(p) = find_exit(grid, x, y, cell.direction) {
                    out.push(p);
                }
                assert(grid::pos_list(out@) =~= tunnel_exit(
                    grid@,
                    x as int,
                    y as int,
                    cell.direction,
                    1,
                ));
            }
        },
        _ => {},
    }
    assert(grid::pos_list(out@) =~= offers(grid@, x as int, y as int));
    resolve(grid, (x, y), out)
}

/// Whether a list of positions holds `p`.
pub fn holds(v: &Vec<(usize, usize)>, p: (usize, usize)) -> (r: bool)
    ensures
        r == v@.contains(p),
        r == grid::pos_list(v@).contains(grid::pos(p)),
{
    let mut i: usize = 0;
    while i < v.len()
        invariant
            i <= v.len(),
            forall|j: int| 0 <= j < i ==> v@[j] != p,
        decreases v.len() - i,
    {
        if v[i].0 == p.0 && v[i].1 == p.1 {
            assert(grid::pos_list(v@)[i as int] == grid::pos(p));
            return true;
        }
        i = i + 1;
    }
    assert forall|j: int| 0 <= j < v@.len() implies grid::pos_list(v@)[j] != grid::pos(p) by {
        assert(v@[j] != p);
    }
    false
}

/// Name each tile by the entity standing on it, drop the tiles with nothing on
/// them and `from` itself, and keep each entity once.
///
/// A three by three machine covers nine tiles but is one entity.
pub fn resolve(grid: &Grid, from: (usize, usize), tiles: Vec<(usize, usize)>) -> (r: Vec<
    (usize, usize),
>)
    requires
        grid.wf(),
        all_inside(grid@, grid::pos_list(tiles@)),
    ensures
        grid::pos_list(r@) == entities_on(grid@, grid::pos(from), grid::pos_list(tiles@)),
{
    let ghost ts = grid::pos_list(tiles@);
    let mut out: Vec<(usize, usize)> = Vec::new();
    let mut k: usize = 0;
    while k < tiles.len()
        invariant
            grid.wf(),
            ts == grid::pos_list(tiles@),
            all_inside(grid@, ts),
            k <= tiles.len(),
            grid::pos_list(out@) == entities_on(grid@, grid::pos(from), ts.take(k as int)),
        decreases tiles.len() - k,
    {
        let (tx, ty) = tiles[k];
        assert(ts[k as int] == (tx as int, ty as int));
        assert(ts.take(k as int + 1).drop_last() =~= ts.take(k as int));
        let ghost before = out@;
        if let Some(anchor) = grid.anchor_at(tx, ty) {
            if !(anchor.0 == from.0 && anchor.1 == from.1) && !holds(&out, anchor) {
                out.push(anchor);
                assert(grid::pos_list(out@) =~= grid::pos_list(before).push(grid::pos(anchor)));
            }
        }
        k = k + 1;
    }
    assert(ts.take(ts.len() as int) =~= ts);
    out
}

/// Belts, splitters, inserters and machines pass flow on.
pub open spec fn conveys(e: Entity) -> bool {
    e is TransportBelt || e is UndergroundBelt || e is Splitter || e is Inserter || e is Assembler
}

/// An untagged sink accepts anything, a tagged one only its own item.
pub open spec fn accepts(filter: Item, carried: Item) -> bool {
    filter is Nothing || filter == carried
}

/// Whether the entity stored at `(x, y)` hands `item` on when `arrived` holds
/// what has reached each entity. A source hands on its own item and a conveyor
/// whatever reached it. A machine hands on its product once every ingredient has
/// reached it.
pub open spec fn hands_on(
    g: GridView,
    arrived: Set<(int, int, Item)>,
    x: int,
    y: int,
    item: Item,
) -> bool {
    let cell = g.at(x, y);
    match cell.entity {
        Entity::Source => item == cell.item,
        Entity::Assembler => {
            &&& item == cell.item
            &&& cell.item.is_crafted()
            &&& forall|k: int|
                0 <= k < cell.item.inputs().len() ==> arrived.contains(
                    (x, y, (#[trigger] cell.item.inputs()[k]).item),
                )
        },
        Entity::TransportBelt | Entity::UndergroundBelt | Entity::Splitter | Entity::Inserter =>
            arrived.contains((x, y, item)),
        _ => false,
    }
}

/// Whether everything that the entity at `(x, y)` hands on to a conveyor is
/// among `arrived`.
pub open spec fn settled(g: GridView, arrived: Set<(int, int, Item)>, x: int, y: int) -> bool {
    forall|t: (int, int), item: Item|
        targets(g, x, y).contains(t) && conveys(g.at(t.0, t.1).entity) && hands_on(
            g,
            arrived,
            x,
            y,
            item,
        ) ==> #[trigger] arrived.contains((t.0, t.1, item))
}

/// Whether `arrived` has everything in it that follows from what is in it.
pub open spec fn closed_under_flow(g: GridView, arrived: Set<(int, int, Item)>) -> bool {
    forall|x: int, y: int| #[trigger] g.inside(x, y) ==> settled(g, arrived, x, y)
}

/// What reaches each entity: the least set that is closed under flow.
pub open spec fn arrivals(g: GridView) -> Set<(int, int, Item)> {
    Set::new(
        |t: (int, int, Item)|
            forall|s: Set<(int, int, Item)>| #[trigger] closed_under_flow(g, s) ==> s.contains(t),
    )
}

/// Whether the conveyor at `(x, y)` hands `item` to the sink at `t`, which accepts
/// it.
pub open spec fn delivers(
    g: GridView,
    arrived: Set<(int, int, Item)>,
    x: int,
    y: int,
    t: (int, int),
    item: Item,
) -> bool {
    &&& g.inside(x, y)
    &&& conveys(g.at(x, y).entity)
    &&& targets(g, x, y).contains(t)
    &&& g.at(t.0, t.1).entity is Sink
    &&& accepts(g.at(t.0, t.1).item, item)
    &&& hands_on(g, arrived, x, y, item)
}

/// A factory works when some conveyor hands an item to a sink that accepts it.
pub open spec fn functional(g: GridView) -> bool {
    exists|x: int, y: int, t: (int, int), item: Item| #[trigger]
        delivers(g, arrivals(g), x, y, t, item)
}

/// What a machine or a conveyor hands on grows with what has reached it.
pub proof fn lemma_hands_on_monotone(
    g: GridView,
    a: Set<(int, int, Item)>,
    b: Set<(int, int, Item)>,
    x: int,
    y: int,
    item: Item,
)
    requires
        a.subset_of(b),
        hands_on(g, a, x, y, item),
    ensures
        hands_on(g, b, x, y, item),
{
}

/// What reaches each entity is itself closed under flow.
pub proof fn lemma_arrivals_closed(g: GridView)
    ensures
        closed_under_flow(g, arrivals(g)),
{
    let l = arrivals(g);
    assert forall|x: int, y: int| #[trigger] g.inside(x, y) implies settled(g, l, x, y) by {
        assert forall|t: (int, int), item: Item|
            targets(g, x, y).contains(t) && conveys(g.at(t.0, t.1).entity) && hands_on(
                g,
                l,
                x,
                y,
                item,
            ) implies #[trigger] l.contains((t.0, t.1, item)) by {
            assert forall|s: Set<(int, int, Item)>| #[trigger] closed_under_flow(g, s) implies s.contains(
                (t.0, t.1, item),
            ) by {
                assert(l.subset_of(s));
                lemma_hands_on_monotone(g, l, s, x, y, item);
                assert(settled(g, s, x, y));
            }
        }
    }
}

/// A factory in which nothing arrives anywhere but by way of a source: without a
/// source it does not work.
pub proof fn law_no_source_no_flow(g: GridView)
    requires
        forall|x: int, y: int| #[trigger] g.inside(x, y) ==> g.at(x, y).entity !is Source,
    ensures
        !functional(g),
{
    let none = Set::<(int, int, Item)>::empty();
    assert(closed_under_flow(g, none)) by {
        assert forall|x: int, y: int| #[trigger] g.inside(x, y) implies settled(g, none, x, y) by {
            assert forall|t: (int, int), item: Item|
                targets(g, x, y).contains(t) && conveys(g.at(t.0, t.1).entity) && hands_on(
                    g,
                    none,
                    x,
                    y,
                    item,
                ) implies #[trigger] none.contains((t.0, t.1, item)) by {
                let cell = g.at(x, y);
                if cell.entity is Assembler {
                    assert(none.contains((x, y, cell.item.inputs()[0].item)));
                }
            }
        }
    }
    if functional(g) {
        let (x, y, t, item) = choose|x: int, y: int, t: (int, int), item: Item| #[trigger]
            delivers(g, arrivals(g), x, y, t, item);
        assert(arrivals(g).subset_of(none));
        lemma_hands_on_monotone(g, arrivals(g), none, x, y, item);
        let cell = g.at(x, y);
        if cell.entity is Assembler {
            assert(none.contains((x, y, cell.item.inputs()[0].item)));
        }
    }
}

/// Without a sink a factory does not work.
pub proof fn law_no_sink_no_delivery(g: GridView)
    requires
        forall|x: int, y: int| #[trigger] g.inside(x, y) ==> g.at(x, y).entity !is Sink,
    ensures
        !functional(g),
{
    if functional(g) {
        let (x, y, t, item) = choose|x: int, y: int, t: (int, int), item: Item| #[trigger]
            delivers(g, arrivals(g), x, y, t, item);
        law_targets_are_other_entities(g, x, y);
        let i = targets(g, x, y).index_of(t);
        assert(targets(g, x, y)[i] == t);
    }
}

/// The positions of a kind of entity among the first `n` slots, in row order.
pub open spec fn places(g: GridView, kind: Entity, n: nat) -> Seq<(int, int)>
    decreases n,
{
    if n == 0 {
        seq![]
    } else {
        let rest = places(g, kind, (n - 1) as nat);
        let i = n - 1;
        if g.cells[i].entity == kind {
            rest.push((i % (g.width as int), i / (g.width as int)))
        } else {
            rest
        }
    }
}

proof fn lemma_places(g: GridView, kind: Entity, n: nat)
    requires
        g.valid(),
        n <= g.cells.len(),
    ensures
        forall|k: int|
            0 <= k < places(g, kind, n).len() ==> {
                let p = #[trigger] places(g, kind, n)[k];
                g.inside(p.0, p.1) && g.at(p.0, p.1).entity == kind
            },
        forall|x: int, y: int| #[trigger]
            g.inside(x, y) && g.slot(x, y) < n && g.at(x, y).entity == kind ==> places(
                g,
                kind,
                n,
            ).contains((x, y)),
    decreases n,
{
    if n > 0 {
        let i = n - 1;
        let w = g.width as int;
        lemma_places(g, kind, i as nat);
        grid::lemma_slot_surjective(g, i);
        let rest = places(g, kind, i as nat);
        let all = places(g, kind, n);
        assert forall|x: int, y: int| #[trigger]
            g.inside(x, y) && g.slot(x, y) < n && g.at(x, y).entity == kind implies all.contains(
            (x, y),
        ) by {
            if g.slot(x, y) == i {
                grid::lemma_slot_inverse(g, x, y);
                assert(all[all.len() - 1] == (x, y));
            } else {
                assert(rest.contains((x, y)));
                let k = rest.index_of((x, y));
                assert(all[k] == (x, y));
            }
        }
    }
}

/// The positions of a kind of entity, row by row.
pub fn positions(grid: &Grid, kind: Entity) -> (r: Vec<(usize, usize)>)
    requires
        grid.wf(),
    ensures
        grid::pos_list(r@) == places(grid@, kind, grid@.cells.len()),
{
    let mut v: Vec<(usize, usize)> = Vec::new();
    let mut i: usize = 0;
    while i < grid.cells.len()
        invariant
            grid.wf(),
            i <= grid.cells.len(),
            grid::pos_list(v@) == places(grid@, kind, i as nat),
        decreases grid.cells.len() - i,
    {
        let ghost before = v@;
        if grid.cells[i].entity == kind {
            proof {
                grid::lemma_slot_surjective(grid@, i as int);
            }
            v.push((i % grid.width, i / grid.width));
            assert(grid::pos_list(v@) =~= grid::pos_list(before).push(
                (i as int % grid.width as int, i as int / grid.width as int),
            ));
        }
        i = i + 1;
    }
    v
}

/// Whether an untagged sink, or one tagged `filter`, takes `carried`.
pub fn sink_accepts(filter: Item, carried: Item) -> (r: bool)
    ensures
        r == accepts(filter, carried),
{
    filter == Item::Nothing || filter == carried
}

/// Whether the entity stored at `(x, y)` passes flow on.
pub fn is_conveyor(grid: &Grid, x: usize, y: usize) -> (r: bool)
    requires
        y * grid.width + x < grid.cells.len(),
    ensures
        r == conveys(grid@.at(x as int, y as int).entity),
{
    matches!(
        grid.get(x, y).entity,
        Entity::TransportBelt
            | Entity::UndergroundBelt
            | Entity::Splitter
            | Entity::Inserter
            | Entity::Assembler
    )
}

/// The item with category `k`.
pub open spec fn item_of(k: int) -> Item {
    if k == 1 {
        Item::IronPlate
    } else if k == 2 {
        Item::CopperPlate
    } else if k == 3 {
        Item::IronGear
    } else if k == 4 {
        Item::CopperCable
    } else if k == 5 {
        Item::GreenCircuit
    } else {
        Item::Nothing
    }
}

/// The items with a set flag among the first `n` categories.
pub open spec fn flagged(flags: Seq<bool>, n: nat) -> Seq<Item>
    decreases n,
{
    if n == 0 {
        seq![]
    } else if flags[n - 1] {
        flagged(flags, (n - 1) as nat).push(item_of(n - 1))
    } else {
        flagged(flags, (n - 1) as nat)
    }
}

proof fn lemma_flagged(flags: Seq<bool>, n: nat, item: Item)
    requires
        n <= 6,
        flags.len() == 6,
    ensures
        flagged(flags, n).contains(item) <==> item.code() < n && flags[item.code() as int],
    decreases n,
{
    if n > 0 {
        lemma_flagged(flags, (n - 1) as nat, item);
        let rest = flagged(flags, (n - 1) as nat);
        let all = flagged(flags, n);
        if rest.contains(item) {
            let k = rest.index_of(item);
            assert(all[k] == item);
        }
        if flags[n - 1] && item == item_of(n - 1) {
            assert(all[all.len() - 1] == item);
        }
        if all.contains(item) && !rest.contains(item) {
            let k = all.index_of(item);
            assert(k == all.len() - 1 || rest[k] == item);
        }
    }
}

/// What a cell hands on when `flags` tells which items have reached it.
pub open spec fn emission(cell: Cell, flags: Seq<bool>) -> Seq<Item> {
    if cell.entity is Assembler {
        if cell.item.is_crafted() && forall|k: int|
            0 <= k < cell.item.inputs().len() ==> flags[(#[trigger] cell.item.inputs()[k]).item.code() as int] {
            seq![cell.item]
        } else {
            seq![]
        }
    } else {
        flagged(flags, 6)
    }
}

/// What the cell at `(x, y)` hands on, given everything that has reached it.
///
/// A conveyor passes on whatever reached it. An assembler hands on its product,
/// and only once every ingredient has turned up.
pub fn emits(grid: &Grid, arriving: &[bool; 6], x: usize, y: usize) -> (r: Vec<Item>)
    requires
        y * grid.width + x < grid.cells.len(),
    ensures
        r@ == emission(grid@.at(x as int, y as int), arriving@),
{
    let cell = grid.get(x, y);
    let mut out: Vec<Item> = Vec::new();
    if cell.entity != Entity::Assembler {
        let mut k: usize = 0;
        while k < 6
            invariant
                k <= 6,
                out@ == flagged(arriving@, k as nat),
            decreases 6 - k,
        {
            if arriving[k] {
                if let Some(item) = Item::from_id(k) {
                    assert(item == item_of(k as int));
                    out.push(item);
                }
            }
            k = k + 1;
        }
        return out;
    }
    let inputs = cell.item.ingredients();
    if inputs.len() == 0 {
        return out;
    }
    let mut k: usize = 0;
    while k < inputs.len()
        invariant
            k <= inputs.len(),
            inputs@ == cell.item.inputs(),
            cell == grid@.at(x as int, y as int),
            cell.entity is Assembler,
            out@ == Seq::<Item>::empty(),
            forall|j: int| 0 <= j < k ==> arriving@[(#[trigger] inputs@[j]).item.code() as int],
        decreases inputs.len() - k,
    {
        if !arriving[inputs[k].item.id()] {
            assert(!arriving@[cell.item.inputs()[k as int].item.code() as int]);
            return out;
        }
        k = k + 1;
    }
    out.push(cell.item);
    assert(out@ =~= seq![cell.item]);
    out
}

/// What has reached each entity, read off the flags of every slot.
pub open spec fn reached(g: GridView, rows: Seq<[bool; 6]>) -> Set<(int, int, Item)> {
    Set::new(
        |t: (int, int, Item)|
            g.inside(t.0, t.1) && rows[g.slot(t.0, t.1)]@[t.2.code() as int],
    )
}

/// How many flags of a row are not set.
pub open spec fn unset(row: Seq<bool>, n: nat) -> nat
    decreases n,
{
    if n == 0 {
        0
    } else {
        unset(row, (n - 1) as nat) + if row[n - 1] { 0nat } else { 1nat }
    }
}

/// How many flags of the first `n` rows are not set.
pub open spec fn unset_rows(rows: Seq<[bool; 6]>, n: nat) -> nat
    decreases n,
{
    if n == 0 {
        0
    } else {
        unset_rows(rows, (n - 1) as nat) + unset(rows[n - 1]@, 6)
    }
}

pub proof fn lemma_unset_update(row: Seq<bool>, j: int, n: nat)
    requires
        n <= row.len(),
        0 <= j < row.len(),
        !row[j],
    ensures
        unset(row.update(j, true), n) == unset(row, n) - (if j < n { 1int } else { 0int }),
    decreases n,
{
    if n > 0 {
        lemma_unset_update(row, j, (n - 1) as nat);
    }
}

proof fn lemma_unset_rows_update(rows: Seq<[bool; 6]>, i: int, row: [bool; 6], j: int, n: nat)
    requires
        n <= rows.len(),
        0 <= i < rows.len(),
        0 <= j < 6,
        !rows[i]@[j],
        row@ == rows[i]@.update(j, true),
    ensures
        unset_rows(rows.update(i, row), n) == unset_rows(rows, n) - (if i < n { 1int } else {
            0int
        }),
    decreases n,
{
    if n > 0 {
        lemma_unset_rows_update(rows, i, row, j, (n - 1) as nat);
        lemma_unset_update(rows[i]@, j, 6);
    }
}

/// Record that `carried` reaches `at`, and wake the entity there if that is news.
///
/// A machine that was asked while only one ingredient had arrived handed nothing
/// on, and must be asked again once the other one turns up.
pub fn deliver(
    grid: &Grid,
    arriving: &mut Vec<[bool; 6]>,
    queue: &mut VecDeque<(usize, usize)>,
    at: (usize, usize),
    carried: Item,
)
    requires
        grid.wf(),
        grid@.inside(at.0 as int, at.1 as int),
        old(arriving).len() == grid.cells.len(),
    ensures
        final(arriving).len() == old(arriving).len(),
        forall|i: int|
            0 <= i < old(arriving).len() && i != grid@.slot(at.0 as int, at.1 as int)
                ==> final(arriving)@[i] == old(arriving)@[i],
        reached(grid@, final(arriving)@) == reached(grid@, old(arriving)@).insert(
            (at.0 as int, at.1 as int, carried),
        ),
        reached(grid@, old(arriving)@).contains((at.0 as int, at.1 as int, carried))
            ==> final(arriving)@ == old(arriving)@ && final(queue)@ == old(queue)@,
        !reached(grid@, old(arriving)@).contains((at.0 as int, at.1 as int, carried)) ==> {
            &&& final(queue)@ == old(queue)@.push(at)
            &&& unset_rows(final(arriving)@, final(arriving).len() as nat) == unset_rows(
                old(arriving)@,
                old(arriving).len() as nat,
            ) - 1
        },
{
    proof {
        grid::lemma_slot(grid@, at.0 as int, at.1 as int);
    }
    let i = grid.idx(at.0, at.1);
    let k = carried.id();
    let mut row = arriving[i];
    if !row[k] {
        row[k] = true;
        arriving.set(i, row);
        queue.push_back(at);
        proof {
            lemma_unset_rows_update(
                old(arriving)@,
                i as int,
                row,
                k as int,
                old(arriving).len() as nat,
            );
            let a = reached(grid@, old(arriving)@);
            let b = reached(grid@, arriving@);
            assert forall|t: (int, int, Item)| b.contains(t) <==> a.insert(
                (at.0 as int, at.1 as int, carried),
            ).contains(t) by {
                if grid@.inside(t.0, t.1) {
                    grid::lemma_slot(grid@, t.0, t.1);
                    if grid@.slot(t.0, t.1) == i {
                        grid::lemma_slot_injective(grid@, t.0, t.1, at.0 as int, at.1 as int);
                    }
                }
            }
            assert(b =~= a.insert((at.0 as int, at.1 as int, carried)));
        }
    } else {
        assert(reached(grid@, arriving@) =~= reached(grid@, arriving@).insert(
            (at.0 as int, at.1 as int, carried),
        ));
    }
}

/// Everything that has reached an entity follows from the rules of flow, and every
/// entity that is neither waiting nor in `later` has handed on all it can.
spec fn flowing(
    g: GridView,
    arrived: Set<(int, int, Item)>,
    waiting: Seq<(int, int)>,
    later: Set<(int, int)>,
) -> bool {
    &&& arrived.subset_of(arrivals(g))
    &&& forall|x: int, y: int| #[trigger]
        g.inside(x, y) && !waiting.contains((x, y)) && !later.contains((x, y)) ==> settled(
            g,
            arrived,
            x,
            y,
        )
    &&& forall|k: int|
        0 <= k < waiting.len() ==> g.inside((#[trigger] waiting[k]).0, waiting[k].1) && conveys(
            g.at(waiting[k].0, waiting[k].1).entity,
        )
}

/// An item that follows may be recorded as arrived: the entity it reaches is woken
/// and no other entity has more to hand on because of it.
proof fn lemma_flow_step(
    g: GridView,
    arrived: Set<(int, int, Item)>,
    waiting: Seq<(int, int)>,
    later: Set<(int, int)>,
    t: (int, int),
    item: Item,
)
    requires
        g.inside(t.0, t.1),
        conveys(g.at(t.0, t.1).entity),
        arrivals(g).contains((t.0, t.1, item)),
        flowing(g, arrived, waiting, later),
    ensures
        flowing(g, arrived.insert((t.0, t.1, item)), waiting.push(t), later),
{
    let more = arrived.insert((t.0, t.1, item));
    let awake = waiting.push(t);
    assert forall|x: int, y: int| #[trigger]
        g.inside(x, y) && !awake.contains((x, y)) && !later.contains((x, y)) implies settled(
        g,
        more,
        x,
        y,
    ) by {
        assert(awake[waiting.len() as int] == t);
        assert((x, y) != t);
        if waiting.contains((x, y)) {
            let k = waiting.index_of((x, y));
            assert(awake[k] == (x, y));
        }
        assert(settled(g, arrived, x, y));
        lemma_hands_on_local(g, arrived, more, x, y);
        assert forall|u: (int, int), i: Item|
            targets(g, x, y).contains(u) && conveys(g.at(u.0, u.1).entity) && hands_on(
                g,
                more,
                x,
                y,
                i,
            ) implies #[trigger] more.contains((u.0, u.1, i)) by {
            assert(arrived.contains((u.0, u.1, i)));
        }
    }
}

/// What an entity hands on depends only on what has reached that entity.
proof fn lemma_hands_on_local(
    g: GridView,
    a: Set<(int, int, Item)>,
    b: Set<(int, int, Item)>,
    x: int,
    y: int,
)
    requires
        forall|i: Item| a.contains((x, y, i)) == b.contains((x, y, i)),
    ensures
        forall|i: Item| hands_on(g, a, x, y, i) == hands_on(g, b, x, y, i),
{
}

/// What a conveyor emits is exactly what the rules say it hands on.
proof fn lemma_emission(g: GridView, rows: Seq<[bool; 6]>, x: int, y: int, item: Item)
    requires
        g.inside(x, y),
        conveys(g.at(x, y).entity),
    ensures
        emission(g.at(x, y), rows[g.slot(x, y)]@).contains(item) <==> hands_on(
            g,
            reached(g, rows),
            x,
            y,
            item,
        ),
{
    let cell = g.at(x, y);
    let flags = rows[g.slot(x, y)]@;
    lemma_flagged(flags, 6, item);
    if cell.entity is Assembler {
        let inputs = cell.item.inputs();
        if hands_on(g, reached(g, rows), x, y, item) {
            assert forall|k: int| 0 <= k < inputs.len() implies flags[(#[trigger] inputs[k]).item.code() as int] by {
                assert(reached(g, rows).contains((x, y, inputs[k].item)));
            }
            assert(emission(cell, flags)[0] == item);
        }
    }
}

/// Entities that are not woken have received nothing new, and none that was
/// waiting is forgotten.
spec fn undisturbed(
    before: Set<(int, int, Item)>,
    waiting_before: Seq<(int, int)>,
    after: Set<(int, int, Item)>,
    waiting_after: Seq<(int, int)>,
) -> bool {
    &&& forall|x: int, y: int, i: Item|
        !waiting_after.contains((x, y)) ==> #[trigger] after.contains((x, y, i))
            == before.contains((x, y, i))
    &&& forall|q: (int, int)| #[trigger]
        waiting_before.contains(q) ==> waiting_after.contains(q)
}

proof fn lemma_undisturbed_step(
    before: Set<(int, int, Item)>,
    waiting_before: Seq<(int, int)>,
    after: Set<(int, int, Item)>,
    waiting_after: Seq<(int, int)>,
    t: (int, int),
    item: Item,
)
    requires
        undisturbed(before, waiting_before, after, waiting_after),
    ensures
        undisturbed(
            before,
            waiting_before,
            after.insert((t.0, t.1, item)),
            waiting_after.push(t),
        ),
{
    let w = waiting_after.push(t);
    assert(w[waiting_after.len() as int] == t);
    assert forall|q: (int, int)| waiting_after.contains(q) implies w.contains(q) by {
        let k = waiting_after.index_of(q);
        assert(w[k] == q);
    }
    assert forall|q: (int, int)| #[trigger] waiting_before.contains(q) implies w.contains(q) by {
        assert(waiting_after.contains(q));
    }
}

/// Only an entity that is waiting or is `p` may have something for a sink.
spec fn quiet(
    g: GridView,
    arrived: Set<(int, int, Item)>,
    waiting: Seq<(int, int)>,
    p: Option<(int, int)>,
) -> bool {
    forall|x: int, y: int, t: (int, int), item: Item| #[trigger]
        delivers(g, arrived, x, y, t, item) ==> waiting.contains((x, y)) || p == Some((x, y))
}

proof fn lemma_quiet_kept(
    g: GridView,
    before: Set<(int, int, Item)>,
    waiting_before: Seq<(int, int)>,
    after: Set<(int, int, Item)>,
    waiting_after: Seq<(int, int)>,
    p: Option<(int, int)>,
)
    requires
        undisturbed(before, waiting_before, after, waiting_after),
        quiet(g, before, waiting_before, p),
    ensures
        quiet(g, after, waiting_after, p),
{
    assert forall|x: int, y: int, t: (int, int), item: Item| #[trigger]
        delivers(g, after, x, y, t, item) implies waiting_after.contains((x, y)) || p == Some(
        (x, y),
    ) by {
        if !waiting_after.contains((x, y)) {
            assert forall|i: Item| before.contains((x, y, i)) == after.contains((x, y, i)) by {}
            lemma_hands_on_local(g, before, after, x, y);
            assert(delivers(g, before, x, y, t, item));
        }
    }
}

/// Record that everything the entity at `p` pushes `item` into has received it.
fn hand_over(
    grid: &Grid,
    p: (usize, usize),
    item: Item,
    arriving: &mut Vec<[bool; 6]>,
    queue: &mut VecDeque<(usize, usize)>,
    later: Ghost<Set<(int, int)>>,
)
    requires
        grid.wf(),
        grid@.inside(p.0 as int, p.1 as int),
        old(arriving).len() == grid.cells.len(),
        hands_on(grid@, arrivals(grid@), p.0 as int, p.1 as int, item),
        flowing(grid@, reached(grid@, old(arriving)@), grid::pos_list(old(queue)@), later@),
    ensures
        final(arriving).len() == old(arriving).len(),
        flowing(grid@, reached(grid@, final(arriving)@), grid::pos_list(final(queue)@), later@),
        reached(grid@, old(arriving)@).subset_of(reached(grid@, final(arriving)@)),
        forall|t: (int, int)|
            targets(grid@, p.0 as int, p.1 as int).contains(t) && conveys(
                grid@.at(t.0, t.1).entity,
            ) ==> #[trigger] reached(grid@, final(arriving)@).contains((t.0, t.1, item)),
        final(arriving)@[grid@.slot(p.0 as int, p.1 as int)]@ == old(arriving)@[grid@.slot(
            p.0 as int,
            p.1 as int,
        )]@,
        unset_rows(final(arriving)@, final(arriving).len() as nat) <= unset_rows(
            old(arriving)@,
            old(arriving).len() as nat,
        ),
        unset_rows(final(arriving)@, final(arriving).len() as nat) == unset_rows(
            old(arriving)@,
            old(arriving).len() as nat,
        ) ==> final(queue)@ == old(queue)@,
        undisturbed(
            reached(grid@, old(arriving)@),
            grid::pos_list(old(queue)@),
            reached(grid@, final(arriving)@),
            grid::pos_list(final(queue)@),
        ),
{
    let ghost g = grid@;
    let ghost ts = targets(g, p.0 as int, p.1 as int);
    let ghost home = g.slot(p.0 as int, p.1 as int);
    let next = flow_targets(grid, p.0, p.1);
    proof {
        lemma_arrivals_closed(g);
        assert(settled(g, arrivals(g), p.0 as int, p.1 as int));
        law_targets_are_other_entities(g, p.0 as int, p.1 as int);
        grid::lemma_slot(g, p.0 as int, p.1 as int);
    }
    let mut k: usize = 0;
    while k < next.len()
        invariant
            grid.wf(),
            g == grid@,
            g.inside(p.0 as int, p.1 as int),
            home == g.slot(p.0 as int, p.1 as int),
            0 <= home < g.width * g.height,
            ts == targets(g, p.0 as int, p.1 as int),
            grid::pos_list(next@) == ts,
            all_inside(g, ts),
            forall|i: int| 0 <= i < ts.len() ==> (#[trigger] ts[i]) != (p.0 as int, p.1 as int),
            settled(g, arrivals(g), p.0 as int, p.1 as int),
            hands_on(g, arrivals(g), p.0 as int, p.1 as int, item),
            k <= next.len(),
            arriving.len() == grid.cells.len(),
            old(arriving).len() == grid.cells.len(),
            flowing(g, reached(g, arriving@), grid::pos_list(queue@), later@),
            reached(g, old(arriving)@).subset_of(reached(g, arriving@)),
            forall|i: int|
                0 <= i < k && conveys(g.at((#[trigger] ts[i]).0, ts[i].1).entity) ==> reached(
                    g,
                    arriving@,
                ).contains((ts[i].0, ts[i].1, item)),
            arriving@[home]@ == old(arriving)@[home]@,
            unset_rows(arriving@, arriving.len() as nat) <= unset_rows(
                old(arriving)@,
                old(arriving).len() as nat,
            ),
            unset_rows(arriving@, arriving.len() as nat) == unset_rows(
                old(arriving)@,
                old(arriving).len() as nat,
            ) ==> queue@ == old(queue)@,
            undisturbed(
                reached(g, old(arriving)@),
                grid::pos_list(old(queue)@),
                reached(g, arriving@),
                grid::pos_list(queue@),
            ),
        decreases next.len() - k,
    {
        let (tx, ty) = next[k];
        assert(ts[k as int] == (tx as int, ty as int));
        proof {
            grid::lemma_slot(g, tx as int, ty as int);
        }
        if is_conveyor(grid, tx, ty) {
            let ghost rows = arriving@;
            let ghost waiting = grid::pos_list(queue@);
            proof {
                assert(ts.contains((tx as int, ty as int)));
                assert(arrivals(g).contains((tx as int, ty as int, item)));
                lemma_flow_step(
                    g,
                    reached(g, rows),
                    waiting,
                    later@,
                    (tx as int, ty as int),
                    item,
                );
            }
            deliver(grid, arriving, queue, (tx, ty), item);
            proof {
                if g.slot(tx as int, ty as int) == home {
                    grid::lemma_slot_injective(
                        g,
                        tx as int,
                        ty as int,
                        p.0 as int,
                        p.1 as int,
                    );
                }
                if !reached(g, rows).contains((tx as int, ty as int, item)) {
                    assert(grid::pos_list(queue@) =~= waiting.push((tx as int, ty as int)));
                    lemma_undisturbed_step(
                        reached(g, old(arriving)@),
                        grid::pos_list(old(queue)@),
                        reached(g, rows),
                        waiting,
                        (tx as int, ty as int),
                        item,
                    );
                }
            }
        }
        k = k + 1;
    }
    proof {
        assert forall|t: (int, int)|
            ts.contains(t) && conveys(g.at(t.0, t.1).entity) implies #[trigger] reached(
            g,
            arriving@,
        ).contains((t.0, t.1, item)) by {
            let i = ts.index_of(t);
            assert(ts[i] == t);
        }
    }
}

/// Let every source hand its item on.
fn seed(
    grid: &Grid,
    sources: &Vec<(usize, usize)>,
    arriving: &mut Vec<[bool; 6]>,
    queue: &mut VecDeque<(usize, usize)>,
)
    requires
        grid.wf(),
        grid::pos_list(sources@) == places(grid@, Entity::Source, grid@.cells.len()),
        old(arriving).len() == grid.cells.len(),
        reached(grid@, old(arriving)@) == Set::<(int, int, Item)>::empty(),
        old(queue)@.len() == 0,
    ensures
        final(arriving).len() == old(arriving).len(),
        flowing(
            grid@,
            reached(grid@, final(arriving)@),
            grid::pos_list(final(queue)@),
            Set::empty(),
        ),
        quiet(grid@, reached(grid@, final(arriving)@), grid::pos_list(final(queue)@), None),
{
    let ghost g = grid@;
    let ghost ps = places(g, Entity::Source, g.cells.len());
    let ghost later = Set::new(|q: (int, int)| ps.contains(q));
    proof {
        lemma_places(g, Entity::Source, g.cells.len());
        let none = reached(g, arriving@);
        assert forall|x: int, y: int| #[trigger]
            g.inside(x, y) && !later.contains((x, y)) implies settled(g, none, x, y) by {
            grid::lemma_slot(g, x, y);
            let cell = g.at(x, y);
            assert(!ps.contains((x, y)));
            assert(cell.entity !is Source);
            assert forall|i: Item| !hands_on(g, none, x, y, i) by {
                if cell.entity is Assembler && hands_on(g, none, x, y, i) {
                    assert(none.contains((x, y, cell.item.inputs()[0].item)));
                }
            }
        }
        assert forall|x: int, y: int, t: (int, int), item: Item| !#[trigger] delivers(
            g,
            none,
            x,
            y,
            t,
            item,
        ) by {
            let cell = g.at(x, y);
            if cell.entity is Assembler && hands_on(g, none, x, y, item) {
                assert(none.contains((x, y, cell.item.inputs()[0].item)));
            }
        }
    }
    let mut k: usize = 0;
    while k < sources.len()
        invariant
            grid.wf(),
            g == grid@,
            ps == places(g, Entity::Source, g.cells.len()),
            grid::pos_list(sources@) == ps,
            forall|j: int|
                0 <= j < ps.len() ==> {
                    let q = #[trigger] ps[j];
                    g.inside(q.0, q.1) && g.at(q.0, q.1).entity == Entity::Source
                },
            k <= sources.len(),
            arriving.len() == grid.cells.len(),
            flowing(g, reached(g, arriving@), grid::pos_list(queue@), later),
            quiet(g, reached(g, arriving@), grid::pos_list(queue@), None),
            forall|q: (int, int)| #[trigger]
                later.contains(q) ==> exists|j: int| k <= j < ps.len() && ps[j] == q,
        decreases sources.len() - k,
    {
        let (sx, sy) = sources[k];
        assert(ps[k as int] == (sx as int, sy as int));
        proof {
            grid::lemma_slot(g, sx as int, sy as int);
        }
        let carried = grid.get(sx, sy).item;
        let ghost rows = arriving@;
        let ghost waiting = grid::pos_list(queue@);
        hand_over(grid, (sx, sy), carried, arriving, queue, Ghost(later));
        proof {
            lemma_quiet_kept(
                g,
                reached(g, rows),
                waiting,
                reached(g, arriving@),
                grid::pos_list(queue@),
                None,
            );
            let now = later.remove((sx as int, sy as int));
            let a = reached(g, arriving@);
            assert(settled(g, a, sx as int, sy as int));
            assert forall|q: (int, int)| #[trigger] now.contains(q) implies exists|j: int|
                k + 1 <= j < ps.len() && ps[j] == q by {
                assert(later.contains(q));
                let j = choose|j: int| k <= j < ps.len() && ps[j] == q;
                assert(j != k);
            }
            assert(flowing(g, a, grid::pos_list(queue@), now));
            later = now;
        }
        k = k + 1;
    }
    assert(later =~= Set::empty());
}

/// Whether the entity at `(x, y)` pushes `carried` into a sink that accepts it.
fn feeds_sink(grid: &Grid, x: usize, y: usize, carried: Item) -> (r: bool)
    requires
        grid.wf(),
        grid@.inside(x as int, y as int),
    ensures
        r == exists|t: (int, int)| #[trigger]
            targets(grid@, x as int, y as int).contains(t) && grid@.at(t.0, t.1).entity is Sink
                && accepts(grid@.at(t.0, t.1).item, carried),
{
    let ghost g = grid@;
    let ghost ts = targets(g, x as int, y as int);
    let next = flow_targets(grid, x, y);
    proof {
        law_targets_are_other_entities(g, x as int, y as int);
    }
    let mut k: usize = 0;
    while k < next.len()
        invariant
            grid.wf(),
            g == grid@,
            ts == targets(g, x as int, y as int),
            grid::pos_list(next@) == ts,
            all_inside(g, ts),
            k <= next.len(),
            forall|i: int|
                0 <= i < k ==> !(g.at((#[trigger] ts[i]).0, ts[i].1).entity is Sink && accepts(
                    g.at(ts[i].0, ts[i].1).item,
                    carried,
                )),
        decreases next.len() - k,
    {
        let (tx, ty) = next[k];
        assert(ts[k as int] == (tx as int, ty as int));
        proof {
            grid::lemma_slot(g, tx as int, ty as int);
        }
        let cell = grid.get(tx, ty);
        if cell.entity == Entity::Sink && sink_accepts(cell.item, carried) {
            assert(ts.contains((tx as int, ty as int)));
            return true;
        }
        k = k + 1;
    }
    assert forall|t: (int, int)| #[trigger] ts.contains(t) implies !(g.at(t.0, t.1).entity is Sink
        && accepts(g.at(t.0, t.1).item, carried)) by {
        let i = ts.index_of(t);
        assert(ts[i] == t);
    }
    false
}

/// Let every woken entity hand on what it has, until a sink accepts something or
/// nothing new arrives anywhere.
fn spread(
    grid: &Grid,
    arriving: &mut Vec<[bool; 6]>,
    queue: &mut VecDeque<(usize, usize)>,
) -> (r: bool)
    requires
        grid.wf(),
        old(arriving).len() == grid.cells.len(),
        flowing(
            grid@,
            reached(grid@, old(arriving)@),
            grid::pos_list(old(queue)@),
            Set::empty(),
        ),
        quiet(grid@, reached(grid@, old(arriving)@), grid::pos_list(old(queue)@), None),
    ensures
        r == functional(grid@),
{
    let ghost g = grid@;
    while queue.len() > 0
        invariant
            grid.wf(),
            g == grid@,
            arriving.len() == grid.cells.len(),
            flowing(g, reached(g, arriving@), grid::pos_list(queue@), Set::empty()),
            quiet(g, reached(g, arriving@), grid::pos_list(queue@), None),
        decreases unset_rows(arriving@, arriving.len() as nat), queue@.len(),
    {
        let ghost waiting = grid::pos_list(queue@);
        if let Some((x, y)) = queue.pop_front() {
            let ghost p = (x as int, y as int);
            proof {
                lemma_pop(g, reached(g, arriving@), waiting);
                assert(waiting[0] == p);
                assert(grid::pos_list(queue@) =~= waiting.subrange(1, waiting.len() as int));
                grid::lemma_slot(g, p.0, p.1);
            }
            if hand_over_all(grid, (x, y), arriving, queue) {
                return true;
            }
        }
    }
    proof {
        let a = reached(g, arriving@);
        assert(grid::pos_list(queue@).len() == 0);
        assert(closed_under_flow(g, a));
        assert(arrivals(g).subset_of(a));
        assert(a =~= arrivals(g));
        if functional(g) {
            let (x, y, t, item) = choose|x: int, y: int, t: (int, int), item: Item| #[trigger]
                delivers(g, arrivals(g), x, y, t, item);
            assert(delivers(g, a, x, y, t, item));
        }
    }
    false
}

/// Taking the first entity off the queue leaves that entity to be dealt with.
proof fn lemma_pop(g: GridView, arrived: Set<(int, int, Item)>, waiting: Seq<(int, int)>)
    requires
        waiting.len() > 0,
        flowing(g, arrived, waiting, Set::empty()),
        quiet(g, arrived, waiting, None),
    ensures
        flowing(
            g,
            arrived,
            waiting.subrange(1, waiting.len() as int),
            Set::empty().insert(waiting[0]),
        ),
        quiet(g, arrived, waiting.subrange(1, waiting.len() as int), Some(waiting[0])),
        g.inside(waiting[0].0, waiting[0].1),
        conveys(g.at(waiting[0].0, waiting[0].1).entity),
{
    let rest = waiting.subrange(1, waiting.len() as int);
    assert forall|q: (int, int)| waiting.contains(q) && q != waiting[0] implies rest.contains(
        q,
    ) by {
        let k = waiting.index_of(q);
        assert(rest[k - 1] == q);
    }
    assert forall|k: int| 0 <= k < rest.len() implies g.inside(
        (#[trigger] rest[k]).0,
        rest[k].1,
    ) && conveys(g.at(rest[k].0, rest[k].1).entity) by {
        assert(rest[k] == waiting[k + 1]);
    }
}

/// Let the entity at `p` hand on everything it has; `true` as soon as a sink
/// accepts something.
fn hand_over_all(
    grid: &Grid,
    p: (usize, usize),
    arriving: &mut Vec<[bool; 6]>,
    queue: &mut VecDeque<(usize, usize)>,
) -> (r: bool)
    requires
        grid.wf(),
        grid@.inside(p.0 as int, p.1 as int),
        conveys(grid@.at(p.0 as int, p.1 as int).entity),
        old(arriving).len() == grid.cells.len(),
        flowing(
            grid@,
            reached(grid@, old(arriving)@),
            grid::pos_list(old(queue)@),
            Set::empty().insert(grid::pos(p)),
        ),
        quiet(
            grid@,
            reached(grid@, old(arriving)@),
            grid::pos_list(old(queue)@),
            Some(grid::pos(p)),
        ),
    ensures
        r ==> functional(grid@),
        !r ==> {
            &&& final(arriving).len() == old(arriving).len()
            &&& flowing(
                grid@,
                reached(grid@, final(arriving)@),
                grid::pos_list(final(queue)@),
                Set::empty(),
            )
            &&& quiet(grid@, reached(grid@, final(arriving)@), grid::pos_list(final(queue)@), None)
            &&& unset_rows(final(arriving)@, final(arriving).len() as nat) <= unset_rows(
                old(arriving)@,
                old(arriving).len() as nat,
            )
            &&& unset_rows(final(arriving)@, final(arriving).len() as nat) == unset_rows(
                old(arriving)@,
                old(arriving).len() as nat,
            ) ==> final(queue)@ == old(queue)@
        },
{
    let ghost g = grid@;
    let ghost (px, py) = grid::pos(p);
    let ghost home = g.slot(px, py);
    let ghost later = Set::empty().insert((px, py));
    proof {
        grid::lemma_slot(g, px, py);
    }
    let offered = emits(grid, &arriving[grid.idx(p.0, p.1)], p.0, p.1);
    let ghost flags = arriving@[home]@;
    let mut c: usize = 0;
    while c < offered.len()
        invariant
            grid.wf(),
            g == grid@,
            (px, py) == grid::pos(p),
            home == g.slot(px, py),
            0 <= home < g.cells.len(),
            g.inside(px, py),
            conveys(g.at(px, py).entity),
            later == Set::empty().insert((px, py)),
            offered@ == emission(g.at(px, py), flags),
            c <= offered.len(),
            arriving.len() == grid.cells.len(),
            old(arriving).len() == grid.cells.len(),
            arriving@[home]@ == flags,
            flowing(g, reached(g, arriving@), grid::pos_list(queue@), later),
            quiet(g, reached(g, arriving@), grid::pos_list(queue@), Some((px, py))),
            forall|j: int, t: (int, int)|
                0 <= j < c && #[trigger] targets(g, px, py).contains(t) && conveys(
                    g.at(t.0, t.1).entity,
                ) ==> reached(g, arriving@).contains((t.0, t.1, #[trigger] offered@[j])),
            forall|j: int, t: (int, int)|
                0 <= j < c && #[trigger] targets(g, px, py).contains(t) && g.at(
                    t.0,
                    t.1,
                ).entity is Sink ==> !accepts(g.at(t.0, t.1).item, #[trigger] offered@[j]),
            unset_rows(arriving@, arriving.len() as nat) <= unset_rows(
                old(arriving)@,
                old(arriving).len() as nat,
            ),
            unset_rows(arriving@, arriving.len() as nat) == unset_rows(
                old(arriving)@,
                old(arriving).len() as nat,
            ) ==> queue@ == old(queue)@,
        decreases offered.len() - c,
    {
        let carried = offered[c];
        let ghost rows = arriving@;
        let ghost waiting = grid::pos_list(queue@);
        proof {
            lemma_emission(g, rows, px, py, carried);
            assert(offered@.contains(carried));
            lemma_hands_on_monotone(g, reached(g, rows), arrivals(g), px, py, carried);
        }
        if feeds_sink(grid, p.0, p.1, carried) {
            proof {
                let t = choose|t: (int, int)| #[trigger]
                    targets(g, px, py).contains(t) && g.at(t.0, t.1).entity is Sink && accepts(
                        g.at(t.0, t.1).item,
                        carried,
                    );
                assert(delivers(g, arrivals(g), px, py, t, carried));
            }
            return true;
        }
        hand_over(grid, p, carried, arriving, queue, Ghost(later));
        proof {
            lemma_quiet_kept(
                g,
                reached(g, rows),
                waiting,
                reached(g, arriving@),
                grid::pos_list(queue@),
                Some((px, py)),
            );
        }
        c = c + 1;
    }
    proof {
        let a = reached(g, arriving@);
        let waiting = grid::pos_list(queue@);
        assert(settled(g, a, px, py)) by {
            assert forall|t: (int, int), item: Item|
                targets(g, px, py).contains(t) && conveys(g.at(t.0, t.1).entity) && hands_on(
                    g,
                    a,
                    px,
                    py,
                    item,
                ) implies #[trigger] a.contains((t.0, t.1, item)) by {
                lemma_emission(g, arriving@, px, py, item);
                let j = offered@.index_of(item);
                assert(offered@[j] == item);
            }
        }
        assert forall|x: int, y: int, t: (int, int), item: Item| #[trigger]
            delivers(g, a, x, y, t, item) implies waiting.contains((x, y)) by {
            if (x, y) == (px, py) {
                lemma_emission(g, arriving@, px, py, item);
                let j = offered@.index_of(item);
                assert(offered@[j] == item);
            }
        }
    }
    false
}

/// Whether a source's item reaches a sink that accepts it.
///
/// The carried item travels with the flow: belts pass it on unchanged, an
/// assembler takes its ingredients and hands on its product, and a tagged sink
/// only accepts its own item. Connecting source and sink is therefore not enough.
pub fn item_reaches_sink(grid: &Grid) -> (r: bool)
    requires
        grid.wf(),
    ensures
        r == functional(grid@),
{
    let sources = positions(grid, Entity::Source);
    let sinks = positions(grid, Entity::Sink);
    let ghost g = grid@;
    proof {
        lemma_places(g, Entity::Source, g.cells.len());
        lemma_places(g, Entity::Sink, g.cells.len());
        lemma_arrivals_closed(g);
        assert forall|x: int, y: int| #[trigger] g.inside(x, y) implies g.slot(x, y) < g.cells.len() by {
            grid::lemma_slot(g, x, y);
        }
    }
    if sources.is_empty() || sinks.is_empty() {
        proof {
            if sources@.len() == 0 {
                assert(places(g, Entity::Source, g.cells.len()).len() == 0);
                law_no_source_no_flow(g);
            } else {
                assert(places(g, Entity::Sink, g.cells.len()).len() == 0);
                law_no_sink_no_delivery(g);
            }
        }
        return false;
    }
    let mut arriving: Vec<[bool; 6]> = vec![[false; 6]; grid.cells.len()];
    let mut queue: VecDeque<(usize, usize)> = VecDeque::new();
    assert(reached(g, arriving@) =~= Set::empty()) by {
        assert forall|t: (int, int, Item)| !reached(g, arriving@).contains(t) by {
            if g.inside(t.0, t.1) {
                grid::lemma_slot(g, t.0, t.1);
            }
        }
    }
    seed(grid, &sources, &mut arriving, &mut queue);
    spread(grid, &mut arriving, &mut queue)
}

} // verus!
