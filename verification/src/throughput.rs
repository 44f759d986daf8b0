//! How flow runs through a factory: who feeds whom, and in which order the entities
//! take their turn.
//!
//! The rates themselves are real numbers and are computed on top of this.

use vstd::prelude::*;
use std::collections::VecDeque;
use crate::sim;
use crate::sim::{flow_targets, holds};
use crate::world::grid;
use crate::world::grid::GridView;
use crate::world::{Entity, Grid};

pub mod delivery;

verus! {

/// Whether the entity at `q` takes what the one at `p` offers. A sink takes anything,
/// an inserter takes from whatever stands on the tile behind it, a machine takes from
/// inserters and sources only, and a conveyor takes from anything it does not feed.
pub open spec fn takes(g: GridView, q: (int, int), p: (int, int)) -> bool {
    let cell = g.at(q.0, q.1);
    match cell.entity {
        Entity::Sink => true,
        Entity::Inserter => {
            let b = (q.0 - cell.direction.dx(), q.1 - cell.direction.dy());
            p == b || g.inside(b.0, b.1) && g.anchor_of(b.0, b.1) == Some(p)
        },
        Entity::Assembler => {
            let e = g.at(p.0, p.1).entity;
            e is Inserter || e is Source
        },
        Entity::TransportBelt | Entity::UndergroundBelt | Entity::Splitter => !sim::targets(
            g,
            q.0,
            q.1,
        ).contains(p),
        Entity::Empty | Entity::Source => false,
    }
}

/// Whether the entity at `q` takes what the one at `p` offers.
///
/// [`flow_targets`] says who offers and this says who takes. Keeping the two apart is
/// what stops an inserter from grabbing off a belt beside it.
pub fn accepts_from(grid: &Grid, q: (usize, usize), p: (usize, usize)) -> (r: bool)
    requires
        grid.wf(),
        grid@.inside(q.0 as int, q.1 as int),
        grid@.inside(p.0 as int, p.1 as int),
    ensures
        r == takes(grid@, grid::pos(q), grid::pos(p)),
{
    proof {
        grid::lemma_slot(grid@, q.0 as int, q.1 as int);
        grid::lemma_slot(grid@, p.0 as int, p.1 as int);
    }
    let cell = grid.get(q.0, q.1);
    match cell.entity {
        Entity::Sink => true,
        Entity::Inserter => {
            let (dx, dy) = cell.direction.delta();
            let (bx, by): (i32, i32) = (q.0 as i32 - dx, q.1 as i32 - dy);
            if p.0 as i32 == bx && p.1 as i32 == by {
                return true;
            }
            if !grid.in_bounds(bx, by) {
                return false;
            }
            match grid.anchor_at(bx as usize, by as usize) {
                Some(a) => a.0 == p.0 && a.1 == p.1,
                None => false,
            }
        },
        Entity::Assembler => matches!(
            grid.get(p.0, p.1).entity,
            Entity::Inserter | Entity::Source
        ),
        Entity::TransportBelt | Entity::UndergroundBelt | Entity::Splitter => {
            let ahead = flow_targets(grid, q.0, q.1);
            !holds(&ahead, p)
        },
        Entity::Empty | Entity::Source => false,
    }
}

/// Two conveyors never feed each other: head to head they stand still.
pub proof fn law_conveyors_do_not_feed_each_other(g: GridView, p: (int, int), q: (int, int))
    requires
        sim::conveys(g.at(q.0, q.1).entity),
        g.at(q.0, q.1).entity !is Inserter && g.at(q.0, q.1).entity !is Assembler,
        sim::targets(g, q.0, q.1).contains(p),
    ensures
        !takes(g, q, p),
{
}

/// An inserter takes from the tile that it stands one step ahead of, or from the entity
/// that stands on that tile, and from nothing else, whichever way it faces.
pub proof fn law_an_inserter_takes_from_behind(g: GridView, q: (int, int), p: (int, int))
    requires
        g.at(q.0, q.1).entity is Inserter,
    ensures
        takes(g, q, p) <==> exists|b: (int, int)|
            (b.0 + g.at(q.0, q.1).direction.dx(), b.1 + g.at(q.0, q.1).direction.dy()) == q && (p
                == b || g.inside(b.0, b.1) && #[trigger] g.anchor_of(b.0, b.1) == Some(p)),
{
    let d = g.at(q.0, q.1).direction;
    let b = (q.0 - d.dx(), q.1 - d.dy());
    assert(g.anchor_of(b.0, b.1) == g.anchor_of(b.0, b.1));
    assert((b.0 + d.dx(), b.1 + d.dy()) == q);
}

/// A machine takes from inserters and sources alone, a sink from anything, a source and an
/// empty tile from nothing, and a belt, a tunnel and a splitter from whatever they do not
/// hand on to.
pub proof fn law_who_takes_from_whom(g: GridView, q: (int, int), p: (int, int))
    ensures
        g.at(q.0, q.1).entity is Assembler ==> (takes(g, q, p) <==> g.at(p.0, p.1).entity
            is Inserter || g.at(p.0, p.1).entity is Source),
        g.at(q.0, q.1).entity is Sink ==> takes(g, q, p),
        g.at(q.0, q.1).entity is Source || g.at(q.0, q.1).entity is Empty ==> !takes(g, q, p),
        g.at(q.0, q.1).entity is TransportBelt || g.at(q.0, q.1).entity is UndergroundBelt || g.at(
            q.0,
            q.1,
        ).entity is Splitter ==> (takes(g, q, p) <==> !sim::targets(g, q.0, q.1).contains(p)),
{
}

/// The tile of a slot.
pub open spec fn tile_of(g: GridView, i: int) -> (int, int) {
    (i % (g.width as int), i / (g.width as int))
}

/// Whether flow runs from slot `p` to slot `q`: what is stored at `p` offers and what is
/// stored at `q` takes.
pub open spec fn feeds(g: GridView, p: int, q: int) -> bool {
    &&& sim::targets(g, tile_of(g, p).0, tile_of(g, p).1).contains(tile_of(g, q))
    &&& takes(g, tile_of(g, q), tile_of(g, p))
}

/// Which of the first `k` targets of `p` take what it offers, as slots.
pub open spec fn takers(g: GridView, p: (int, int), ts: Seq<(int, int)>, k: nat) -> Seq<int>
    decreases k,
{
    if k == 0 {
        seq![]
    } else {
        let rest = takers(g, p, ts, (k - 1) as nat);
        let q = ts[k - 1];
        if takes(g, q, p) {
            rest.push(g.slot(q.0, q.1))
        } else {
            rest
        }
    }
}

/// The slots that slot `p` feeds, in the order of its targets.
pub open spec fn successors_of(g: GridView, p: int) -> Seq<int> {
    let t = tile_of(g, p);
    takers(g, t, sim::targets(g, t.0, t.1), sim::targets(g, t.0, t.1).len())
}

/// The slots before `n` that feed slot `q`, in order.
pub open spec fn predecessors_of(g: GridView, q: int, n: nat) -> Seq<int>
    decreases n,
{
    if n == 0 {
        seq![]
    } else if feeds(g, n - 1, q) {
        predecessors_of(g, q, (n - 1) as nat).push(n - 1)
    } else {
        predecessors_of(g, q, (n - 1) as nat)
    }
}

/// A list of slots as mathematical integers.
pub open spec fn ints(v: Seq<usize>) -> Seq<int> {
    v.map_values(|i: usize| i as int)
}

proof fn lemma_takers(g: GridView, p: (int, int), ts: Seq<(int, int)>, k: nat)
    requires
        g.valid(),
        k <= ts.len(),
        sim::all_inside(g, ts),
        ts.no_duplicates(),
    ensures
        forall|i: int|
            0 <= i < takers(g, p, ts, k).len() ==> {
                let s = #[trigger] takers(g, p, ts, k)[i];
                0 <= s < g.cells.len() && ts.take(k as int).contains(tile_of(g, s)) && takes(
                    g,
                    tile_of(g, s),
                    p,
                )
            },
        forall|s: int|
            0 <= s < g.cells.len() && ts.take(k as int).contains(tile_of(g, s)) && takes(
                g,
                tile_of(g, s),
                p,
            ) ==> #[trigger] takers(g, p, ts, k).contains(s),
        takers(g, p, ts, k).no_duplicates(),
    decreases k,
{
    if k > 0 {
        lemma_takers(g, p, ts, (k - 1) as nat);
        let before = ts.take(k - 1);
        let now = ts.take(k as int);
        let rest = takers(g, p, ts, (k - 1) as nat);
        let all = takers(g, p, ts, k);
        let q = ts[k - 1];
        assert(g.inside(q.0, q.1));
        grid::lemma_slot(g, q.0, q.1);
        grid::lemma_slot_inverse(g, q.0, q.1);
        assert(tile_of(g, g.slot(q.0, q.1)) == q);
        assert(now =~= before.push(q));
        assert forall|t: (int, int)| now.contains(t) <==> before.contains(t) || t == q by {
            if before.contains(t) {
                assert(now[before.index_of(t)] == t);
            }
            if t == q {
                assert(now[k - 1] == t);
            }
            if now.contains(t) && t != q {
                let i = now.index_of(t);
                assert(before[i] == t);
            }
        }
        assert(!before.contains(q)) by {
            if before.contains(q) {
                let i = before.index_of(q);
                assert(ts[i] == ts[k - 1]);
            }
        }
        assert forall|i: int| 0 <= i < all.len() implies {
            let s = #[trigger] all[i];
            0 <= s < g.cells.len() && now.contains(tile_of(g, s)) && takes(g, tile_of(g, s), p)
        } by {
            if i < rest.len() {
                assert(all[i] == rest[i]);
            }
        }
        assert forall|s: int|
            0 <= s < g.cells.len() && now.contains(tile_of(g, s)) && takes(
                g,
                tile_of(g, s),
                p,
            ) implies #[trigger] all.contains(s) by {
            if tile_of(g, s) == q {
                grid::lemma_slot_surjective(g, s);
                assert(all[rest.len() as int] == s);
            } else {
                assert(rest.contains(s));
                assert(all[rest.index_of(s)] == s);
            }
        }
        if takes(g, q, p) {
            assert forall|i: int| 0 <= i < rest.len() implies rest[i] != g.slot(q.0, q.1) by {
                assert(before.contains(tile_of(g, rest[i])));
            }
        }
    }
}

/// A slot is listed as a successor exactly when it is fed, and once.
pub proof fn law_successors_are_fed(g: GridView, p: int)
    requires
        g.valid(),
        0 <= p < g.cells.len(),
    ensures
        forall|q: int| #[trigger]
            successors_of(g, p).contains(q) <==> 0 <= q < g.cells.len() && feeds(g, p, q),
        successors_of(g, p).no_duplicates(),
{
    let t = tile_of(g, p);
    let ts = sim::targets(g, t.0, t.1);
    grid::lemma_slot_surjective(g, p);
    sim::law_targets_are_other_entities(g, t.0, t.1);
    lemma_takers(g, t, ts, ts.len());
    assert(ts.take(ts.len() as int) =~= ts);
    let all = successors_of(g, p);
    assert forall|q: int| #[trigger] all.contains(q) implies 0 <= q < g.cells.len() && feeds(
        g,
        p,
        q,
    ) by {
        let i = all.index_of(q);
        assert(all[i] == q);
    }
}

proof fn lemma_predecessors(g: GridView, q: int, n: nat)
    ensures
        forall|p: int| #[trigger]
            predecessors_of(g, q, n).contains(p) <==> 0 <= p < n && feeds(g, p, q),
        predecessors_of(g, q, n).no_duplicates(),
    decreases n,
{
    if n > 0 {
        lemma_predecessors(g, q, (n - 1) as nat);
        let rest = predecessors_of(g, q, (n - 1) as nat);
        let all = predecessors_of(g, q, n);
        assert forall|p: int| #[trigger] all.contains(p) <==> 0 <= p < n && feeds(g, p, q) by {
            if rest.contains(p) {
                assert(all[rest.index_of(p)] == p);
            }
            if p == n - 1 && feeds(g, p, q) {
                assert(all[rest.len() as int] == p);
            }
            if all.contains(p) && !rest.contains(p) {
                let i = all.index_of(p);
                assert(i == rest.len() || rest[i] == p);
            }
        }
        if feeds(g, n - 1, q) {
            assert forall|i: int| 0 <= i < rest.len() implies rest[i] != n - 1 by {
                assert(rest.contains(rest[i]));
            }
        }
    }
}

/// A slot is listed as a predecessor exactly when it feeds, and once.
pub proof fn law_predecessors_feed(g: GridView, q: int)
    ensures
        forall|p: int| #[trigger]
            predecessors_of(g, q, g.cells.len()).contains(p) <==> 0 <= p < g.cells.len() && feeds(
                g,
                p,
                q,
            ),
        predecessors_of(g, q, g.cells.len()).no_duplicates(),
{
    lemma_predecessors(g, q, g.cells.len());
}

/// A source is fed by nothing.
pub proof fn law_sources_are_not_fed(g: GridView, p: int, q: int)
    requires
        g.at(tile_of(g, q).0, tile_of(g, q).1).entity is Source,
    ensures
        !feeds(g, p, q),
{
}

/// The slots that slot `p` feeds.
fn list_successors(grid: &Grid, p: usize) -> (r: Vec<usize>)
    requires
        grid.wf(),
        p < grid.cells.len(),
    ensures
        ints(r@) == successors_of(grid@, p as int),
{
    let ghost g = grid@;
    proof {
        grid::lemma_slot_surjective(g, p as int);
    }
    let (x, y) = (p % grid.width, p / grid.width);
    let ghost t = (x as int, y as int);
    let ghost ts = sim::targets(g, t.0, t.1);
    let offered = flow_targets(grid, x, y);
    proof {
        sim::law_targets_are_other_entities(g, t.0, t.1);
    }
    let mut out: Vec<usize> = Vec::new();
    let mut k: usize = 0;
    while k < offered.len()
        invariant
            grid.wf(),
            g == grid@,
            t == (x as int, y as int),
            g.inside(t.0, t.1),
            ts == sim::targets(g, t.0, t.1),
            grid::pos_list(offered@) == ts,
            sim::all_inside(g, ts),
            k <= offered.len(),
            ints(out@) == takers(g, t, ts, k as nat),
        decreases offered.len() - k,
    {
        let q = offered[k];
        assert(ts[k as int] == grid::pos(q));
        proof {
            grid::lemma_slot(g, q.0 as int, q.1 as int);
            assert(grid.cells.len() <= usize::MAX);
        }
        if accepts_from(grid, q, (x, y)) {
            let ghost before = out@;
            out.push(grid.idx(q.0, q.1));
            assert(ints(out@) =~= ints(before).push(g.slot(q.0 as int, q.1 as int)));
        }
        k = k + 1;
    }
    out
}

/// Who feeds whom: for every slot the slots it feeds and the slots that feed it.
pub fn build_graph(grid: &Grid) -> (r: (Vec<Vec<usize>>, Vec<Vec<usize>>))
    requires
        grid.wf(),
    ensures
        r.0.len() == grid@.cells.len(),
        r.1.len() == grid@.cells.len(),
        forall|p: int|
            0 <= p < r.0.len() ==> ints((#[trigger] r.0@[p])@) == successors_of(grid@, p),
        forall|q: int|
            0 <= q < r.1.len() ==> ints((#[trigger] r.1@[q])@) == predecessors_of(
                grid@,
                q,
                grid@.cells.len(),
            ),
{
    let ghost g = grid@;
    let n = grid.cells.len();
    let mut successors: Vec<Vec<usize>> = Vec::new();
    let mut predecessors: Vec<Vec<usize>> = Vec::new();
    let mut i: usize = 0;
    while i < n
        invariant
            g == grid@,
            n == grid.cells.len(),
            i <= n,
            predecessors.len() == i,
            forall|q: int|
                0 <= q < i ==> ints((#[trigger] predecessors@[q])@) == predecessors_of(g, q, 0),
        decreases n - i,
    {
        let none: Vec<usize> = Vec::new();
        assert(ints(none@) =~= Seq::empty());
        predecessors.push(none);
        i = i + 1;
    }
    let mut p: usize = 0;
    while p < n
        invariant
            grid.wf(),
            g == grid@,
            n == grid.cells.len(),
            p <= n,
            successors.len() == p,
            predecessors.len() == n,
            forall|u: int|
                0 <= u < p ==> ints((#[trigger] successors@[u])@) == successors_of(g, u),
            forall|q: int|
                0 <= q < n ==> ints((#[trigger] predecessors@[q])@) == predecessors_of(
                    g,
                    q,
                    p as nat,
                ),
        decreases n - p,
    {
        let fed = list_successors(grid, p);
        proof {
            law_successors_are_fed(g, p as int);
        }
        add_predecessor(grid, &fed, p, &mut predecessors);
        successors.push(fed);
        p = p + 1;
    }
    (successors, predecessors)
}

/// Note for every slot in `fed` that `p` feeds it.
fn add_predecessor(grid: &Grid, fed: &Vec<usize>, p: usize, predecessors: &mut Vec<Vec<usize>>)
    requires
        p < grid.cells.len(),
        old(predecessors).len() == grid.cells.len(),
        forall|q: int| #[trigger]
            ints(fed@).contains(q) <==> 0 <= q < grid@.cells.len() && feeds(grid@, p as int, q),
        ints(fed@).no_duplicates(),
        forall|q: int|
            0 <= q < old(predecessors).len() ==> ints((#[trigger] old(predecessors)@[q])@)
                == predecessors_of(grid@, q, p as nat),
    ensures
        final(predecessors).len() == old(predecessors).len(),
        forall|q: int|
            0 <= q < final(predecessors).len() ==> ints((#[trigger] final(predecessors)@[q])@)
                == predecessors_of(grid@, q, (p + 1) as nat),
{
    let ghost g = grid@;
    let ghost all = ints(fed@);
    let mut k: usize = 0;
    while k < fed.len()
        invariant
            g == grid@,
            all == ints(fed@),
            k <= fed.len(),
            predecessors.len() == g.cells.len(),
            p < g.cells.len(),
            all.no_duplicates(),
            forall|q: int| #[trigger]
                all.contains(q) <==> 0 <= q < g.cells.len() && feeds(g, p as int, q),
            forall|q: int|
                0 <= q < predecessors.len() ==> ints((#[trigger] predecessors@[q])@) == (
                if all.take(k as int).contains(q) {
                    predecessors_of(g, q, p as nat).push(p as int)
                } else {
                    predecessors_of(g, q, p as nat)
                }),
        decreases fed.len() - k,
    {
        let q = fed[k];
        assert(all[k as int] == q);
        assert(all.contains(q as int));
        let ghost before = predecessors@;
        predecessors[q].push(p);
        proof {
            let seen = all.take(k as int);
            let now = all.take(k as int + 1);
            assert(now =~= seen.push(q as int));
            assert(!seen.contains(q as int)) by {
                if seen.contains(q as int) {
                    let i = seen.index_of(q as int);
                    assert(all[i] == all[k as int]);
                }
            }
            assert forall|u: int| now.contains(u) <==> seen.contains(u) || u == q by {
                if seen.contains(u) {
                    assert(now[seen.index_of(u)] == u);
                }
                if u == q {
                    assert(now[k as int] == u);
                }
                if now.contains(u) && u != q {
                    assert(seen[now.index_of(u)] == u);
                }
            }
            assert(ints(predecessors@[q as int]@) =~= ints(before[q as int]@).push(p as int));
        }
        k = k + 1;
    }
    assert(all.take(all.len() as int) =~= all);
    assert forall|q: int| 0 <= q < predecessors.len() implies ints((#[trigger] predecessors@[q])@)
        == predecessors_of(g, q, (p + 1) as nat) by {
        assert(all.contains(q) <==> feeds(g, p as int, q));
    }
}

/// Whether a graph given by lists has an edge from `u` to `v`.
pub open spec fn edge(lists: Seq<Vec<usize>>, u: int, v: int) -> bool {
    0 <= u < lists.len() && ints(lists[u]@).contains(v)
}

/// Whether every list of a graph names nodes of the graph only.
pub open spec fn within(lists: Seq<Vec<usize>>) -> bool {
    forall|u: int, v: int| #[trigger] edge(lists, u, v) ==> 0 <= v < lists.len()
}

/// Whether a set of nodes holds the roots and everything that follows an edge out of
/// it.
pub open spec fn closed_from(lists: Seq<Vec<usize>>, roots: Seq<int>, s: Set<int>) -> bool {
    &&& forall|r: int| #[trigger] roots.contains(r) ==> s.contains(r)
    &&& forall|u: int, v: int| s.contains(u) && #[trigger] edge(lists, u, v) ==> s.contains(v)
}

/// The nodes that can be reached from the roots: the least such set.
pub open spec fn reach(lists: Seq<Vec<usize>>, roots: Seq<int>) -> Set<int> {
    Set::new(
        |v: int|
            forall|s: Set<int>| #[trigger] closed_from(lists, roots, s) ==> s.contains(v),
    )
}

/// What can be reached is itself closed.
pub proof fn lemma_reach_closed(lists: Seq<Vec<usize>>, roots: Seq<int>)
    ensures
        closed_from(lists, roots, reach(lists, roots)),
{
    let r = reach(lists, roots);
    assert forall|u: int, v: int| r.contains(u) && #[trigger] edge(lists, u, v) implies r.contains(
        v,
    ) by {
        assert forall|s: Set<int>| #[trigger] closed_from(lists, roots, s) implies s.contains(v) by {
            assert(s.contains(u));
        }
    }
}

/// The nodes marked in a list of flags.
pub open spec fn marked(flags: Seq<bool>) -> Set<int> {
    Set::new(|v: int| 0 <= v < flags.len() && flags[v])
}

/// Which nodes can be reached from the roots.
pub fn reachable_from(successors: &Vec<Vec<usize>>, roots: &Vec<usize>) -> (r: Vec<bool>)
    requires
        within(successors@),
        forall|k: int| 0 <= k < roots.len() ==> #[trigger] roots@[k] < successors.len(),
    ensures
        r.len() == successors.len(),
        marked(r@) == reach(successors@, ints(roots@)),
{
    let ghost lists = successors@;
    let ghost rs = ints(roots@);
    let ghost all = reach(lists, rs);
    let n = successors.len();
    let mut seen: Vec<bool> = vec![false; n];
    let mut queue: VecDeque<usize> = VecDeque::new();
    proof {
        lemma_reach_closed(lists, rs);
    }
    let mut k: usize = 0;
    while k < roots.len()
        invariant
            lists == successors@,
            rs == ints(roots@),
            all == reach(lists, rs),
            closed_from(lists, rs, all),
            n == successors.len(),
            seen.len() == n,
            k <= roots.len(),
            forall|i: int| 0 <= i < roots.len() ==> #[trigger] roots@[i] < n,
            forall|v: int| 0 <= v < n && #[trigger] seen@[v] ==> all.contains(v),
            forall|v: int| 0 <= v < n && #[trigger] seen@[v] ==> ints(queue@).contains(v),
            forall|i: int| 0 <= i < queue@.len() ==> #[trigger] queue@[i] < n && seen@[queue@[i] as int],
            forall|i: int| 0 <= i < k ==> seen@[#[trigger] roots@[i] as int],
        decreases roots.len() - k,
    {
        let r = roots[k];
        assert(rs[k as int] == r);
        assert(rs.contains(r as int));
        let ghost before = queue@;
        seen.set(r, true);
        queue.push_back(r);
        proof {
            assert(ints(queue@) =~= ints(before).push(r as int));
            assert(ints(queue@)[before.len() as int] == r);
            assert forall|v: int| ints(before).contains(v) implies ints(queue@).contains(v) by {
                assert(ints(queue@)[ints(before).index_of(v)] == v);
            }
        }
        k = k + 1;
    }
    assert forall|r: int| #[trigger] rs.contains(r) implies marked(seen@).contains(r) by {
        let i = rs.index_of(r);
        assert(roots@[i] == r);
    }
    while queue.len() > 0
        invariant
            lists == successors@,
            rs == ints(roots@),
            all == reach(lists, rs),
            closed_from(lists, rs, all),
            within(lists),
            n == successors.len(),
            seen.len() == n,
            forall|r: int| #[trigger] rs.contains(r) ==> marked(seen@).contains(r),
            forall|v: int| 0 <= v < n && #[trigger] seen@[v] ==> all.contains(v),
            forall|i: int| 0 <= i < queue@.len() ==> #[trigger] queue@[i] < n && seen@[queue@[i] as int],
            forall|u: int, v: int|
                0 <= u < n && seen@[u] && !ints(queue@).contains(u) && #[trigger] edge(lists, u, v)
                    ==> seen@[v],
        decreases sim::unset(seen@, seen.len() as nat), queue@.len(),
    {
        let ghost waiting = queue@;
        let ghost flags = seen@;
        if let Some(u) = queue.pop_front() {
            assert(waiting[0] == u);
            proof {
                assert forall|v: int| ints(waiting).contains(v) && v != u implies ints(
                    queue@,
                ).contains(v) by {
                    let i = ints(waiting).index_of(v);
                    assert(ints(queue@)[i - 1] == v);
                }
            }
            let ghost rest = queue@;
            let next = &successors[u];
            let mut j: usize = 0;
            while j < next.len()
                invariant
                    lists == successors@,
                    rs == ints(roots@),
                    all == reach(lists, rs),
                    closed_from(lists, rs, all),
                    within(lists),
                    n == successors.len(),
                    u < n,
                    next@ == lists[u as int]@,
                    seen.len() == n,
                    j <= next.len(),
                    seen@[u as int],
                    all.contains(u as int),
                    forall|r: int| #[trigger] rs.contains(r) ==> marked(seen@).contains(r),
                    forall|v: int| 0 <= v < n && #[trigger] seen@[v] ==> all.contains(v),
                    forall|i: int|
                        0 <= i < queue@.len() ==> #[trigger] queue@[i] < n
                            && seen@[queue@[i] as int],
                    forall|a: int, v: int|
                        0 <= a < n && a != u && seen@[a] && !ints(queue@).contains(a)
                            && #[trigger] edge(lists, a, v) ==> seen@[v],
                    forall|i: int|
                        0 <= i < j ==> (#[trigger] next@[i]) < n && seen@[next@[i] as int],
                    sim::unset(seen@, n as nat) <= sim::unset(flags, n as nat),
                    sim::unset(seen@, n as nat) == sim::unset(flags, n as nat) ==> queue@ == rest,
                decreases next.len() - j,
            {
                let v = next[j];
                proof {
                    assert(ints(lists[u as int]@)[j as int] == v);
                    assert(edge(lists, u as int, v as int));
                }
                if !seen[v] {
                    proof {
                        sim::lemma_unset_update(seen@, v as int, n as nat);
                    }
                    let ghost before = queue@;
                    seen.set(v, true);
                    queue.push_back(v);
                    proof {
                        assert(ints(queue@) =~= ints(before).push(v as int));
                        assert(ints(queue@)[before.len() as int] == v);
                        assert forall|a: int| ints(before).contains(a) implies ints(
                            queue@,
                        ).contains(a) by {
                            assert(ints(queue@)[ints(before).index_of(a)] == a);
                        }
                    }
                }
                j = j + 1;
            }
            assert forall|v: int| #[trigger] edge(lists, u as int, v) implies seen@[v] by {
                let i = ints(lists[u as int]@).index_of(v);
                assert(next@[i] == v);
            }
        }
    }
    proof {
        assert(ints(queue@).len() == 0);
        assert(closed_from(lists, rs, marked(seen@)));
        assert(marked(seen@) =~= all);
    }
    seen
}

/// The slots of a kind of entity among the first `n`.
pub open spec fn slots_with(g: GridView, kind: Entity, n: nat) -> Seq<int>
    decreases n,
{
    if n == 0 {
        seq![]
    } else if g.cells[n - 1].entity == kind {
        slots_with(g, kind, (n - 1) as nat).push(n - 1)
    } else {
        slots_with(g, kind, (n - 1) as nat)
    }
}

/// The slots of a kind of entity are listed once each.
pub proof fn lemma_slots_with(g: GridView, kind: Entity, n: nat)
    requires
        n <= g.cells.len(),
    ensures
        forall|i: int| #[trigger]
            slots_with(g, kind, n).contains(i) <==> 0 <= i < n && g.cells[i].entity == kind,
        slots_with(g, kind, n).no_duplicates(),
    decreases n,
{
    if n > 0 {
        lemma_slots_with(g, kind, (n - 1) as nat);
        let rest = slots_with(g, kind, (n - 1) as nat);
        let all = slots_with(g, kind, n);
        assert forall|i: int| #[trigger] all.contains(i) <==> 0 <= i < n && g.cells[i].entity
            == kind by {
            if rest.contains(i) {
                assert(all[rest.index_of(i)] == i);
            }
            if i == n - 1 && g.cells[i].entity == kind {
                assert(all[rest.len() as int] == i);
            }
            if all.contains(i) && !rest.contains(i) {
                let k = all.index_of(i);
                assert(k == rest.len() || rest[k] == i);
            }
        }
        if g.cells[n - 1].entity == kind {
            assert forall|i: int| 0 <= i < rest.len() implies rest[i] != n - 1 by {
                assert(rest.contains(rest[i]));
            }
        }
    }
}

/// The slots of a kind of entity, in order.
pub fn positions(grid: &Grid, kind: Entity) -> (r: Vec<usize>)
    ensures
        ints(r@) == slots_with(grid@, kind, grid@.cells.len()),
{
    let mut out: Vec<usize> = Vec::new();
    let mut i: usize = 0;
    while i < grid.cells.len()
        invariant
            i <= grid.cells.len(),
            ints(out@) == slots_with(grid@, kind, i as nat),
        decreases grid.cells.len() - i,
    {
        if grid.cells[i].entity == kind {
            let ghost before = out@;
            out.push(i);
            assert(ints(out@) =~= ints(before).push(i as int));
        }
        i = i + 1;
    }
    out
}

/// Whether every predecessor of `v` that can be reached at all is in `fired`.
pub open spec fn supplied(
    predecessors: Seq<Vec<usize>>,
    reachable: Seq<bool>,
    fired: Seq<int>,
    v: int,
) -> bool {
    forall|p: int| #[trigger]
        edge(predecessors, v, p) && reachable[p] ==> fired.contains(p)
}

/// What it is for a list of slots to be an order of turns: the roots come first, no slot
/// takes two turns, every other slot comes after all its reachable predecessors, of
/// which it has at least one, and every slot of which that holds is in the list.
pub open spec fn is_firing_order(
    predecessors: Seq<Vec<usize>>,
    reachable: Seq<bool>,
    roots: Seq<int>,
    order: Seq<int>,
) -> bool {
    &&& order.len() >= roots.len()
    &&& order.take(roots.len() as int) == roots
    &&& order.no_duplicates()
    &&& forall|k: int| 0 <= k < order.len() ==> 0 <= #[trigger] order[k] < predecessors.len()
    &&& forall|k: int|
        roots.len() <= k < order.len() ==> {
            &&& supplied(predecessors, reachable, order.take(k), #[trigger] order[k])
            &&& exists|p: int| #[trigger]
                edge(predecessors, order[k], p) && reachable[p] && order.take(k).contains(p)
        }
    &&& forall|v: int, p: int|
        0 <= v < predecessors.len() && #[trigger] edge(predecessors, v, p) && reachable[p]
            && supplied(predecessors, reachable, order, v) ==> order.contains(v)
}

/// Whether every reachable predecessor of `v` has had its turn.
fn is_supplied(
    predecessors: &Vec<Vec<usize>>,
    reachable: &Vec<bool>,
    fired: &Vec<bool>,
    done: Ghost<Seq<int>>,
    v: usize,
) -> (r: bool)
    requires
        v < predecessors.len(),
        within(predecessors@),
        reachable.len() == predecessors.len(),
        fired.len() == predecessors.len(),
        forall|p: int| 0 <= p < fired.len() ==> (#[trigger] fired@[p] <==> done@.contains(p)),
    ensures
        r == supplied(predecessors@, reachable@, done@, v as int),
{
    let list = &predecessors[v];
    let ghost l = ints(list@);
    let mut k: usize = 0;
    while k < list.len()
        invariant
            v < predecessors.len(),
            within(predecessors@),
            reachable.len() == predecessors.len(),
            fired.len() == predecessors.len(),
            list@ == predecessors@[v as int]@,
            l == ints(list@),
            forall|p: int| 0 <= p < fired.len() ==> (#[trigger] fired@[p] <==> done@.contains(p)),
            k <= list.len(),
            forall|i: int| 0 <= i < k && reachable@[#[trigger] l[i]] ==> done@.contains(l[i]),
        decreases list.len() - k,
    {
        let p = list[k];
        assert(l[k as int] == p);
        assert(edge(predecessors@, v as int, p as int));
        if reachable[p] && !fired[p] {
            return false;
        }
        k = k + 1;
    }
    assert forall|p: int| #[trigger] edge(predecessors@, v as int, p) && reachable@[p] implies done@.contains(
        p,
    ) by {
        let i = l.index_of(p);
        assert(l[i] == p);
    }
    true
}

/// The state of a search for an order of turns after `head` slots have had theirs.
spec fn turns_so_far(
    predecessors: Seq<Vec<usize>>,
    reachable: Seq<bool>,
    roots: Seq<int>,
    order: Seq<int>,
    queued: Seq<bool>,
    head: int,
) -> bool {
    &&& order.len() >= roots.len()
    &&& order.take(roots.len() as int) == roots
    &&& order.no_duplicates()
    &&& 0 <= head <= order.len()
    &&& queued.len() == predecessors.len()
    &&& reachable.len() == predecessors.len()
    &&& forall|k: int|
        0 <= k < order.len() ==> 0 <= #[trigger] order[k] < predecessors.len()
            && reachable[order[k]]
    &&& forall|v: int|
        0 <= v < queued.len() ==> (#[trigger] queued[v] <==> order.contains(v))
    &&& forall|k: int|
        roots.len() <= k < order.len() ==> {
            &&& supplied(predecessors, reachable, order.take(k), #[trigger] order[k])
            &&& exists|p: int| #[trigger]
                edge(predecessors, order[k], p) && reachable[p] && order.take(k).contains(p)
        }
}

/// Every slot that `fired` supplies, but for those that `u` feeds past the first `j`, is
/// in the order.
spec fn caught_up(
    predecessors: Seq<Vec<usize>>,
    reachable: Seq<bool>,
    order: Seq<int>,
    fired: Seq<int>,
    pending: Seq<int>,
) -> bool {
    forall|v: int, p: int|
        0 <= v < predecessors.len() && #[trigger] edge(predecessors, v, p) && reachable[p]
            && supplied(predecessors, reachable, fired, v) && !pending.contains(v)
            ==> order.contains(v)
}

/// Appending a slot that is supplied keeps the order sound.
proof fn lemma_turn(
    predecessors: Seq<Vec<usize>>,
    reachable: Seq<bool>,
    roots: Seq<int>,
    order: Seq<int>,
    queued: Seq<bool>,
    head: int,
    v: int,
    u: int,
)
    requires
        turns_so_far(predecessors, reachable, roots, order, queued, head),
        0 <= v < predecessors.len(),
        !queued[v],
        reachable[v],
        0 < head,
        u == order[head - 1],
        edge(predecessors, v, u),
        supplied(predecessors, reachable, order.take(head), v),
    ensures
        turns_so_far(predecessors, reachable, roots, order.push(v), queued.update(v, true), head),
{
    let now = order.push(v);
    let flags = queued.update(v, true);
    let n = order.len() as int;
    assert(now.take(roots.len() as int) =~= order.take(roots.len() as int));
    assert forall|w: int| now.contains(w) <==> order.contains(w) || w == v by {
        if order.contains(w) {
            assert(now[order.index_of(w)] == w);
        }
        if w == v {
            assert(now[n] == w);
        }
        if now.contains(w) && w != v {
            assert(order[now.index_of(w)] == w);
        }
    }
    assert forall|k: int| roots.len() <= k < now.len() implies {
        &&& supplied(predecessors, reachable, now.take(k), #[trigger] now[k])
        &&& exists|p: int| #[trigger]
            edge(predecessors, now[k], p) && reachable[p] && now.take(k).contains(p)
    } by {
        assert(now.take(k) =~= order.take(k));
        if k < n {
            assert(now[k] == order[k]);
            assert(supplied(predecessors, reachable, order.take(k), order[k]));
        } else {
            assert(order.take(n) =~= order);
            assert forall|p: int| #[trigger]
                edge(predecessors, v, p) && reachable[p] implies order.take(n).contains(p) by {
                assert(order.take(head).contains(p));
                let i = order.take(head).index_of(p);
                assert(order.take(n)[i] == p);
            }
            assert(order.take(n)[head - 1] == u);
            assert(edge(predecessors, now[k], u) && reachable[u] && now.take(k).contains(u));
        }
    }
    assert forall|k: int| 0 <= k < now.len() implies 0 <= #[trigger] now[k] < predecessors.len()
        && reachable[now[k]] by {
        if k < n {
            assert(now[k] == order[k]);
        }
    }
    assert forall|i: int, j: int| 0 <= i < now.len() && 0 <= j < now.len() && i != j implies now[i]
        != now[j] by {
        if i < n && j < n {
        } else if i == n {
            assert(order.contains(order[j]));
        } else {
            assert(order.contains(order[i]));
        }
    }
}

/// The order in which the slots of a factory take their turn: the roots first, and every
/// other slot as soon as all its reachable predecessors have had theirs. A loop never
/// gets a turn, and neither does what only a loop feeds.
pub fn firing_order(
    successors: &Vec<Vec<usize>>,
    predecessors: &Vec<Vec<usize>>,
    reachable: &Vec<bool>,
    roots: &Vec<usize>,
) -> (r: Vec<usize>)
    requires
        successors.len() == predecessors.len(),
        reachable.len() == predecessors.len(),
        within(successors@),
        within(predecessors@),
        forall|u: int, v: int| #[trigger]
            edge(successors@, u, v) <==> #[trigger] edge(predecessors@, v, u),
        forall|u: int, v: int| #[trigger]
            edge(successors@, u, v) && reachable@[u] ==> reachable@[v],
        ints(roots@).no_duplicates(),
        forall|k: int|
            0 <= k < roots.len() ==> (#[trigger] roots@[k]) < predecessors.len()
                && reachable@[roots@[k] as int],
    ensures
        is_firing_order(predecessors@, reachable@, ints(roots@), ints(r@)),
{
    let ghost preds = predecessors@;
    let ghost rs = ints(roots@);
    let n = predecessors.len();
    let mut order: Vec<usize> = Vec::new();
    let mut queued: Vec<bool> = vec![false; n];
    let mut k: usize = 0;
    while k < roots.len()
        invariant
            n == predecessors.len(),
            rs == ints(roots@),
            k <= roots.len(),
            queued.len() == n,
            forall|i: int| 0 <= i < roots.len() ==> (#[trigger] roots@[i]) < n,
            ints(order@) == rs.take(k as int),
            forall|v: int| 0 <= v < n ==> (#[trigger] queued@[v] <==> rs.take(k as int).contains(v)),
        decreases roots.len() - k,
    {
        let r = roots[k];
        assert(rs[k as int] == r);
        let ghost before = order@;
        order.push(r);
        queued.set(r, true);
        proof {
            let now = rs.take(k as int + 1);
            let old_list = rs.take(k as int);
            assert(ints(order@) =~= ints(before).push(r as int));
            assert(now =~= old_list.push(r as int));
            assert forall|v: int| now.contains(v) <==> old_list.contains(v) || v == r by {
                if old_list.contains(v) {
                    assert(now[old_list.index_of(v)] == v);
                }
                if v == r {
                    assert(now[k as int] == v);
                }
                if now.contains(v) && v != r {
                    assert(old_list[now.index_of(v)] == v);
                }
            }
        }
        k = k + 1;
    }
    proof {
        assert(rs.take(rs.len() as int) =~= rs);
        let ord = ints(order@);
        assert(turns_so_far(preds, reachable@, rs, ord, queued@, 0)) by {
            assert forall|i: int| 0 <= i < ord.len() implies 0 <= #[trigger] ord[i] < preds.len()
                && reachable@[ord[i]] by {
                assert(roots@[i] == ord[i]);
            }
        }
        assert(ord.take(0) =~= Seq::empty());
        assert(caught_up(preds, reachable@, ord, ord.take(0), Seq::empty())) by {
            assert forall|v: int, p: int|
                0 <= v < preds.len() && #[trigger] edge(preds, v, p) && reachable@[p]
                    && supplied(preds, reachable@, ord.take(0), v) implies ord.contains(v) by {
                assert(ord.take(0).contains(p));
            }
        }
    }
    let mut fired: Vec<bool> = vec![false; n];
    let mut head: usize = 0;
    while head < order.len()
        invariant
            n == predecessors.len(),
            preds == predecessors@,
            rs == ints(roots@),
            successors.len() == n,
            reachable.len() == n,
            within(successors@),
            within(preds),
            forall|u: int, v: int| #[trigger]
                edge(successors@, u, v) <==> #[trigger] edge(preds, v, u),
            forall|u: int, v: int| #[trigger]
                edge(successors@, u, v) && reachable@[u] ==> reachable@[v],
            turns_so_far(preds, reachable@, rs, ints(order@), queued@, head as int),
            caught_up(
                preds,
                reachable@,
                ints(order@),
                ints(order@).take(head as int),
                Seq::empty(),
            ),
            fired.len() == n,
            forall|p: int|
                0 <= p < n ==> (#[trigger] fired@[p] <==> ints(order@).take(head as int).contains(
                    p,
                )),
        decreases sim::unset(queued@, queued.len() as nat), order.len() - head,
    {
        let u = order[head];
        let ghost ord = ints(order@);
        let ghost done = ord.take(head as int + 1);
        let ghost flags = queued@;
        assert(ord[head as int] == u);
        fired.set(u, true);
        proof {
            let past = ord.take(head as int);
            assert(done =~= past.push(u as int));
            assert forall|p: int| done.contains(p) <==> past.contains(p) || p == u by {
                if past.contains(p) {
                    assert(done[past.index_of(p)] == p);
                }
                if p == u {
                    assert(done[head as int] == p);
                }
                if done.contains(p) && p != u {
                    assert(past[done.index_of(p)] == p);
                }
            }
        }
        let next = &successors[u];
        let ghost fed = ints(next@);
        proof {
            assert forall|v: int, p: int|
                0 <= v < preds.len() && #[trigger] edge(preds, v, p) && reachable@[p] && supplied(
                    preds,
                    reachable@,
                    done,
                    v,
                ) && !fed.skip(0).contains(v) implies ord.contains(v) by {
                assert(fed.skip(0) =~= fed);
                assert(!edge(successors@, u as int, v));
                assert(!edge(preds, v, u as int));
                assert(supplied(preds, reachable@, ord.take(head as int), v)) by {
                    assert forall|q: int| #[trigger]
                        edge(preds, v, q) && reachable@[q] implies ord.take(head as int).contains(
                        q,
                    ) by {
                        assert(done.contains(q));
                    }
                }
            }
        }
        let mut j: usize = 0;
        while j < next.len()
            invariant
                n == predecessors.len(),
                preds == predecessors@,
                successors.len() == n,
                reachable.len() == n,
                within(successors@),
                within(preds),
                forall|a: int, v: int| #[trigger]
                    edge(successors@, a, v) <==> #[trigger] edge(preds, v, a),
                forall|a: int, v: int| #[trigger]
                    edge(successors@, a, v) && reachable@[a] ==> reachable@[v],
                u < n,
                next@ == successors@[u as int]@,
                fed == ints(next@),
                head < order.len(),
                ints(order@)[head as int] == u,
                ints(order@).take(head as int + 1) == done,
                turns_so_far(preds, reachable@, rs, ints(order@), queued@, head as int + 1),
                caught_up(preds, reachable@, ints(order@), done, fed.skip(j as int)),
                fired.len() == n,
                forall|p: int| 0 <= p < n ==> (#[trigger] fired@[p] <==> done.contains(p)),
                j <= next.len(),
                queued.len() == n,
                sim::unset(queued@, n as nat) <= sim::unset(flags, n as nat),
                sim::unset(queued@, n as nat) == sim::unset(flags, n as nat) ==> ints(order@)
                    == ord,
            decreases next.len() - j,
        {
            let v = next[j];
            let ghost now = ints(order@);
            proof {
                assert(fed[j as int] == v);
                assert(edge(successors@, u as int, v as int));
                assert(reachable@[u as int]) by {
                    assert(now[head as int] == u);
                }
            }
            let ready = is_supplied(predecessors, reachable, &fired, Ghost(done), v);
            if !queued[v] && ready {
                proof {
                    lemma_turn(
                        preds,
                        reachable@,
                        rs,
                        now,
                        queued@,
                        head as int + 1,
                        v as int,
                        u as int,
                    );
                    sim::lemma_unset_update(queued@, v as int, n as nat);
                }
                order.push(v);
                queued.set(v, true);
                proof {
                    assert(ints(order@) =~= now.push(v as int));
                    assert(ints(order@).take(head as int + 1) =~= done);
                }
            }
            proof {
                let after = ints(order@);
                assert forall|w: int| now.contains(w) implies after.contains(w) by {
                    assert(after[now.index_of(w)] == w);
                }
                assert forall|w: int, p: int|
                    0 <= w < preds.len() && #[trigger] edge(preds, w, p) && reachable@[p]
                        && supplied(preds, reachable@, done, w) && !fed.skip(j as int + 1).contains(
                        w,
                    ) implies after.contains(w) by {
                    if fed.skip(j as int).contains(w) {
                        let i = fed.skip(j as int).index_of(w);
                        if i > 0 {
                            assert(fed.skip(j as int + 1)[i - 1] == w);
                        }
                        assert(w == v);
                        if after.len() > now.len() {
                            assert(after[now.len() as int] == w);
                        } else {
                            assert(queued@[w]);
                        }
                    } else {
                        assert(now.contains(w));
                    }
                }
            }
            j = j + 1;
        }
        proof {
            assert(fed.skip(fed.len() as int) =~= Seq::empty());
        }
        head = head + 1;
    }
    proof {
        let ord = ints(order@);
        assert(ord.take(head as int) =~= ord);
    }
    order
}

/// Everything about a factory that its rates are computed from, apart from the rates:
/// who feeds whom, what a source can reach, and the order of turns.
#[derive(Debug)]
pub struct FlowPlan {
    pub successors: Vec<Vec<usize>>,
    pub predecessors: Vec<Vec<usize>>,
    pub sources: Vec<usize>,
    pub sinks: Vec<usize>,
    pub reachable: Vec<bool>,
    pub order: Vec<usize>,
}

impl FlowPlan {
    /// Whether the plan is that of a factory.
    pub open spec fn of(self, g: GridView) -> bool {
        &&& self.successors.len() == g.cells.len()
        &&& self.predecessors.len() == g.cells.len()
        &&& forall|p: int|
            0 <= p < g.cells.len() ==> ints((#[trigger] self.successors@[p])@) == successors_of(
                g,
                p,
            )
        &&& forall|q: int|
            0 <= q < g.cells.len() ==> ints((#[trigger] self.predecessors@[q])@)
                == predecessors_of(g, q, g.cells.len())
        &&& ints(self.sources@) == slots_with(g, Entity::Source, g.cells.len())
        &&& ints(self.sinks@) == slots_with(g, Entity::Sink, g.cells.len())
        &&& self.reachable.len() == g.cells.len()
        &&& marked(self.reachable@) == reach(self.successors@, ints(self.sources@))
        &&& is_firing_order(
            self.predecessors@,
            self.reachable@,
            ints(self.sources@),
            ints(self.order@),
        )
    }
}

/// The plan of a factory, or `None` if it has no source or no sink and so moves nothing.
pub fn flow_plan(grid: &Grid) -> (r: Option<FlowPlan>)
    requires
        grid.wf(),
    ensures
        r is None <==> slots_with(grid@, Entity::Source, grid@.cells.len()).len() == 0
            || slots_with(grid@, Entity::Sink, grid@.cells.len()).len() == 0,
        r matches Some(plan) ==> plan.of(grid@),
        r matches Some(plan) ==> (plan.feeds_a_sink(grid@) <==> delivery::feeds_a_sink(grid@)),
        delivery::feeds_a_sink(grid@) ==> r is Some,
{
    let ghost g = grid@;
    proof {
        if delivery::feeds_a_sink(g) {
            delivery::law_what_feeds_a_sink_has_a_plan(g);
        }
    }
    let (successors, predecessors) = build_graph(grid);
    let sources = positions(grid, Entity::Source);
    let sinks = positions(grid, Entity::Sink);
    assert(ints(sources@).len() == sources@.len());
    assert(ints(sinks@).len() == sinks@.len());
    if sources.is_empty() || sinks.is_empty() {
        return None;
    }
    proof {
        lemma_slots_with(g, Entity::Source, g.cells.len());
        assert forall|u: int, v: int| #[trigger] edge(successors@, u, v) <==> 0 <= u < g.cells.len()
            && 0 <= v < g.cells.len() && feeds(g, u, v) by {
            if 0 <= u < g.cells.len() {
                law_successors_are_fed(g, u);
                assert(successors_of(g, u).contains(v) <==> 0 <= v < g.cells.len() && feeds(
                    g,
                    u,
                    v,
                ));
            }
        }
        assert forall|v: int, u: int| #[trigger] edge(predecessors@, v, u) <==> 0 <= u
            < g.cells.len() && 0 <= v < g.cells.len() && feeds(g, u, v) by {
            if 0 <= v < g.cells.len() {
                law_predecessors_feed(g, v);
                assert(predecessors_of(g, v, g.cells.len()).contains(u) <==> 0 <= u < g.cells.len()
                    && feeds(g, u, v));
            }
        }
        assert forall|k: int| 0 <= k < sources.len() implies #[trigger] sources@[k]
            < successors.len() by {
            assert(ints(sources@)[k] == sources@[k]);
            assert(ints(sources@).contains(ints(sources@)[k]));
        }
    }
    let reachable = reachable_from(&successors, &sources);
    proof {
        lemma_reach_closed(successors@, ints(sources@));
        assert forall|k: int| 0 <= k < sources.len() implies (#[trigger] sources@[k])
            < predecessors.len() && reachable@[sources@[k] as int] by {
            assert(ints(sources@)[k] == sources@[k]);
            assert(ints(sources@).contains(ints(sources@)[k]));
            assert(marked(reachable@).contains(sources@[k] as int));
        }
        assert forall|u: int, v: int| #[trigger] edge(successors@, u, v) && reachable@[u] implies reachable@[v] by {
            assert(marked(reachable@).contains(u));
            assert(marked(reachable@).contains(v));
        }
    }
    let order = firing_order(&successors, &predecessors, &reachable, &sources);
    let plan = FlowPlan { successors, predecessors, sources, sinks, reachable, order };
    proof {
        delivery::law_a_plan_carries_what_is_received(plan, g);
    }
    Some(plan)
}

/// Nothing on a loop gets a turn: each of its slots waits for another.
#[verifier::spinoff_prover]
pub proof fn law_a_loop_gets_no_turn(
    predecessors: Seq<Vec<usize>>,
    reachable: Seq<bool>,
    roots: Seq<int>,
    order: Seq<int>,
    round: Seq<int>,
    i: int,
)
    requires
        is_firing_order(predecessors, reachable, roots, order),
        forall|k: int|
            0 <= k < round.len() ==> {
                let before = if k == 0 {
                    round[round.len() - 1]
                } else {
                    round[k - 1]
                };
                &&& edge(predecessors, #[trigger] round[k], before)
                &&& reachable[round[k]]
                &&& !roots.contains(round[k])
            },
        0 <= i < round.len(),
    ensures
        !order.contains(round[i]),
{
    if order.contains(round[i]) {
        lemma_no_turn_before(
            predecessors,
            reachable,
            roots,
            order,
            round,
            i,
            order.index_of(round[i]),
        );
    }
}

/// No turn is that of a slot on a loop, which would have to wait for one that has its turn
/// still earlier.
#[verifier::spinoff_prover]
proof fn lemma_no_turn_before(
    predecessors: Seq<Vec<usize>>,
    reachable: Seq<bool>,
    roots: Seq<int>,
    order: Seq<int>,
    round: Seq<int>,
    i: int,
    at: int,
)
    requires
        is_firing_order(predecessors, reachable, roots, order),
        forall|k: int|
            0 <= k < round.len() ==> {
                let before = if k == 0 {
                    round[round.len() - 1]
                } else {
                    round[k - 1]
                };
                &&& edge(predecessors, #[trigger] round[k], before)
                &&& reachable[round[k]]
                &&& !roots.contains(round[k])
            },
        0 <= i < round.len(),
        0 <= at < order.len(),
    ensures
        order[at] != round[i],
    decreases at,
{
    if order[at] == round[i] {
        let j = if i == 0 {
            round.len() - 1
        } else {
            i - 1
        };
        if at < roots.len() {
            assert(order.take(roots.len() as int)[at] == order[at]);
            assert(roots[at] == round[i]);
        }
        assert(supplied(predecessors, reachable, order.take(at), order[at]));
        assert(edge(predecessors, round[i], round[j]));
        assert(reachable[round[j]]);
        let earlier = order.take(at).index_of(round[j]);
        assert(order[earlier] == round[j]);
        lemma_no_turn_before(predecessors, reachable, roots, order, round, j, earlier);
    }
}

/// What waits for a slot that never gets a turn gets none either.
pub proof fn law_what_waits_in_vain_starves(
    predecessors: Seq<Vec<usize>>,
    reachable: Seq<bool>,
    roots: Seq<int>,
    order: Seq<int>,
    v: int,
    p: int,
)
    requires
        is_firing_order(predecessors, reachable, roots, order),
        edge(predecessors, v, p),
        reachable[p],
        !order.contains(p),
        !roots.contains(v),
    ensures
        !order.contains(v),
{
    if order.contains(v) {
        let k = order.index_of(v);
        if k < roots.len() {
            assert(order.take(roots.len() as int)[k] == order[k]);
            assert(roots[k] == v);
        }
        assert(supplied(predecessors, reachable, order.take(k), order[k]));
        let j = order.take(k).index_of(p);
        assert(order[j] == p);
    }
}

/// Which slots get a turn does not depend on the order in which they take it.
pub proof fn law_the_same_slots_get_a_turn(
    predecessors: Seq<Vec<usize>>,
    reachable: Seq<bool>,
    roots: Seq<int>,
    a: Seq<int>,
    b: Seq<int>,
    v: int,
)
    requires
        is_firing_order(predecessors, reachable, roots, a),
        is_firing_order(predecessors, reachable, roots, b),
    ensures
        a.contains(v) <==> b.contains(v),
{
    if a.contains(v) {
        lemma_turn_in_other_order(predecessors, reachable, roots, a, b, a.index_of(v));
    }
    if b.contains(v) {
        lemma_turn_in_other_order(predecessors, reachable, roots, b, a, b.index_of(v));
    }
}

proof fn lemma_turn_in_other_order(
    predecessors: Seq<Vec<usize>>,
    reachable: Seq<bool>,
    roots: Seq<int>,
    a: Seq<int>,
    b: Seq<int>,
    k: int,
)
    requires
        is_firing_order(predecessors, reachable, roots, a),
        is_firing_order(predecessors, reachable, roots, b),
        0 <= k < a.len(),
    ensures
        b.contains(a[k]),
    decreases k,
{
    if k < roots.len() {
        assert(a.take(roots.len() as int)[k] == a[k]);
        assert(b.take(roots.len() as int)[k] == b[k]);
    } else {
        let v = a[k];
        assert(supplied(predecessors, reachable, a.take(k), v));
        assert forall|p: int| #[trigger] edge(predecessors, v, p) && reachable[p] implies b.contains(
            p,
        ) by {
            let j = a.take(k).index_of(p);
            assert(a[j] == p);
            lemma_turn_in_other_order(predecessors, reachable, roots, a, b, j);
        }
        let p = choose|p: int| #[trigger]
            edge(predecessors, v, p) && reachable[p] && a.take(k).contains(p);
        assert(edge(predecessors, v, p) && reachable[p]);
    }
}

/// A node can be reached exactly if it is a root or an edge leads to it from a node that
/// can be reached.
pub proof fn law_what_is_reached_is_reached_step_by_step(
    lists: Seq<Vec<usize>>,
    roots: Seq<int>,
    v: int,
)
    ensures
        reach(lists, roots).contains(v) <==> roots.contains(v) || exists|u: int| #[trigger]
            edge(lists, u, v) && reach(lists, roots).contains(u),
{
    let all = reach(lists, roots);
    lemma_reach_closed(lists, roots);
    let some = Set::new(|w: int| all.contains(w) && entered(lists, roots, w));
    assert(closed_from(lists, roots, some)) by {
        assert forall|a: int, b: int| some.contains(a) && #[trigger] edge(lists, a, b) implies some.contains(
            b,
        ) by {
            assert(all.contains(a));
            assert(entered(lists, roots, b));
        }
        assert forall|r: int| #[trigger] roots.contains(r) implies some.contains(r) by {
            assert(entered(lists, roots, r));
        }
    }
    if all.contains(v) {
        assert(some.contains(v));
        assert(entered(lists, roots, v));
    }
}

/// Whether a node is a root or follows one that can be reached.
spec fn entered(lists: Seq<Vec<usize>>, roots: Seq<int>, v: int) -> bool {
    roots.contains(v) || exists|u: int| #[trigger]
        edge(lists, u, v) && reach(lists, roots).contains(u)
}

/// In an order of turns the roots come first, in their order; every other slot comes after
/// all the slots that feed it and can be reached, of which there is one, and no slot is left
/// out whose reachable predecessors all have a turn.
pub proof fn law_a_slot_waits_for_all_that_feed_it(
    predecessors: Seq<Vec<usize>>,
    reachable: Seq<bool>,
    roots: Seq<int>,
    order: Seq<int>,
    k: int,
    v: int,
    p: int,
)
    requires
        is_firing_order(predecessors, reachable, roots, order),
    ensures
        0 <= k < roots.len() ==> order.len() >= roots.len() && order[k] == roots[k],
        roots.len() <= k < order.len() && edge(predecessors, order[k], p) && reachable[p]
            ==> exists|j: int| 0 <= j < k && #[trigger] order[j] == p,
        roots.len() <= k < order.len() ==> exists|u: int| #[trigger]
            edge(predecessors, order[k], u) && reachable[u],
        0 <= v < predecessors.len() && edge(predecessors, v, p) && reachable[p] && (forall|u: int|
            #[trigger] edge(predecessors, v, u) && reachable[u] ==> order.contains(u))
            ==> order.contains(v),
{
    if 0 <= k < roots.len() {
        assert(order.take(roots.len() as int)[k] == roots[k]);
    }
    if roots.len() <= k < order.len() {
        assert(supplied(predecessors, reachable, order.take(k), order[k]));
        if edge(predecessors, order[k], p) && reachable[p] {
            let before = order.take(k);
            assert(before.contains(p));
            let j = before.index_of(p);
            assert(order[j] == p);
        }
    }
    if 0 <= v < predecessors.len() && edge(predecessors, v, p) && reachable[p] && (forall|u: int|
        #[trigger] edge(predecessors, v, u) && reachable[u] ==> order.contains(u)) {
        assert(supplied(predecessors, reachable, order, v));
    }
}

} // verus!
