//! What a factory delivers along its plan, and that the plan agrees with the check of
//! whether the factory works.

use vstd::prelude::*;
use crate::sim;
use crate::throughput;
use crate::throughput::FlowPlan;
use crate::world::grid;
use crate::world::grid::GridView;
use crate::world::{Entity, Item};

verus! {

/// Whether the entity at `p` offers to the one at `q`, and that one takes.
pub open spec fn passes_to(g: GridView, p: (int, int), q: (int, int)) -> bool {
    sim::targets(g, p.0, p.1).contains(q) && throughput::takes(g, q, p)
}

/// Whether `arrived` has everything in it that is handed on to a conveyor that takes it.
pub open spec fn closed_under_taking(g: GridView, arrived: Set<(int, int, Item)>) -> bool {
    forall|p: (int, int), q: (int, int), item: Item|
        #![trigger passes_to(g, p, q), arrived.contains((q.0, q.1, item))]
        g.inside(p.0, p.1) && passes_to(g, p, q) && sim::conveys(g.at(q.0, q.1).entity)
            && sim::hands_on(g, arrived, p.0, p.1, item) ==> arrived.contains((q.0, q.1, item))
}

/// What each entity receives if only those receive that take: the least such set.
pub open spec fn received(g: GridView) -> Set<(int, int, Item)> {
    Set::new(
        |t: (int, int, Item)|
            forall|s: Set<(int, int, Item)>| #[trigger]
                closed_under_taking(g, s) ==> s.contains(t),
    )
}

/// Whether the conveyor at `p` passes `item` to the sink at `q`, which accepts it.
pub open spec fn supplies(g: GridView, p: (int, int), q: (int, int), item: Item) -> bool {
    &&& g.inside(p.0, p.1)
    &&& sim::conveys(g.at(p.0, p.1).entity)
    &&& passes_to(g, p, q)
    &&& g.at(q.0, q.1).entity is Sink
    &&& sim::accepts(g.at(q.0, q.1).item, item)
    &&& sim::hands_on(g, received(g), p.0, p.1, item)
}

/// Whether some sink is supplied with an item that it accepts, through entities that each
/// take what the one before offers.
pub open spec fn feeds_a_sink(g: GridView) -> bool {
    exists|p: (int, int), q: (int, int), item: Item| #[trigger] supplies(g, p, q, item)
}

/// What each entity receives is itself closed.
pub proof fn lemma_received_closed(g: GridView)
    ensures
        closed_under_taking(g, received(g)),
{
    let l = received(g);
    assert forall|p: (int, int), q: (int, int), item: Item|
        #![trigger passes_to(g, p, q), l.contains((q.0, q.1, item))]
        g.inside(p.0, p.1) && passes_to(g, p, q) && sim::conveys(g.at(q.0, q.1).entity)
            && sim::hands_on(g, l, p.0, p.1, item) implies l.contains((q.0, q.1, item)) by {
        assert forall|s: Set<(int, int, Item)>| #[trigger]
            closed_under_taking(g, s) implies s.contains((q.0, q.1, item)) by {
            assert(l.subset_of(s));
            sim::lemma_hands_on_monotone(g, l, s, p.0, p.1, item);
        }
    }
}

/// What an entity hands on is received by every conveyor that it passes it to.
pub proof fn lemma_received(g: GridView, p: (int, int), q: (int, int), item: Item)
    requires
        g.inside(p.0, p.1),
        sim::hands_on(g, received(g), p.0, p.1, item),
        passes_to(g, p, q),
        sim::conveys(g.at(q.0, q.1).entity),
    ensures
        received(g).contains((q.0, q.1, item)),
{
    lemma_received_closed(g);
}

/// A factory that supplies a sink through entities that take what is offered works.
pub proof fn law_what_feeds_a_sink_works(g: GridView)
    requires
        feeds_a_sink(g),
    ensures
        sim::functional(g),
{
    let all = sim::arrivals(g);
    sim::lemma_arrivals_closed(g);
    assert(closed_under_taking(g, all)) by {
        assert forall|p: (int, int), q: (int, int), item: Item|
            #![trigger passes_to(g, p, q), all.contains((q.0, q.1, item))]
            g.inside(p.0, p.1) && passes_to(g, p, q) && sim::conveys(g.at(q.0, q.1).entity)
                && sim::hands_on(g, all, p.0, p.1, item) implies all.contains((q.0, q.1, item)) by {
            assert(sim::settled(g, all, p.0, p.1));
        }
    }
    assert(received(g).subset_of(all));
    let (p, q, item) = choose|p: (int, int), q: (int, int), item: Item| #[trigger]
        supplies(g, p, q, item);
    sim::lemma_hands_on_monotone(g, received(g), all, p.0, p.1, item);
    assert(sim::delivers(g, all, p.0, p.1, q, item));
}

impl FlowPlan {
    /// Whether `arrived` has everything in it that is handed on along an edge to a
    /// conveyor.
    pub open spec fn closed(self, g: GridView, arrived: Set<(int, int, Item)>) -> bool {
        forall|u: int, v: int, item: Item|
            #![trigger throughput::edge(self.successors@, u, v), arrived.contains(item_at(g, v, item))]
            throughput::edge(self.successors@, u, v) && sim::conveys(g.cells[v].entity) && sim::hands_on(
                g,
                arrived,
                throughput::tile_of(g, u).0,
                throughput::tile_of(g, u).1,
                item,
            ) ==> arrived.contains(item_at(g, v, item))
    }

    /// What is carried along the edges: the least such set.
    pub open spec fn carried(self, g: GridView) -> Set<(int, int, Item)> {
        Set::new(
            |t: (int, int, Item)|
                forall|s: Set<(int, int, Item)>| #[trigger] self.closed(g, s) ==> s.contains(t),
        )
    }

    /// Whether the conveyor in slot `u` hands `item` along an edge to the sink in slot
    /// `v`, which accepts it.
    pub open spec fn delivers(self, g: GridView, u: int, v: int, item: Item) -> bool {
        &&& throughput::edge(self.successors@, u, v)
        &&& sim::conveys(g.cells[u].entity)
        &&& g.cells[v].entity is Sink
        &&& sim::accepts(g.cells[v].item, item)
        &&& sim::hands_on(g, self.carried(g), throughput::tile_of(g, u).0, throughput::tile_of(g, u).1, item)
    }

    /// Whether an item is carried along the edges to a sink that accepts it.
    pub open spec fn feeds_a_sink(self, g: GridView) -> bool {
        exists|u: int, v: int, item: Item| #[trigger] self.delivers(g, u, v, item)
    }
}

/// An item and the tile of a slot.
pub open spec fn item_at(g: GridView, v: int, item: Item) -> (int, int, Item) {
    (throughput::tile_of(g, v).0, throughput::tile_of(g, v).1, item)
}

/// The edges of a plan are the pairs of slots of which one feeds the other.
proof fn lemma_plan_edges(plan: FlowPlan, g: GridView, u: int, v: int)
    requires
        g.valid(),
        plan.of(g),
    ensures
        throughput::edge(plan.successors@, u, v) <==> 0 <= u < g.cells.len() && 0 <= v < g.cells.len()
            && throughput::feeds(g, u, v),
{
    if 0 <= u < g.cells.len() {
        throughput::law_successors_are_fed(g, u);
        assert(throughput::successors_of(g, u).contains(v) <==> 0 <= v < g.cells.len() && throughput::feeds(g, u, v));
    }
}

/// Where a slot is, and what it holds.
proof fn lemma_tile_of(g: GridView, i: int)
    requires
        g.valid(),
        0 <= i < g.cells.len(),
    ensures
        g.inside(throughput::tile_of(g, i).0, throughput::tile_of(g, i).1),
        g.at(throughput::tile_of(g, i).0, throughput::tile_of(g, i).1) == g.cells[i],
{
    grid::lemma_slot_surjective(g, i);
}

/// The slot of a tile, as an end of an edge.
proof fn lemma_slot_of(g: GridView, p: (int, int))
    requires
        g.valid(),
        g.inside(p.0, p.1),
    ensures
        0 <= g.slot(p.0, p.1) < g.cells.len(),
        throughput::tile_of(g, g.slot(p.0, p.1)) == p,
        g.at(p.0, p.1) == g.cells[g.slot(p.0, p.1)],
{
    grid::lemma_slot(g, p.0, p.1);
    grid::lemma_slot_inverse(g, p.0, p.1);
}

/// An entity that passes something on passes it to a tile of the board.
proof fn lemma_passed_inside(g: GridView, p: (int, int), q: (int, int))
    requires
        g.valid(),
        g.inside(p.0, p.1),
        passes_to(g, p, q),
    ensures
        g.inside(q.0, q.1),
{
    sim::law_targets_are_other_entities(g, p.0, p.1);
    let ts = sim::targets(g, p.0, p.1);
    assert(ts[ts.index_of(q)] == q);
}

/// What is carried along the edges of a plan is what is received from entities that feed
/// each other.
pub proof fn law_a_plan_carries_what_is_received(plan: FlowPlan, g: GridView)
    requires
        g.valid(),
        plan.of(g),
    ensures
        plan.carried(g) == received(g),
        plan.feeds_a_sink(g) <==> feeds_a_sink(g),
{
    assert forall|s: Set<(int, int, Item)>|
        #![trigger plan.closed(g, s)]
        #![trigger closed_under_taking(g, s)]
        plan.closed(g, s) <==> closed_under_taking(g, s) by {
        if plan.closed(g, s) {
            assert forall|p: (int, int), q: (int, int), item: Item|
                #![trigger passes_to(g, p, q), s.contains((q.0, q.1, item))]
                g.inside(p.0, p.1) && passes_to(g, p, q) && sim::conveys(g.at(q.0, q.1).entity)
                    && sim::hands_on(g, s, p.0, p.1, item) implies s.contains((q.0, q.1, item)) by {
                lemma_passed_inside(g, p, q);
                lemma_slot_of(g, p);
                lemma_slot_of(g, q);
                lemma_plan_edges(plan, g, g.slot(p.0, p.1), g.slot(q.0, q.1));
                assert(throughput::edge(plan.successors@, g.slot(p.0, p.1), g.slot(q.0, q.1)));
                assert(item_at(g, g.slot(q.0, q.1), item) == (q.0, q.1, item));
                assert(s.contains(item_at(g, g.slot(q.0, q.1), item)));
            }
        }
        if closed_under_taking(g, s) {
            assert forall|u: int, v: int, item: Item|
                #![trigger throughput::edge(plan.successors@, u, v), s.contains(item_at(g, v, item))]
                throughput::edge(plan.successors@, u, v) && sim::conveys(g.cells[v].entity) && sim::hands_on(
                    g,
                    s,
                    throughput::tile_of(g, u).0,
                    throughput::tile_of(g, u).1,
                    item,
                ) implies s.contains(item_at(g, v, item)) by {
                lemma_plan_edges(plan, g, u, v);
                lemma_tile_of(g, u);
                lemma_tile_of(g, v);
                assert(passes_to(g, throughput::tile_of(g, u), throughput::tile_of(g, v)));
                assert(s.contains((throughput::tile_of(g, v).0, throughput::tile_of(g, v).1, item)));
            }
        }
    }
    assert(plan.carried(g) =~= received(g));
    if plan.feeds_a_sink(g) {
        let (u, v, item) = choose|u: int, v: int, item: Item| #[trigger]
            plan.delivers(g, u, v, item);
        lemma_plan_edges(plan, g, u, v);
        lemma_tile_of(g, u);
        lemma_tile_of(g, v);
        assert(supplies(g, throughput::tile_of(g, u), throughput::tile_of(g, v), item));
    }
    if feeds_a_sink(g) {
        let (p, q, item) = choose|p: (int, int), q: (int, int), item: Item| #[trigger]
            supplies(g, p, q, item);
        lemma_passed_inside(g, p, q);
        lemma_slot_of(g, p);
        lemma_slot_of(g, q);
        lemma_plan_edges(plan, g, g.slot(p.0, p.1), g.slot(q.0, q.1));
        assert(plan.delivers(g, g.slot(p.0, p.1), g.slot(q.0, q.1), item));
    }
}

/// Where the plan carries an item to a sink that accepts it, the factory works.
pub proof fn law_what_a_plan_delivers_works(plan: FlowPlan, g: GridView)
    requires
        g.valid(),
        plan.of(g),
        plan.feeds_a_sink(g),
    ensures
        sim::functional(g),
{
    law_a_plan_carries_what_is_received(plan, g);
    law_what_feeds_a_sink_works(g);
}

/// A factory that feeds a sink has a source and a sink, and so a plan.
pub proof fn law_what_feeds_a_sink_has_a_plan(g: GridView)
    requires
        g.valid(),
        feeds_a_sink(g),
    ensures
        throughput::slots_with(g, Entity::Source, g.cells.len()).len() > 0,
        throughput::slots_with(g, Entity::Sink, g.cells.len()).len() > 0,
{
    let (sources, sinks) = (
        throughput::slots_with(g, Entity::Source, g.cells.len()),
        throughput::slots_with(g, Entity::Sink, g.cells.len()),
    );
    throughput::lemma_slots_with(g, Entity::Source, g.cells.len());
    throughput::lemma_slots_with(g, Entity::Sink, g.cells.len());
    let (p, q, item) = choose|p: (int, int), q: (int, int), item: Item| #[trigger]
        supplies(g, p, q, item);
    lemma_passed_inside(g, p, q);
    lemma_slot_of(g, q);
    assert(sinks.contains(g.slot(q.0, q.1)));
    law_what_feeds_a_sink_works(g);
    if sources.len() == 0 {
        assert forall|x: int, y: int| #[trigger] g.inside(x, y) implies g.at(
            x,
            y,
        ).entity !is Source by {
            lemma_slot_of(g, (x, y));
            if g.at(x, y).entity is Source {
                assert(sources.contains(g.slot(x, y)));
            }
        }
        sim::law_no_source_no_flow(g);
    }
}

/// Whether some entity passes an item on to a conveyor or a machine that takes it.
spec fn passed(g: GridView, x: int, y: int, item: Item) -> bool {
    exists|a: int, b: int| #[trigger]
        passes_to(g, (a, b), (x, y)) && g.inside(a, b) && sim::hands_on(g, received(g), a, b, item)
            && sim::conveys(g.at(x, y).entity)
}

/// An item is received by a conveyor or a machine exactly if some entity that has it to
/// hand on offers it to that, and that takes it.
pub proof fn law_items_are_received_where_they_are_passed(g: GridView, x: int, y: int, item: Item)
    ensures
        received(g).contains((x, y, item)) <==> exists|a: int, b: int| #[trigger]
            passes_to(g, (a, b), (x, y)) && g.inside(a, b) && sim::hands_on(
                g,
                received(g),
                a,
                b,
                item,
            ) && sim::conveys(g.at(x, y).entity),
{
    let all = received(g);
    lemma_received_closed(g);
    if passed(g, x, y, item) {
        let (a, b) = choose|a: int, b: int| #[trigger]
            passes_to(g, (a, b), (x, y)) && g.inside(a, b) && sim::hands_on(g, all, a, b, item)
                && sim::conveys(g.at(x, y).entity);
        lemma_received(g, (a, b), (x, y), item);
    }
    let some = Set::new(|u: (int, int, Item)| all.contains(u) && passed(g, u.0, u.1, u.2));
    assert(closed_under_taking(g, some)) by {
        assert forall|p: (int, int), q: (int, int), i: Item|
            #![trigger passes_to(g, p, q), some.contains((q.0, q.1, i))]
            g.inside(p.0, p.1) && passes_to(g, p, q) && sim::conveys(g.at(q.0, q.1).entity)
                && sim::hands_on(g, some, p.0, p.1, i) implies some.contains((q.0, q.1, i)) by {
            assert(some.subset_of(all));
            sim::lemma_hands_on_monotone(g, some, all, p.0, p.1, i);
            lemma_received(g, p, q, i);
            assert(passes_to(g, (p.0, p.1), (q.0, q.1)));
            assert(passed(g, q.0, q.1, i));
        }
    }
    if all.contains((x, y, item)) {
        assert(some.contains((x, y, item)));
        assert(passed(g, x, y, item));
    }
}

/// A sink is fed exactly where an entity other than a source, which has an item to hand on,
/// passes it to a sink that is tagged with that item or not tagged.
pub proof fn law_who_feeds_a_sink(g: GridView, p: (int, int), q: (int, int), item: Item)
    ensures
        supplies(g, p, q, item) <==> {
            let e = g.at(p.0, p.1).entity;
            &&& g.inside(p.0, p.1)
            &&& e is TransportBelt || e is UndergroundBelt || e is Splitter || e is Inserter || e
                is Assembler
            &&& sim::targets(g, p.0, p.1).contains(q)
            &&& g.at(q.0, q.1).entity is Sink
            &&& g.at(q.0, q.1).item is Nothing || g.at(q.0, q.1).item == item
            &&& sim::hands_on(g, received(g), p.0, p.1, item)
        },
{
}

} // verus!
