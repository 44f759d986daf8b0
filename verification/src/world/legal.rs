//! The cells a factory can hold.

use vstd::prelude::*;
use crate::world::{Cell, Direction, Entity, Item, Misc};

verus! {

/// How many cells have channels that agree, of the 720 combinations there are.
pub const LEGAL: usize = 57;

/// The facings, in the order of their ids.
pub open spec fn facings() -> Seq<Direction> {
    seq![
        Direction::Nowhere,
        Direction::North,
        Direction::East,
        Direction::South,
        Direction::West,
    ]
}

/// The items, in the order of their ids.
pub open spec fn items() -> Seq<Item> {
    seq![
        Item::Nothing,
        Item::IronPlate,
        Item::CopperPlate,
        Item::IronGear,
        Item::CopperCable,
        Item::GreenCircuit,
    ]
}

/// The tags, in the order of their ids.
pub open spec fn tags() -> Seq<Misc> {
    seq![Misc::Untagged, Misc::UndergroundDown, Misc::UndergroundUp]
}

/// The anchor that provides or accepts the `k`-th item.
pub open spec fn port(entity: Entity, k: int) -> Cell {
    Cell { entity, direction: Direction::Nowhere, item: items()[k], misc: Misc::Untagged }
}

/// The carrier that faces the `k`-th way.
pub open spec fn carrier(entity: Entity, k: int) -> Cell {
    Cell { entity, direction: facings()[k + 1], item: Item::Nothing, misc: Misc::Untagged }
}

/// The `k`-th end of a tunnel: an entrance and an exit for every way.
pub open spec fn tunnel(k: int) -> Cell {
    Cell {
        entity: Entity::UndergroundBelt,
        direction: facings()[k / 2 + 1],
        item: Item::Nothing,
        misc: tags()[k % 2 + 1],
    }
}

/// The `k`-th machine: one for every way and every recipe, or none.
pub open spec fn machine(k: int) -> Cell {
    Cell {
        entity: Entity::Assembler,
        direction: facings()[k / 6 + 1],
        item: items()[k % 6],
        misc: Misc::Untagged,
    }
}

/// The legal cell in the given place, in the order of the category ids.
pub open spec fn legal_cell(k: int) -> Cell {
    if k < 1 {
        crate::world::empty_cell()
    } else if k < 7 {
        port(Entity::Source, k - 1)
    } else if k < 13 {
        port(Entity::Sink, k - 7)
    } else if k < 17 {
        carrier(Entity::TransportBelt, k - 13)
    } else if k < 25 {
        tunnel(k - 17)
    } else if k < 29 {
        carrier(Entity::Splitter, k - 25)
    } else if k < 33 {
        carrier(Entity::Inserter, k - 29)
    } else {
        machine(k - 33)
    }
}

/// The place of a combination among all, in the order of the category ids.
pub open spec fn combination(c: Cell) -> nat {
    ((c.entity.code() * 5 + c.direction.code()) * 6 + c.item.code()) * 3 + c.misc.code()
}

/// The place of a legal cell in the list.
pub open spec fn legal_index(c: Cell) -> int {
    let d = c.direction.code() as int;
    let i = c.item.code() as int;
    let m = c.misc.code() as int;
    match c.entity {
        Entity::Empty => 0,
        Entity::Source => 1 + i,
        Entity::Sink => 7 + i,
        Entity::TransportBelt => 12 + d,
        Entity::UndergroundBelt => 17 + 2 * (d - 1) + (m - 1),
        Entity::Splitter => 24 + d,
        Entity::Inserter => 28 + d,
        Entity::Assembler => 33 + 6 * (d - 1) + i,
    }
}

/// The category ids of a cell.
pub open spec fn ids_are(ids: [usize; 4], c: Cell) -> bool {
    &&& ids@[0] == c.entity.code()
    &&& ids@[1] == c.direction.code()
    &&& ids@[2] == c.item.code()
    &&& ids@[3] == c.misc.code()
}

/// The list of legal cells holds every cell whose channels agree, and no other.
pub proof fn law_the_legal_cells_are_the_consistent_ones(c: Cell)
    ensures
        c.consistent() <==> exists|k: int| 0 <= k < LEGAL && #[trigger] legal_cell(k) == c,
{
    if c.consistent() {
        let k = legal_index(c);
        assert(0 <= k < LEGAL && legal_cell(k) == c);
    }
    assert forall|k: int| 0 <= k < LEGAL implies (#[trigger] legal_cell(k)).consistent() by {
        lemma_legal_is_consistent(k);
    }
}

/// Every listed cell is consistent.
pub proof fn lemma_legal_is_consistent(k: int)
    requires
        0 <= k < LEGAL,
    ensures
        legal_cell(k).consistent(),
{
    if 33 <= k {
        let d = (k - 33) / 6;
        assert(0 <= d < 4);
    }
}

/// The legal cells are listed in the order of their category ids, each once.
pub proof fn law_the_legal_cells_are_in_order(i: int, j: int)
    requires
        0 <= i < j < LEGAL,
    ensures
        combination(legal_cell(i)) < combination(legal_cell(j)),
{
    lemma_index_of_legal(i);
    lemma_index_of_legal(j);
}

/// A listed cell stands in the place that its ids give.
proof fn lemma_index_of_legal(k: int)
    requires
        0 <= k < LEGAL,
    ensures
        legal_index(legal_cell(k)) == k,
{
    if 33 <= k {
        let d = (k - 33) / 6;
        assert(0 <= d < 4);
        assert(0 <= (k - 33) % 6 < 6);
    }
}

fn push_ports(out: &mut Vec<[usize; 4]>, entity: Entity)
    ensures
        final(out)@.len() == old(out)@.len() + 6,
        forall|i: int|
            0 <= i < old(out)@.len() ==> #[trigger] final(out)@[i] == old(out)@[i],
        forall|k: int|
            0 <= k < 6 ==> ids_are(
                #[trigger] final(out)@[old(out)@.len() + k],
                port(entity, k),
            ),
{
    let ghost before = out@;
    let mut k: usize = 0;
    while k < 6
        invariant
            k <= 6,
            out@.len() == before.len() + k,
            forall|i: int| 0 <= i < before.len() ==> #[trigger] out@[i] == before[i],
            forall|j: int|
                0 <= j < k ==> ids_are(#[trigger] out@[before.len() + j], port(entity, j)),
        decreases 6 - k,
    {
        out.push([entity.id(), 0, k, 0]);
        assert(ids_are(out@[before.len() + k as int], port(entity, k as int)));
        k = k + 1;
    }
}

fn push_carriers(out: &mut Vec<[usize; 4]>, entity: Entity)
    ensures
        final(out)@.len() == old(out)@.len() + 4,
        forall|i: int|
            0 <= i < old(out)@.len() ==> #[trigger] final(out)@[i] == old(out)@[i],
        forall|k: int|
            0 <= k < 4 ==> ids_are(
                #[trigger] final(out)@[old(out)@.len() + k],
                carrier(entity, k),
            ),
{
    let ghost before = out@;
    let mut k: usize = 0;
    while k < 4
        invariant
            k <= 4,
            out@.len() == before.len() + k,
            forall|i: int| 0 <= i < before.len() ==> #[trigger] out@[i] == before[i],
            forall|j: int|
                0 <= j < k ==> ids_are(#[trigger] out@[before.len() + j], carrier(entity, j)),
        decreases 4 - k,
    {
        out.push([entity.id(), k + 1, 0, 0]);
        assert(ids_are(out@[before.len() + k as int], carrier(entity, k as int)));
        k = k + 1;
    }
}

fn push_tunnels(out: &mut Vec<[usize; 4]>)
    ensures
        final(out)@.len() == old(out)@.len() + 8,
        forall|i: int|
            0 <= i < old(out)@.len() ==> #[trigger] final(out)@[i] == old(out)@[i],
        forall|k: int|
            0 <= k < 8 ==> ids_are(#[trigger] final(out)@[old(out)@.len() + k], tunnel(k)),
{
    let ghost before = out@;
    let mut k: usize = 0;
    while k < 8
        invariant
            k <= 8,
            out@.len() == before.len() + k,
            forall|i: int| 0 <= i < before.len() ==> #[trigger] out@[i] == before[i],
            forall|j: int| 0 <= j < k ==> ids_are(#[trigger] out@[before.len() + j], tunnel(j)),
        decreases 8 - k,
    {
        out.push([Entity::UndergroundBelt.id(), k / 2 + 1, 0, k % 2 + 1]);
        assert(ids_are(out@[before.len() + k as int], tunnel(k as int)));
        k = k + 1;
    }
}

fn push_machines(out: &mut Vec<[usize; 4]>)
    ensures
        final(out)@.len() == old(out)@.len() + 24,
        forall|i: int|
            0 <= i < old(out)@.len() ==> #[trigger] final(out)@[i] == old(out)@[i],
        forall|k: int|
            0 <= k < 24 ==> ids_are(#[trigger] final(out)@[old(out)@.len() + k], machine(k)),
{
    let ghost before = out@;
    let mut k: usize = 0;
    while k < 24
        invariant
            k <= 24,
            out@.len() == before.len() + k,
            forall|i: int| 0 <= i < before.len() ==> #[trigger] out@[i] == before[i],
            forall|j: int| 0 <= j < k ==> ids_are(#[trigger] out@[before.len() + j], machine(j)),
        decreases 24 - k,
    {
        out.push([Entity::Assembler.id(), k / 6 + 1, k % 6, 0]);
        assert(ids_are(out@[before.len() + k as int], machine(k as int)));
        k = k + 1;
    }
}

/// The category ids of every cell whose channels agree, in order. A cell is chosen among
/// these as a whole: chosen one by one, the channels need not agree.
pub fn legal_cells() -> (r: Vec<[usize; 4]>)
    ensures
        r@.len() == LEGAL,
        forall|k: int| 0 <= k < LEGAL ==> ids_are(#[trigger] r@[k], legal_cell(k)),
{
    let mut out: Vec<[usize; 4]> = Vec::new();
    out.push([0, 0, 0, 0]);
    push_ports(&mut out, Entity::Source);
    let ghost sources = out@;
    push_ports(&mut out, Entity::Sink);
    let ghost sinks = out@;
    push_carriers(&mut out, Entity::TransportBelt);
    let ghost belts = out@;
    push_tunnels(&mut out);
    let ghost tunnels = out@;
    push_carriers(&mut out, Entity::Splitter);
    let ghost splitters = out@;
    push_carriers(&mut out, Entity::Inserter);
    let ghost inserters = out@;
    push_machines(&mut out);
    assert forall|k: int| 0 <= k < LEGAL implies ids_are(#[trigger] out@[k], legal_cell(k)) by {
        if 33 <= k {
            assert(out@[k] == out@[inserters.len() + (k - 33)]);
        } else if 29 <= k {
            assert(out@[k] == inserters[k]);
            assert(inserters[k] == inserters[splitters.len() + (k - 29)]);
        } else if 25 <= k {
            assert(out@[k] == inserters[k] && inserters[k] == splitters[k]);
            assert(splitters[k] == splitters[tunnels.len() + (k - 25)]);
        } else if 17 <= k {
            assert(out@[k] == inserters[k] && inserters[k] == splitters[k]);
            assert(splitters[k] == tunnels[k]);
            assert(tunnels[k] == tunnels[belts.len() + (k - 17)]);
        } else {
            assert(out@[k] == inserters[k] && inserters[k] == splitters[k]);
            assert(splitters[k] == tunnels[k] && tunnels[k] == belts[k]);
            if 13 <= k {
                assert(belts[k] == belts[sinks.len() + (k - 13)]);
            } else if 7 <= k {
                assert(belts[k] == sinks[k]);
                assert(sinks[k] == sinks[sources.len() + (k - 7)]);
            } else if 1 <= k {
                assert(belts[k] == sinks[k] && sinks[k] == sources[k]);
                assert(sources[k] == sources[1 + (k - 1)]);
            }
        }
    }
    out
}

} // verus!
