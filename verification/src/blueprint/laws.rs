//! What holds of every export.

use vstd::prelude::*;
use crate::best_of_n;
use crate::blueprint;
use crate::blueprint::icons;
use crate::blueprint::icons::MAX_ICONS;
use crate::sim;
use crate::text;
use crate::viewer;
use crate::world::grid;
use crate::world::grid::GridView;
use crate::world::{Cell, Direction, Entity, Item, Misc};

verus! {

/// Every occupied cell is exported once, and the exports are numbered from one in their
/// order.
pub proof fn law_entities_are_numbered_from_one(g: GridView, k: nat)
    ensures
        blueprint::exports(g, k).len() == best_of_n::part_count(g.cells, k),
        forall|i: int|
            0 <= i < blueprint::exports(g, k).len() ==> (#[trigger] blueprint::exports(
                g,
                k,
            )[i]).number == i + 1,
    decreases k,
{
    if k > 0 {
        law_entities_are_numbered_from_one(g, (k - 1) as nat);
    }
}

/// An entity is centred on the tiles it covers: a tile is covered exactly where its
/// square lies in the box of the entity's size around its exported centre.
pub proof fn law_entities_are_centred_on_their_tiles(g: GridView, ax: int, ay: int, x: int, y: int)
    requires
        g.inside(ax, ay),
        g.at(ax, ay).entity !is Empty,
    ensures
        ({
            let (w, h) = g.extent_at(ax, ay);
            let (cx, cy) = blueprint::centre(g.at(ax, ay), ax, ay);
            g.covers(ax, ay, x, y) <==> cx - w <= 2 * x && 2 * x + 2 <= cx + w && cy - h <= 2 * y
                && 2 * y + 2 <= cy + h
        }),
{
}

/// On legal ground no two exported entities stand on the same ground: the boxes of their
/// sizes around their centres lie beside or above each other.
pub proof fn law_exports_do_not_overlap(g: GridView, ax: int, ay: int, bx: int, by: int)
    requires
        g.legal(),
        g.inside(ax, ay),
        g.inside(bx, by),
        (ax, ay) != (bx, by),
        g.at(ax, ay).entity !is Empty,
        g.at(bx, by).entity !is Empty,
    ensures
        ({
            let (aw, ah) = g.extent_at(ax, ay);
            let (bw, bh) = g.extent_at(bx, by);
            let (acx, acy) = blueprint::centre(g.at(ax, ay), ax, ay);
            let (bcx, bcy) = blueprint::centre(g.at(bx, by), bx, by);
            ||| acx + aw <= bcx - bw
            ||| bcx + bw <= acx - aw
            ||| acy + ah <= bcy - bh
            ||| bcy + bh <= acy - ah
        }),
{
    let x = if ax < bx {
        bx
    } else {
        ax
    };
    let y = if ay < by {
        by
    } else {
        ay
    };
    if g.covers(ax, ay, x, y) && g.covers(bx, by, x, y) {
        grid::law_anchor_is_unique_on_legal_ground(g, ax, ay, x, y);
        grid::law_anchor_is_unique_on_legal_ground(g, bx, by, x, y);
    }
}

/// An inserter is exported facing the tile it drops into: the direction is that of the
/// one tile it hands its items to.
pub proof fn law_an_inserter_points_at_its_drop(g: GridView, x: int, y: int, number: nat)
    requires
        g.at(x, y).entity is Inserter,
    ensures
        blueprint::exported(g.at(x, y), number, x, y).direction == blueprint::direction_code(
            g.at(x, y).direction,
        ),
        sim::offers(g, x, y) == sim::ahead(g, x, y, g.at(x, y).direction),
{
}

/// A blueprint has one to four icons, numbered from one.
pub proof fn law_there_are_one_to_four_icons(g: GridView)
    ensures
        1 <= icons::icons_of(g).len() <= MAX_ICONS,
        forall|k: int|
            0 <= k < icons::icons_of(g).len() ==> (#[trigger] icons::icons_of(g)[k]).index == k + 1,
{
}

/// The step that north becomes after some quarter turns clockwise. Rows count downwards.
pub open spec fn turned(quarters: nat) -> (int, int)
    decreases quarters,
{
    if quarters == 0 {
        (0, -1)
    } else {
        let (dx, dy) = turned((quarters - 1) as nat);
        (-dy, dx)
    }
}

/// The code of a facing is the clockwise turn from north to it, in sixteenths: north turned
/// by it is the step that the facing takes.
pub proof fn law_a_direction_is_the_turn_from_north(d: Direction)
    ensures
        blueprint::direction_code(d) is None <==> d is Nowhere,
        blueprint::direction_code(d) matches Some(c) ==> {
            &&& c < 16
            &&& c % 4 == 0
            &&& turned((c / 4) as nat) == (d.dx(), d.dy())
            &&& (c == 0 <==> (d.dx(), d.dy()) == (0int, -1int))
            &&& (c == 4 <==> (d.dx(), d.dy()) == (1int, 0int))
            &&& (c == 8 <==> (d.dx(), d.dy()) == (0int, 1int))
            &&& (c == 12 <==> (d.dx(), d.dy()) == (-1int, 0int))
        },
{
    reveal_with_fuel(turned, 4);
}

/// Whatever is not a marker is exported with the turn from north to the tile it faces;
/// every marker is exported facing east.
pub proof fn law_an_export_faces_where_the_cell_does(cell: Cell, number: nat, x: int, y: int)
    ensures
        ({
            let e = blueprint::exported(cell, number, x, y);
            let d = if cell.entity is Source || cell.entity is Sink {
                Direction::East
            } else {
                cell.direction
            };
            &&& e.direction is None <==> d is Nowhere
            &&& e.direction matches Some(c) ==> c < 16 && c % 4 == 0 && turned((c / 4) as nat) == (
                d.dx(),
                d.dy(),
            )
        }),
{
    law_a_direction_is_the_turn_from_north(cell.direction);
    law_a_direction_is_the_turn_from_north(Direction::East);
}

/// Items go by their names in the game, no two by the same.
pub proof fn law_items_have_their_own_names(a: Item, b: Item)
    ensures
        blueprint::item_prototype(a) is None <==> a is Nothing,
        blueprint::item_prototype(a) == blueprint::item_prototype(b) <==> a == b,
        a is IronPlate ==> blueprint::item_prototype(a) == Some("iron-plate"@),
        a is CopperPlate ==> blueprint::item_prototype(a) == Some("copper-plate"@),
        a is IronGear ==> blueprint::item_prototype(a) == Some("iron-gear-wheel"@),
        a is CopperCable ==> blueprint::item_prototype(a) == Some("copper-cable"@),
        a is GreenCircuit ==> blueprint::item_prototype(a) == Some("electronic-circuit"@),
{
    reveal_strlit("iron-plate");
    reveal_strlit("copper-plate");
    reveal_strlit("iron-gear-wheel");
    reveal_strlit("copper-cable");
    reveal_strlit("electronic-circuit");
    assert("iron-plate"@.len() == 10);
    assert("copper-plate"@.len() == 12 && "copper-plate"@[7] == 'p');
    assert("iron-gear-wheel"@.len() == 15);
    assert("copper-cable"@.len() == 12 && "copper-cable"@[7] == 'c');
    assert("electronic-circuit"@.len() == 18);
}

/// An entity is exported under its name in the game. A source and a sink are no machines of
/// the game, so both are exported as the combinator that marks their place.
pub proof fn law_entities_have_their_own_names(cell: Cell, number: nat, x: int, y: int)
    ensures
        ({
            let name = blueprint::exported(cell, number, x, y).name;
            match cell.entity {
                Entity::Empty => name == ""@,
                Entity::TransportBelt => name == "transport-belt"@,
                Entity::UndergroundBelt => name == "underground-belt"@,
                Entity::Splitter => name == "splitter"@,
                Entity::Inserter => name == "inserter"@,
                Entity::Assembler => name == "assembling-machine-1"@,
                Entity::Source => name == "constant-combinator"@,
                Entity::Sink => name == "constant-combinator"@,
            }
        }),
{
}

/// A machine is exported with the recipe of its item, which goes by the name that a marker
/// of that item is tagged with; nothing else has a recipe.
pub proof fn law_only_machines_have_recipes(
    cell: Cell,
    marker: Cell,
    number: nat,
    x: int,
    y: int,
)
    requires
        marker.entity is Source || marker.entity is Sink,
        marker.item == cell.item,
    ensures
        ({
            let e = blueprint::exported(cell, number, x, y);
            let m = blueprint::exported(marker, number, x, y);
            &&& e.recipe is Some <==> cell.entity is Assembler && cell.item !is Nothing
            &&& m.tags is Some
            &&& cell.entity is Assembler ==> (m.tags->0).1 == e.recipe
        }),
{
}

/// The lower end of a tunnel is exported as its input and the upper end as its output;
/// nothing else has an end.
pub proof fn law_tunnels_go_in_and_come_out(cell: Cell, number: nat, x: int, y: int)
    ensures
        ({
            let end = blueprint::exported(cell, number, x, y).belt_type;
            &&& end is Some <==> cell.entity is UndergroundBelt && cell.misc !is Untagged
            &&& end is Some && cell.misc is UndergroundDown ==> end->0 == "input"@
            &&& end is Some && cell.misc is UndergroundUp ==> end->0 == "output"@
        }),
{
}

/// Sources and sinks, and nothing else, are tagged with their role and signal it: a source
/// as an output and a sink as an input, each once, and their item once, if they have one.
pub proof fn law_markers_tell_their_role(cell: Cell, number: nat, x: int, y: int)
    ensures
        ({
            let e = blueprint::exported(cell, number, x, y);
            let marks = cell.entity is Source || cell.entity is Sink;
            &&& e.tags is Some <==> marks
            &&& e.filters is Some <==> marks
            &&& marks ==> {
                let filters = e.filters->0;
                let last = filters[filters.len() - 1];
                &&& (e.tags->0).0 == (if cell.entity is Source {
                    "source"@
                } else {
                    "sink"@
                })
                &&& filters.len() == (if cell.item is Nothing {
                    1int
                } else {
                    2int
                })
                &&& last.kind == Some("virtual"@)
                &&& last.index == 2
                &&& last.name == (if cell.entity is Source {
                    "signal-output"@
                } else {
                    "signal-input"@
                })
                &&& cell.item !is Nothing ==> {
                    &&& filters[0].kind is None
                    &&& filters[0].index == 1
                    &&& (e.tags->0).1 == Some(filters[0].name)
                }
                &&& cell.item is Nothing ==> (e.tags->0).1 is None
                &&& forall|k: int|
                    0 <= k < filters.len() ==> (#[trigger] filters[k]).count == 1
                        && filters[k].quality == "normal"@ && filters[k].comparator == "="@
            }
        }),
{
}

/// Whether an export stands where a cell does and has the fields that the cell calls for.
pub open spec fn stands_for(g: GridView, e: blueprint::EntityView, x: int, y: int) -> bool {
    &&& g.inside(x, y)
    &&& g.at(x, y).entity !is Empty
    &&& e == blueprint::exported(g.at(x, y), e.number, x, y)
}

/// Every export stands for an occupied cell, and exports come in row order: of two, the
/// later one stands in a later row, or further right in the same row.
pub proof fn law_exports_follow_the_rows(g: GridView, k: nat, i: int)
    requires
        g.valid(),
        k <= g.cells.len(),
        0 <= i < blueprint::exports(g, k).len(),
    ensures
        exists|x: int, y: int|
            #[trigger] stands_for(g, blueprint::exports(g, k)[i], x, y) && g.slot(x, y) < k
                && forall|j: int, a: int, b: int|
                0 <= j < i && #[trigger] stands_for(g, blueprint::exports(g, k)[j], a, b)
                    && blueprint::exports(g, k)[j].number == j + 1 ==> b < y || b == y && a < x,
    decreases k,
{
    let all = blueprint::exports(g, k);
    let at = k - 1;
    let before = blueprint::exports(g, at as nat);
    grid::lemma_slot_surjective(g, at);
    let (x, y) = (at % (g.width as int), at / (g.width as int));
    if i < before.len() {
        assert(all[i] == before[i]);
        law_exports_follow_the_rows(g, at as nat, i);
        let (p, q) = choose|p: int, q: int|
            #[trigger] stands_for(g, before[i], p, q) && g.slot(p, q) < at && forall|
                j: int,
                a: int,
                b: int,
            |
                0 <= j < i && #[trigger] stands_for(g, before[j], a, b) && before[j].number == j + 1
                    ==> b < q || b == q && a < p;
        assert(forall|j: int| 0 <= j < before.len() ==> all[j] == before[j]);
        assert(stands_for(g, all[i], p, q));
    } else {
        assert(all[i].number == i + 1);
        assert(stands_for(g, all[i], x, y));
        assert forall|j: int, a: int, b: int|
            0 <= j < i && #[trigger] stands_for(g, all[j], a, b) && all[j].number == j + 1 implies b
            < y || b == y && a < x by {
            assert(all[j] == before[j]);
            law_exports_follow_the_rows(g, at as nat, j);
            let (p, q) = choose|p: int, q: int|
                #[trigger] stands_for(g, before[j], p, q) && g.slot(p, q) < at;
            lemma_same_place(g, before[j], a, b, p, q);
            grid::lemma_slot(g, p, q);
            lemma_earlier(g, p, q, x, y);
        }
    }
}

/// An export stands for one cell only.
proof fn lemma_same_place(g: GridView, e: blueprint::EntityView, a: int, b: int, p: int, q: int)
    requires
        stands_for(g, e, a, b),
        stands_for(g, e, p, q),
    ensures
        a == p,
        b == q,
{
    law_entities_have_their_own_names(g.at(a, b), e.number, a, b);
    law_entities_have_their_own_names(g.at(p, q), e.number, p, q);
    law_an_export_faces_where_the_cell_does(g.at(a, b), e.number, a, b);
    law_an_export_faces_where_the_cell_does(g.at(p, q), e.number, p, q);
    reveal_strlit("transport-belt");
    reveal_strlit("underground-belt");
    reveal_strlit("splitter");
    reveal_strlit("inserter");
    reveal_strlit("assembling-machine-1");
    reveal_strlit("constant-combinator");
    assert("splitter"@[0] == 's');
    assert("inserter"@[0] == 'i');
    assert("transport-belt"@.len() == 14);
    assert("underground-belt"@.len() == 16);
    assert("assembling-machine-1"@.len() == 20);
    assert("constant-combinator"@.len() == 19);
}

/// A cell with a smaller slot stands in an earlier row, or further left in the same row.
proof fn lemma_earlier(g: GridView, p: int, q: int, x: int, y: int)
    requires
        g.inside(p, q),
        g.inside(x, y),
        g.slot(p, q) < g.slot(x, y),
    ensures
        q < y || q == y && p < x,
{
    let w = g.width as int;
    if q > y {
        assert(q * w >= (y + 1) * w) by (nonlinear_arith)
            requires
                q >= y + 1,
                w >= 0,
        ;
        assert((y + 1) * w == y * w + w) by (nonlinear_arith);
    }
}

/// Every occupied cell is among the exports.
pub proof fn law_every_occupied_cell_is_exported(g: GridView, k: nat, x: int, y: int)
    requires
        g.valid(),
        k <= g.cells.len(),
        g.inside(x, y),
        g.slot(x, y) < k,
        g.at(x, y).entity !is Empty,
    ensures
        exists|i: int|
            0 <= i < blueprint::exports(g, k).len() && stands_for(
                g,
                #[trigger] blueprint::exports(g, k)[i],
                x,
                y,
            ),
    decreases k,
{
    let all = blueprint::exports(g, k);
    let at = k - 1;
    let before = blueprint::exports(g, at as nat);
    if g.slot(x, y) < at {
        law_every_occupied_cell_is_exported(g, at as nat, x, y);
        let i = choose|i: int|
            0 <= i < before.len() && stands_for(g, #[trigger] before[i], x, y);
        assert(all[i] == before[i]);
    } else {
        grid::lemma_slot_inverse(g, x, y);
        assert(stands_for(g, all[before.len() as int], x, y));
    }
}

/// The list of items never repeats one, never holds nothing, and holds what it began with
/// and what the cells of the kind bring.
proof fn lemma_items_at(items: Seq<Item>, g: GridView, kind: Entity, k: nat)
    requires
        items.no_duplicates(),
        !items.contains(Item::Nothing),
        k <= g.cells.len(),
    ensures
        ({
            let all = icons::items_at(items, g, kind, k);
            &&& all.no_duplicates()
            &&& !all.contains(Item::Nothing)
            &&& items.len() <= all.len()
            &&& forall|i: int| 0 <= i < items.len() ==> #[trigger] all[i] == items[i]
            &&& forall|i: int|
                0 <= i < k && (#[trigger] g.cells[i]).entity == kind && g.cells[i].item !is Nothing
                    ==> all.contains(g.cells[i].item)
            &&& forall|j: int|
                items.len() <= j < all.len() ==> exists|i: int|
                    0 <= i < k && (#[trigger] g.cells[i]).entity == kind && g.cells[i].item
                        == #[trigger] all[j]
        }),
    decreases k,
{
    if k > 0 {
        lemma_items_at(items, g, kind, (k - 1) as nat);
        let before = icons::items_at(items, g, kind, (k - 1) as nat);
        let all = icons::items_at(items, g, kind, k);
        let cell = g.cells[k - 1];
        assert(forall|i: int| 0 <= i < before.len() ==> all[i] == before[i]);
        assert forall|i: int|
            0 <= i < k && (#[trigger] g.cells[i]).entity == kind && g.cells[i].item
                !is Nothing implies all.contains(g.cells[i].item) by {
            if i < k - 1 {
                let at = before.index_of(g.cells[i].item);
                assert(all[at] == g.cells[i].item);
            } else if before.contains(cell.item) {
                let at = before.index_of(cell.item);
                assert(all[at] == cell.item);
            } else {
                assert(all[before.len() as int] == cell.item);
            }
        }
        assert forall|j: int| items.len() <= j < all.len() implies exists|i: int|
            0 <= i < k && (#[trigger] g.cells[i]).entity == kind && g.cells[i].item
                == #[trigger] all[j] by {
            if j >= before.len() {
                assert(g.cells[k - 1].item == all[j]);
            } else {
                let i = choose|i: int|
                    0 <= i < k - 1 && (#[trigger] g.cells[i]).entity == kind && g.cells[i].item
                        == before[j];
                assert(g.cells[i].item == all[j]);
            }
        }
    }
}

/// Whether some cell of a kind carries an item.
pub open spec fn carried_by(g: GridView, kind: Entity, item: Item) -> bool {
    exists|i: int|
        0 <= i < g.cells.len() && (#[trigger] g.cells[i]).entity == kind && g.cells[i].item == item
}

/// The subjects of a factory are the items of its sinks and sources, each once, and those
/// of the sinks come before those that only sources have.
pub proof fn law_subjects_are_what_goes_out_and_in(g: GridView, item: Item)
    ensures
        icons::subjects(g).no_duplicates(),
        icons::subjects(g).contains(item) <==> item !is Nothing && (carried_by(
            g,
            Entity::Sink,
            item,
        ) || carried_by(g, Entity::Source, item)),
        forall|i: int, j: int|
            0 <= i < j < icons::subjects(g).len() && carried_by(
                g,
                Entity::Sink,
                #[trigger] icons::subjects(g)[j],
            ) ==> carried_by(g, Entity::Sink, #[trigger] icons::subjects(g)[i]),
{
    let n = g.cells.len();
    let sinks = icons::items_at(seq![], g, Entity::Sink, n);
    let all = icons::subjects(g);
    lemma_items_at(seq![], g, Entity::Sink, n);
    lemma_items_at(sinks, g, Entity::Source, n);
    assert forall|k: int| 0 <= k < all.len() implies (carried_by(g, Entity::Sink, #[trigger] all[k])
        <==> k < sinks.len()) by {
        if k < sinks.len() {
            assert(sinks[k] == all[k]);
            let i = choose|i: int|
                0 <= i < n && (#[trigger] g.cells[i]).entity == Entity::Sink && g.cells[i].item
                    == sinks[k];
            assert(g.cells[i].entity == Entity::Sink);
        } else if carried_by(g, Entity::Sink, all[k]) {
            let i = choose|i: int|
                0 <= i < n && (#[trigger] g.cells[i]).entity == Entity::Sink && g.cells[i].item
                    == all[k];
            assert(all.contains(all[k]));
            assert(sinks.contains(g.cells[i].item));
            let at = sinks.index_of(all[k]);
            assert(all[at] == all[k]);
        }
    }
    if all.contains(item) {
        let k = all.index_of(item);
        assert(all[k] == item);
        if k >= sinks.len() {
            let i = choose|i: int|
                0 <= i < n && (#[trigger] g.cells[i]).entity == Entity::Source && g.cells[i].item
                    == all[k];
            assert(g.cells[i].entity == Entity::Source);
        }
    }
    if item !is Nothing && carried_by(g, Entity::Sink, item) {
        let at = sinks.index_of(item);
        assert(all[at] == item);
    }
}

/// A factory with named items shows its first four subjects under their names; one without
/// shows a belt.
pub proof fn law_icons_show_the_first_subjects(g: GridView)
    ensures
        ({
            let items = icons::subjects(g);
            let shown = icons::icons_of(g);
            &&& items.len() == 0 ==> shown.len() == 1 && shown[0].name == "transport-belt"@
            &&& items.len() > 0 ==> shown.len() == (if items.len() < 4 {
                items.len()
            } else {
                4
            })
            &&& forall|k: int|
                0 <= k < shown.len() ==> (#[trigger] shown[k]).kind == "item"@ && (items.len() > 0
                    ==> Some(shown[k].name) == blueprint::item_prototype(items[k]))
        }),
{
    let items = icons::subjects(g);
    assert forall|k: int| 0 <= k < items.len() implies #[trigger] items[k] !is Nothing by {
        law_subjects_are_what_goes_out_and_in(g, items[k]);
        assert(items.contains(items[k]));
    }
}

/// A blueprint is marked as one of the game's second version, carries its label, its icons
/// and all its entities.
pub proof fn law_what_a_blueprint_holds(g: GridView, label: Seq<char>)
    ensures
        ({
            let b = blueprint::blueprint_of(g, label);
            &&& b.item == "blueprint"@
            &&& b.label == label
            &&& b.version == 562_949_958_402_048
            &&& b.icons == icons::icons_of(g)
            &&& b.entities == blueprint::exports(g, g.cells.len())
            &&& b.entities.len() == Set::new(
                |i: int| 0 <= i < g.cells.len() && g.cells[i].entity !is Empty,
            ).len()
        }),
{
    law_entities_are_numbered_from_one(g, g.cells.len());
    best_of_n::law_parts_are_the_occupied_cells(g.cells, g.cells.len());
}

/// A factory cannot be exported exactly if something is built whose categories disagree.
pub proof fn law_what_stands_in_the_way_of_an_export(c: Cell)
    ensures
        blueprint::unexportable(c) <==> c.entity !is Empty && !c.consistent(),
        c.entity is Empty ==> !blueprint::unexportable(c),
        c.entity is TransportBelt && c.direction is Nowhere ==> blueprint::unexportable(c),
        c.entity is UndergroundBelt && c.misc is Untagged ==> blueprint::unexportable(c),
{
}

/// A refused cell is named with its tile and with what each channel holds.
pub proof fn law_a_refused_cell_is_named(e: blueprint::InconsistentCell)
    ensures
        e.words() == "cannot export inconsistent cell at ("@ + text::decimal(e.x as nat) + ", "@
            + text::decimal(e.y as nat) + "): Cell { entity: "@ + viewer::entity_text(e.cell.entity)
            + ", direction: "@ + viewer::direction_text(e.cell.direction) + ", item: "@
            + viewer::item_text(e.cell.item) + ", misc: "@ + (match e.cell.misc {
            Misc::Untagged => "None",
            Misc::UndergroundDown => "UndergroundDown",
            Misc::UndergroundUp => "UndergroundUp",
        })@ + " }"@,
{
}

} // verus!
