//! Exporting a factory as a Factorio 2.x blueprint.

use vstd::prelude::*;
use crate::text;
use crate::viewer;
use crate::viewer::{direction_word, entity_word, item_word};
use crate::world::grid;
use crate::world::grid::GridView;
use crate::world::{Cell, Direction, Entity, Grid, Item, Misc};

pub mod exchange;
pub mod icons;
pub mod laws;

pub use exchange::{blueprint_string, encode_payload, ExchangeError};
pub use icons::{Icon, Signal};

verus! {

/// The version stamp of Factorio 2.0.
pub const FACTORIO_2_VERSION: u64 = 562_949_958_402_048;

/// What a blueprint file holds.
#[derive(Clone, Debug, PartialEq, Eq)]
pub struct BlueprintEnvelope {
    pub blueprint: Blueprint,
}

/// A blueprint.
#[derive(Clone, Debug, PartialEq, Eq)]
pub struct Blueprint {
    pub item: String,
    pub label: String,
    pub icons: Vec<Icon>,
    pub entities: Vec<BlueprintEntity>,
    pub version: u64,
}

/// The centre of an entity, in half tiles.
#[derive(Clone, Copy, Debug, PartialEq, Eq, Structural)]
pub struct Position {
    pub x: usize,
    pub y: usize,
}

/// What a marker stands for.
#[derive(Clone, Debug, PartialEq, Eq)]
pub struct Tags {
    pub role: String,
    pub item: Option<String>,
}

/// One signal of a constant combinator. `kind` is absent for an item.
#[derive(Clone, Debug, PartialEq, Eq)]
pub struct Filter {
    pub index: usize,
    pub kind: Option<String>,
    pub name: String,
    pub quality: String,
    pub comparator: String,
    pub count: usize,
}

/// One entity of a blueprint. `control_behavior` lists the filters of the one section
/// of a constant combinator.
#[derive(Clone, Debug, PartialEq, Eq)]
pub struct BlueprintEntity {
    pub entity_number: usize,
    pub name: String,
    pub position: Position,
    pub direction: Option<u8>,
    pub belt_type: Option<String>,
    pub recipe: Option<String>,
    pub tags: Option<Tags>,
    pub control_behavior: Option<Vec<Filter>>,
}

/// Why a factory cannot be exported: the channels of a cell disagree.
#[derive(Clone, Copy, Debug, PartialEq, Eq, Structural)]
pub struct InconsistentCell {
    pub x: usize,
    pub y: usize,
    pub cell: Cell,
}

/// The name of a tag.
pub open spec fn misc_text(misc: Misc) -> Seq<char> {
    match misc {
        Misc::Untagged => "None"@,
        Misc::UndergroundDown => "UndergroundDown"@,
        Misc::UndergroundUp => "UndergroundUp"@,
    }
}

impl InconsistentCell {
    /// The reason in words.
    pub open spec fn words(self) -> Seq<char> {
        "cannot export inconsistent cell at ("@ + text::decimal(self.x as nat) + ", "@
            + text::decimal(self.y as nat) + "): Cell { entity: "@ + viewer::entity_text(
            self.cell.entity,
        ) + ", direction: "@ + viewer::direction_text(self.cell.direction) + ", item: "@
            + viewer::item_text(self.cell.item) + ", misc: "@ + misc_text(self.cell.misc) + " }"@
    }

    /// The reason in words.
    pub fn message(&self) -> (r: String)
        ensures
            r@ == self.words(),
    {
        let mut s = text::begin("cannot export inconsistent cell at (");
        text::push_number(&mut s, self.x);
        text::push(&mut s, ", ");
        text::push_number(&mut s, self.y);
        text::push(&mut s, "): Cell { entity: ");
        text::push(&mut s, entity_word(self.cell.entity));
        text::push(&mut s, ", direction: ");
        text::push(&mut s, direction_word(self.cell.direction));
        text::push(&mut s, ", item: ");
        text::push(&mut s, item_word(self.cell.item));
        text::push(&mut s, ", misc: ");
        text::push(
            &mut s,
            match self.cell.misc {
                Misc::Untagged => "None",
                Misc::UndergroundDown => "UndergroundDown",
                Misc::UndergroundUp => "UndergroundUp",
            },
        );
        text::push(&mut s, " }");
        s
    }
}

/// The contents of a filter.
pub struct FilterView {
    pub index: nat,
    pub kind: Option<Seq<char>>,
    pub name: Seq<char>,
    pub quality: Seq<char>,
    pub comparator: Seq<char>,
    pub count: nat,
}

/// The contents of a blueprint entity.
pub struct EntityView {
    pub number: nat,
    pub name: Seq<char>,
    pub x: int,
    pub y: int,
    pub direction: Option<u8>,
    pub belt_type: Option<Seq<char>>,
    pub recipe: Option<Seq<char>>,
    pub tags: Option<(Seq<char>, Option<Seq<char>>)>,
    pub filters: Option<Seq<FilterView>>,
}

/// The contents of a blueprint.
pub struct BlueprintView {
    pub item: Seq<char>,
    pub label: Seq<char>,
    pub icons: Seq<icons::IconView>,
    pub entities: Seq<EntityView>,
    pub version: u64,
}

/// The characters of a text that may be absent.
pub open spec fn characters(s: Option<String>) -> Option<Seq<char>> {
    match s {
        Some(t) => Some(t@),
        None => None,
    }
}

impl View for Filter {
    type V = FilterView;

    open spec fn view(&self) -> FilterView {
        FilterView {
            index: self.index as nat,
            kind: characters(self.kind),
            name: self.name@,
            quality: self.quality@,
            comparator: self.comparator@,
            count: self.count as nat,
        }
    }
}

impl View for BlueprintEntity {
    type V = EntityView;

    open spec fn view(&self) -> EntityView {
        EntityView {
            number: self.entity_number as nat,
            name: self.name@,
            x: self.position.x as int,
            y: self.position.y as int,
            direction: self.direction,
            belt_type: characters(self.belt_type),
            recipe: characters(self.recipe),
            tags: match self.tags {
                Some(t) => Some((t.role@, characters(t.item))),
                None => None,
            },
            filters: match self.control_behavior {
                Some(f) => Some(f@.map_values(|e: Filter| e@)),
                None => None,
            },
        }
    }
}

impl View for BlueprintEnvelope {
    type V = BlueprintView;

    open spec fn view(&self) -> BlueprintView {
        BlueprintView {
            item: self.blueprint.item@,
            label: self.blueprint.label@,
            icons: self.blueprint.icons@.map_values(|i: Icon| i@),
            entities: self.blueprint.entities@.map_values(|e: BlueprintEntity| e@),
            version: self.blueprint.version,
        }
    }
}

/// The direction code of a facing, in sixteenths of a turn from north.
pub open spec fn direction_code(direction: Direction) -> Option<u8> {
    match direction {
        Direction::Nowhere => None,
        Direction::North => Some(0),
        Direction::East => Some(4),
        Direction::South => Some(8),
        Direction::West => Some(12),
    }
}

/// The prototype name of an item.
pub open spec fn item_prototype(item: Item) -> Option<Seq<char>> {
    match item {
        Item::Nothing => None,
        Item::IronPlate => Some("iron-plate"@),
        Item::CopperPlate => Some("copper-plate"@),
        Item::IronGear => Some("iron-gear-wheel"@),
        Item::CopperCable => Some("copper-cable"@),
        Item::GreenCircuit => Some("electronic-circuit"@),
    }
}

/// The prototype name of an entity. Sources and sinks are no machines of the game: a
/// constant combinator marks where they stand.
pub open spec fn entity_prototype(entity: Entity) -> Seq<char> {
    match entity {
        Entity::Empty => ""@,
        Entity::Source | Entity::Sink => "constant-combinator"@,
        Entity::TransportBelt => "transport-belt"@,
        Entity::UndergroundBelt => "underground-belt"@,
        Entity::Splitter => "splitter"@,
        Entity::Inserter => "inserter"@,
        Entity::Assembler => "assembling-machine-1"@,
    }
}

/// The role of a marker.
pub open spec fn role_text(entity: Entity) -> Seq<char> {
    if entity is Source {
        "source"@
    } else {
        "sink"@
    }
}

/// The filters of a marker: its item, where it has one, and the signal of its role.
pub open spec fn marker_filters(cell: Cell) -> Seq<FilterView> {
    let role = FilterView {
        index: 2,
        kind: Some("virtual"@),
        name: if cell.entity is Source {
            "signal-output"@
        } else {
            "signal-input"@
        },
        quality: "normal"@,
        comparator: "="@,
        count: 1,
    };
    match item_prototype(cell.item) {
        Some(name) => seq![
            FilterView {
                index: 1,
                kind: None,
                name,
                quality: "normal"@,
                comparator: "="@,
                count: 1,
            },
            role,
        ],
        None => seq![role],
    }
}

/// Whether a cell is exported as a marker.
pub open spec fn is_marker(cell: Cell) -> bool {
    cell.entity is Source || cell.entity is Sink
}

/// The centre of an entity anchored at a tile, in half tiles: the middle of the tiles
/// that it covers.
pub open spec fn centre(cell: Cell, x: int, y: int) -> (int, int) {
    let (w, h) = cell.entity.extent(cell.direction);
    (2 * x + w, 2 * y + h)
}

/// The export of the cell at a tile.
pub open spec fn exported(cell: Cell, number: nat, x: int, y: int) -> EntityView {
    EntityView {
        number,
        name: entity_prototype(cell.entity),
        x: centre(cell, x, y).0,
        y: centre(cell, x, y).1,
        direction: if is_marker(cell) {
            Some(4)
        } else {
            direction_code(cell.direction)
        },
        belt_type: match (cell.entity, cell.misc) {
            (Entity::UndergroundBelt, Misc::UndergroundDown) => Some("input"@),
            (Entity::UndergroundBelt, Misc::UndergroundUp) => Some("output"@),
            _ => None,
        },
        recipe: if cell.entity is Assembler {
            item_prototype(cell.item)
        } else {
            None
        },
        tags: if is_marker(cell) {
            Some((role_text(cell.entity), item_prototype(cell.item)))
        } else {
            None
        },
        filters: if is_marker(cell) {
            Some(marker_filters(cell))
        } else {
            None
        },
    }
}

/// The exports of the first `k` cells in row order, numbered from one.
pub open spec fn exports(g: GridView, k: nat) -> Seq<EntityView>
    decreases k,
{
    if k == 0 {
        seq![]
    } else {
        let before = exports(g, (k - 1) as nat);
        let cell = g.cells[k - 1];
        if cell.entity is Empty {
            before
        } else {
            before.push(
                exported(
                    cell,
                    before.len() + 1,
                    (k - 1) % (g.width as int),
                    (k - 1) / (g.width as int),
                ),
            )
        }
    }
}

/// Whether a stored cell stands in the way of an export.
pub open spec fn unexportable(cell: Cell) -> bool {
    cell.entity !is Empty && !cell.consistent()
}

/// The blueprint of a factory.
pub open spec fn blueprint_of(g: GridView, label: Seq<char>) -> BlueprintView {
    BlueprintView {
        item: "blueprint"@,
        label,
        icons: icons::icons_of(g),
        entities: exports(g, g.cells.len()),
        version: FACTORIO_2_VERSION,
    }
}

/// The direction code of a facing, in sixteenths of a turn from north.
pub fn factorio_direction(direction: Direction) -> (r: Option<u8>)
    ensures
        r == direction_code(direction),
{
    match direction {
        Direction::Nowhere => None,
        Direction::North => Some(0),
        Direction::East => Some(4),
        Direction::South => Some(8),
        Direction::West => Some(12),
    }
}

/// The prototype name of an item.
pub fn item_name(item: Item) -> (r: Option<&'static str>)
    ensures
        r is Some <==> item_prototype(item) is Some,
        r is Some ==> r->0@ == item_prototype(item)->0,
{
    match item {
        Item::Nothing => None,
        Item::IronPlate => Some("iron-plate"),
        Item::CopperPlate => Some("copper-plate"),
        Item::IronGear => Some("iron-gear-wheel"),
        Item::CopperCable => Some("copper-cable"),
        Item::GreenCircuit => Some("electronic-circuit"),
    }
}

/// The name of the recipe that makes an item: the name of the item.
pub fn recipe_name(item: Item) -> (r: Option<&'static str>)
    ensures
        r is Some <==> item_prototype(item) is Some,
        r is Some ==> r->0@ == item_prototype(item)->0,
{
    item_name(item)
}

fn owned(name: Option<&'static str>) -> (r: Option<String>)
    ensures
        r is Some <==> name is Some,
        r is Some ==> r->0@ == name->0@,
{
    match name {
        Some(n) => Some(text::begin(n)),
        None => None,
    }
}

fn prototype_name(entity: Entity) -> (r: &'static str)
    ensures
        r@ == entity_prototype(entity),
{
    match entity {
        Entity::Empty => "",
        Entity::Source | Entity::Sink => "constant-combinator",
        Entity::TransportBelt => "transport-belt",
        Entity::UndergroundBelt => "underground-belt",
        Entity::Splitter => "splitter",
        Entity::Inserter => "inserter",
        Entity::Assembler => "assembling-machine-1",
    }
}

/// The centre of an entity anchored at `(x, y)`, in half tiles.
pub fn entity_position(entity: Entity, direction: Direction, x: usize, y: usize) -> (r: Position)
    requires
        2 * x + 3 <= usize::MAX,
        2 * y + 3 <= usize::MAX,
    ensures
        r.x == 2 * x + entity.extent(direction).0,
        r.y == 2 * y + entity.extent(direction).1,
{
    let (w, h) = entity.footprint(direction);
    Position { x: 2 * x + w, y: 2 * y + h }
}

fn filter(index: usize, kind: Option<&'static str>, name: &str) -> (r: Filter)
    ensures
        r@.index == index,
        r@.kind is Some <==> kind is Some,
        kind is Some ==> r@.kind == Some(kind->0@),
        r@.name == name@,
        r@.quality == "normal"@,
        r@.comparator == "="@,
        r@.count == 1,
{
    Filter {
        index,
        kind: owned(kind),
        name: text::begin(name),
        quality: text::begin("normal"),
        comparator: text::begin("="),
        count: 1,
    }
}

fn marker_signals(cell: Cell) -> (r: Vec<Filter>)
    requires
        is_marker(cell),
    ensures
        r@.map_values(|e: Filter| e@) == marker_filters(cell),
{
    let mut filters: Vec<Filter> = Vec::new();
    if let Some(name) = item_name(cell.item) {
        filters.push(filter(1, None, name));
    }
    let signal = if cell.entity == Entity::Source {
        "signal-output"
    } else {
        "signal-input"
    };
    filters.push(filter(2, Some("virtual"), signal));
    assert(filters@.map_values(|e: Filter| e@) =~= marker_filters(cell));
    filters
}

fn export(cell: Cell, number: usize, x: usize, y: usize) -> (r: BlueprintEntity)
    requires
        2 * x + 3 <= usize::MAX,
        2 * y + 3 <= usize::MAX,
    ensures
        r@ == exported(cell, number as nat, x as int, y as int),
{
    let marker = matches!(cell.entity, Entity::Source | Entity::Sink);
    let belt_type = match cell.entity {
        Entity::UndergroundBelt => match cell.misc {
            Misc::UndergroundDown => Some(text::begin("input")),
            Misc::UndergroundUp => Some(text::begin("output")),
            Misc::Untagged => None,
        },
        _ => None,
    };
    let recipe = if cell.entity == Entity::Assembler {
        owned(recipe_name(cell.item))
    } else {
        None
    };
    let role = if cell.entity == Entity::Source {
        "source"
    } else {
        "sink"
    };
    let tags = if marker {
        Some(Tags { role: text::begin(role), item: owned(item_name(cell.item)) })
    } else {
        None
    };
    let control_behavior = if marker {
        Some(marker_signals(cell))
    } else {
        None
    };
    BlueprintEntity {
        entity_number: number,
        name: text::begin(prototype_name(cell.entity)),
        position: entity_position(cell.entity, cell.direction, x, y),
        direction: if marker {
            Some(4)
        } else {
            factorio_direction(cell.direction)
        },
        belt_type,
        recipe,
        tags,
        control_behavior,
    }
}

/// Convert every cell that holds something to a blueprint entity, in row order. A cell
/// whose channels disagree is refused, the first one in row order.
pub fn grid_to_blueprint(grid: &Grid, label: &str) -> (r: Result<
    BlueprintEnvelope,
    InconsistentCell,
>)
    requires
        grid.wf(),
    ensures
        r is Ok <==> forall|i: int|
            0 <= i < grid@.cells.len() ==> !unexportable(#[trigger] grid@.cells[i]),
        r is Ok ==> r->Ok_0@ == blueprint_of(grid@, label@),
        r matches Err(e) ==> {
            &&& grid@.inside(e.x as int, e.y as int)
            &&& e.cell == grid@.at(e.x as int, e.y as int)
            &&& unexportable(e.cell)
            &&& forall|i: int|
                0 <= i < grid@.slot(e.x as int, e.y as int) ==> !unexportable(
                    #[trigger] grid@.cells[i],
                )
        },
{
    let ghost g = grid@;
    let mut entities: Vec<BlueprintEntity> = Vec::new();
    assert(entities@.map_values(|e: BlueprintEntity| e@) =~= exports(g, 0));
    let n: usize = grid.cells.len();
    let mut i: usize = 0;
    while i < n
        invariant
            grid.wf(),
            g == grid@,
            n == grid.cells@.len(),
            i <= n,
            entities@.len() <= i,
            entities@.map_values(|e: BlueprintEntity| e@) == exports(g, i as nat),
            forall|j: int| 0 <= j < i ==> !unexportable(#[trigger] g.cells[j]),
        decreases n - i,
    {
        proof {
            grid::lemma_slot_surjective(g, i as int);
        }
        let cell = grid.cells[i];
        assert(cell == g.cells[i as int]);
        if cell.entity != Entity::Empty {
            let x: usize = i % grid.width;
            let y: usize = i / grid.width;
            if !cell.is_consistent() {
                return Err(InconsistentCell { x, y, cell });
            }
            let number: usize = entities.len() + 1;
            entities.push(export(cell, number, x, y));
            assert(entities@.map_values(|e: BlueprintEntity| e@) =~= exports(g, i as nat + 1));
        }
        i = i + 1;
    }
    Ok(
        BlueprintEnvelope {
            blueprint: Blueprint {
                item: text::begin("blueprint"),
                label: text::begin(label),
                icons: icons::blueprint_icons(grid),
                entities,
                version: FACTORIO_2_VERSION,
            },
        },
    )
}

} // verus!
