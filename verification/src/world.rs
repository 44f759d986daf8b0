//! The grid that a factory is laid out on.
//!
//! A factory is a fixed-size two-dimensional grid. Each cell is described by
//! four categorical channels: entity, direction, item and misc. A legal cell has
//! channels that agree with each other, and a legal grid has entities that
//! neither overlap, nor stand on an obstacle, nor hang over the edge.
//!
//! An entity that is larger than one tile is stored at its top-left tile only,
//! its *anchor*. The other tiles of its footprint read as empty and are traced
//! back to the anchor by [`Grid::anchor_at`].

use vstd::prelude::*;

pub mod grid;
pub mod laws;
pub mod legal;

pub use grid::Grid;
pub use legal::{legal_cells, LEGAL};

verus! {

/// The longest side a grid may have. Coordinates are also handled as `i32`, with
/// room for the few tiles that a footprint or a tunnel reaches past a cell.
pub const MAX_SIDE: usize = 0x7fff_fff0;

/// The categorical channels of a cell, in the order of the channel axis.
#[derive(Debug, Clone, Copy, PartialEq, Eq, Structural)]
pub enum Channel {
    Entity,
    Direction,
    Item,
    Misc,
}

/// Number of categorical channels.
pub const N_CHANNELS: usize = 4;

/// What stands on a cell.
#[derive(Debug, Clone, Copy, PartialEq, Eq, Structural)]
pub enum Entity {
    Empty,
    Source,
    Sink,
    TransportBelt,
    UndergroundBelt,
    Splitter,
    Inserter,
    Assembler,
}

/// Facing. `Nowhere` is for cells that face nowhere.
#[derive(Debug, Clone, Copy, PartialEq, Eq, Structural)]
pub enum Direction {
    Nowhere,
    North,
    East,
    South,
    West,
}

/// Recipe or filtered item. `Nothing` when a cell has no item.
#[derive(Debug, Clone, Copy, PartialEq, Eq, Structural)]
pub enum Item {
    Nothing,
    IronPlate,
    CopperPlate,
    IronGear,
    CopperCable,
    GreenCircuit,
}

/// Which end of a tunnel an underground belt is; everything else is untagged.
#[derive(Debug, Clone, Copy, PartialEq, Eq, Structural)]
pub enum Misc {
    Untagged,
    UndergroundDown,
    UndergroundUp,
}

/// The number of categories of a channel.
pub open spec fn vocabulary(ch: Channel) -> nat {
    match ch {
        Channel::Entity => 8,
        Channel::Direction => 5,
        Channel::Item => 6,
        Channel::Misc => 3,
    }
}

/// Number of categories of each channel, indexed by [`Channel::index`].
pub const VOCAB: [usize; 4] = [8, 5, 6, 3];

impl Channel {
    pub open spec fn code(self) -> nat {
        match self {
            Channel::Entity => 0,
            Channel::Direction => 1,
            Channel::Item => 2,
            Channel::Misc => 3,
        }
    }

    /// Position on the channel axis.
    pub fn index(self) -> (i: usize)
        ensures
            i == self.code(),
            i < N_CHANNELS,
    {
        match self {
            Channel::Entity => 0,
            Channel::Direction => 1,
            Channel::Item => 2,
            Channel::Misc => 3,
        }
    }
}

impl Entity {
    pub const COUNT: usize = 8;

    pub open spec fn code(self) -> nat {
        match self {
            Entity::Empty => 0,
            Entity::Source => 1,
            Entity::Sink => 2,
            Entity::TransportBelt => 3,
            Entity::UndergroundBelt => 4,
            Entity::Splitter => 5,
            Entity::Inserter => 6,
            Entity::Assembler => 7,
        }
    }

    /// Category id.
    pub fn id(self) -> (i: usize)
        ensures
            i == self.code(),
            i < Entity::COUNT,
    {
        match self {
            Entity::Empty => 0,
            Entity::Source => 1,
            Entity::Sink => 2,
            Entity::TransportBelt => 3,
            Entity::UndergroundBelt => 4,
            Entity::Splitter => 5,
            Entity::Inserter => 6,
            Entity::Assembler => 7,
        }
    }

    /// The entity with the given category id.
    pub fn from_id(id: usize) -> (r: Option<Self>)
        ensures
            r is Some <==> id < Entity::COUNT,
            r matches Some(e) ==> e.code() == id,
    {
        match id {
            0 => Some(Entity::Empty),
            1 => Some(Entity::Source),
            2 => Some(Entity::Sink),
            3 => Some(Entity::TransportBelt),
            4 => Some(Entity::UndergroundBelt),
            5 => Some(Entity::Splitter),
            6 => Some(Entity::Inserter),
            7 => Some(Entity::Assembler),
            _ => None,
        }
    }

    /// Belts, splitters, inserters and machines face somewhere; nothing else does.
    pub open spec fn directional(self) -> bool {
        !(self is Empty || self is Source || self is Sink)
    }

    /// Whether this entity carries a direction.
    pub fn is_directional(self) -> (r: bool)
        ensures
            r == self.directional(),
    {
        !matches!(self, Entity::Empty | Entity::Source | Entity::Sink)
    }

    /// Columns and rows of the footprint, counted from the anchor to the right
    /// and down.
    pub open spec fn extent(self, direction: Direction) -> (int, int) {
        match self {
            Entity::Assembler => (3, 3),
            Entity::Splitter => match direction {
                Direction::North | Direction::South => (2, 1),
                _ => (1, 2),
            },
            _ => (1, 1),
        }
    }

    /// Width and height of the footprint of this entity facing `direction`.
    pub fn footprint(self, direction: Direction) -> (r: (usize, usize))
        ensures
            (r.0 as int, r.1 as int) == self.extent(direction),
            1 <= r.0 <= 3,
            1 <= r.1 <= 3,
    {
        match self {
            Entity::Assembler => (3, 3),
            Entity::Splitter => match direction {
                Direction::North | Direction::South => (2, 1),
                _ => (1, 2),
            },
            _ => (1, 1),
        }
    }
}

impl Direction {
    pub const COUNT: usize = 5;

    pub open spec fn code(self) -> nat {
        match self {
            Direction::Nowhere => 0,
            Direction::North => 1,
            Direction::East => 2,
            Direction::South => 3,
            Direction::West => 4,
        }
    }

    /// Category id.
    pub fn id(self) -> (i: usize)
        ensures
            i == self.code(),
            i < Direction::COUNT,
    {
        match self {
            Direction::Nowhere => 0,
            Direction::North => 1,
            Direction::East => 2,
            Direction::South => 3,
            Direction::West => 4,
        }
    }

    /// The direction with the given category id.
    pub fn from_id(id: usize) -> (r: Option<Self>)
        ensures
            r is Some <==> id < Direction::COUNT,
            r matches Some(d) ==> d.code() == id,
    {
        match id {
            0 => Some(Direction::Nowhere),
            1 => Some(Direction::North),
            2 => Some(Direction::East),
            3 => Some(Direction::South),
            4 => Some(Direction::West),
            _ => None,
        }
    }

    pub open spec fn dx(self) -> int {
        match self {
            Direction::East => 1,
            Direction::West => -1,
            _ => 0,
        }
    }

    pub open spec fn dy(self) -> int {
        match self {
            Direction::South => 1,
            Direction::North => -1,
            _ => 0,
        }
    }

    /// Unit step this direction points to; `Nowhere` stays where it is.
    pub fn delta(self) -> (r: (i32, i32))
        ensures
            r.0 == self.dx(),
            r.1 == self.dy(),
    {
        match self {
            Direction::Nowhere => (0, 0),
            Direction::North => (0, -1),
            Direction::East => (1, 0),
            Direction::South => (0, 1),
            Direction::West => (-1, 0),
        }
    }

    pub open spec fn reversed(self) -> Direction {
        match self {
            Direction::Nowhere => Direction::Nowhere,
            Direction::North => Direction::South,
            Direction::East => Direction::West,
            Direction::South => Direction::North,
            Direction::West => Direction::East,
        }
    }

    /// The direction that points the other way.
    pub fn opposite(self) -> (r: Self)
        ensures
            r == self.reversed(),
            r.dx() == -self.dx(),
            r.dy() == -self.dy(),
    {
        match self {
            Direction::Nowhere => Direction::Nowhere,
            Direction::North => Direction::South,
            Direction::East => Direction::West,
            Direction::South => Direction::North,
            Direction::West => Direction::East,
        }
    }
}

/// Turning round twice faces the same way again.
pub proof fn law_opposite_is_an_involution(d: Direction)
    ensures
        d.reversed().reversed() == d,
{
}

/// One input of a recipe.
#[derive(Debug, Clone, Copy, PartialEq, Eq, Structural)]
pub struct Ingredient {
    pub item: Item,
    /// Units consumed per craft.
    pub qty: u32,
}

/// How an assembler makes an item.
#[derive(Debug, Clone, PartialEq, Eq)]
pub struct Recipe {
    pub ingredients: Vec<Ingredient>,
    /// Units of the product per craft.
    pub output_qty: u32,
    /// Milliseconds per craft at crafting speed one.
    pub crafting_millis: u32,
}

impl Item {
    pub const COUNT: usize = 6;

    pub open spec fn code(self) -> nat {
        match self {
            Item::Nothing => 0,
            Item::IronPlate => 1,
            Item::CopperPlate => 2,
            Item::IronGear => 3,
            Item::CopperCable => 4,
            Item::GreenCircuit => 5,
        }
    }

    /// Category id.
    pub fn id(self) -> (i: usize)
        ensures
            i == self.code(),
            i < Item::COUNT,
    {
        match self {
            Item::Nothing => 0,
            Item::IronPlate => 1,
            Item::CopperPlate => 2,
            Item::IronGear => 3,
            Item::CopperCable => 4,
            Item::GreenCircuit => 5,
        }
    }

    /// The item with the given category id.
    pub fn from_id(id: usize) -> (r: Option<Self>)
        ensures
            r is Some <==> id < Item::COUNT,
            r matches Some(i) ==> i.code() == id,
    {
        match id {
            0 => Some(Item::Nothing),
            1 => Some(Item::IronPlate),
            2 => Some(Item::CopperPlate),
            3 => Some(Item::IronGear),
            4 => Some(Item::CopperCable),
            5 => Some(Item::GreenCircuit),
            _ => None,
        }
    }

    /// What one craft of this item consumes; nothing for an item that no recipe
    /// makes.
    pub open spec fn inputs(self) -> Seq<Ingredient> {
        match self {
            Item::IronGear => seq![Ingredient { item: Item::IronPlate, qty: 2 }],
            Item::CopperCable => seq![Ingredient { item: Item::CopperPlate, qty: 1 }],
            Item::GreenCircuit => seq![
                Ingredient { item: Item::IronPlate, qty: 1 },
                Ingredient { item: Item::CopperCable, qty: 3 },
            ],
            _ => seq![],
        }
    }

    /// Whether some recipe makes this item.
    pub open spec fn is_crafted(self) -> bool {
        self is IronGear || self is CopperCable || self is GreenCircuit
    }

    /// What one craft of this item consumes.
    pub fn ingredients(self) -> (r: Vec<Ingredient>)
        ensures
            r@ == self.inputs(),
            r.len() > 0 <==> self.is_crafted(),
    {
        match self {
            Item::IronGear => vec![Ingredient { item: Item::IronPlate, qty: 2 }],
            Item::CopperCable => vec![Ingredient { item: Item::CopperPlate, qty: 1 }],
            Item::GreenCircuit => vec![
                Ingredient { item: Item::IronPlate, qty: 1 },
                Ingredient { item: Item::CopperCable, qty: 3 },
            ],
            _ => Vec::new(),
        }
    }

    /// The first ingredient of the recipe that makes this item, or `None` for a
    /// raw item.
    pub fn ingredient(self) -> (r: Option<Item>)
        ensures
            r == (if self.is_crafted() { Some(self.inputs()[0].item) } else { None }),
    {
        let inputs = self.ingredients();
        if inputs.len() > 0 {
            Some(inputs[0].item)
        } else {
            None
        }
    }

    /// The recipe that makes this item, or `None` for a raw item. Every recipe
    /// takes half a second.
    pub fn recipe(self) -> (r: Option<Recipe>)
        ensures
            r is Some <==> self.is_crafted(),
            r matches Some(recipe) ==> {
                &&& recipe.ingredients@ == self.inputs()
                &&& recipe.output_qty == (if self is CopperCable { 2u32 } else { 1u32 })
                &&& recipe.crafting_millis == 500
            },
    {
        let ingredients = self.ingredients();
        if ingredients.len() > 0 {
            let output_qty: u32 = if matches!(self, Item::CopperCable) { 2 } else { 1 };
            Some(Recipe { ingredients, output_qty, crafting_millis: 500 })
        } else {
            None
        }
    }

    /// Items an assembler can be given as a recipe.
    pub fn craftable() -> (r: [Self; 3])
        ensures
            r@ == seq![Item::IronGear, Item::CopperCable, Item::GreenCircuit],
    {
        [Item::IronGear, Item::CopperCable, Item::GreenCircuit]
    }

    /// Items whose recipe needs one ingredient only.
    pub fn single_input_craftable() -> (r: [Self; 2])
        ensures
            r@ == seq![Item::IronGear, Item::CopperCable],
    {
        [Item::IronGear, Item::CopperCable]
    }
}

impl Misc {
    pub const COUNT: usize = 3;

    pub open spec fn code(self) -> nat {
        match self {
            Misc::Untagged => 0,
            Misc::UndergroundDown => 1,
            Misc::UndergroundUp => 2,
        }
    }

    /// Category id.
    pub fn id(self) -> (i: usize)
        ensures
            i == self.code(),
            i < Misc::COUNT,
    {
        match self {
            Misc::Untagged => 0,
            Misc::UndergroundDown => 1,
            Misc::UndergroundUp => 2,
        }
    }

    /// The tag with the given category id.
    pub fn from_id(id: usize) -> (r: Option<Self>)
        ensures
            r is Some <==> id < Misc::COUNT,
            r matches Some(m) ==> m.code() == id,
    {
        match id {
            0 => Some(Misc::Untagged),
            1 => Some(Misc::UndergroundDown),
            2 => Some(Misc::UndergroundUp),
            _ => None,
        }
    }
}

/// One cell: a category for every channel.
#[derive(Debug, Clone, Copy, PartialEq, Eq, Structural)]
pub struct Cell {
    pub entity: Entity,
    pub direction: Direction,
    pub item: Item,
    pub misc: Misc,
}

/// The cell nothing stands on.
pub open spec fn empty_cell() -> Cell {
    Cell {
        entity: Entity::Empty,
        direction: Direction::Nowhere,
        item: Item::Nothing,
        misc: Misc::Untagged,
    }
}

impl Default for Cell {
    fn default() -> (r: Self)
        ensures
            r == empty_cell(),
    {
        Cell {
            entity: Entity::Empty,
            direction: Direction::Nowhere,
            item: Item::Nothing,
            misc: Misc::Untagged,
        }
    }
}

impl Cell {
    /// The cell with a belt on it that faces `direction`.
    pub open spec fn belt_cell(direction: Direction) -> Cell {
        Cell {
            entity: Entity::TransportBelt,
            direction,
            item: Item::Nothing,
            misc: Misc::Untagged,
        }
    }

    /// A belt that faces `direction`.
    pub fn belt(direction: Direction) -> (r: Self)
        ensures
            r == Cell::belt_cell(direction),
    {
        Cell {
            entity: Entity::TransportBelt,
            direction,
            item: Item::Nothing,
            misc: Misc::Untagged,
        }
    }

    /// Whether nothing stands here.
    pub fn is_empty(&self) -> (r: bool)
        ensures
            r == (self.entity is Empty),
    {
        matches!(self.entity, Entity::Empty)
    }

    /// Category of one channel.
    pub open spec fn channel_code(self, ch: Channel) -> nat {
        match ch {
            Channel::Entity => self.entity.code(),
            Channel::Direction => self.direction.code(),
            Channel::Item => self.item.code(),
            Channel::Misc => self.misc.code(),
        }
    }

    /// Category id for a given channel.
    pub fn channel_id(&self, ch: Channel) -> (r: usize)
        ensures
            r == self.channel_code(ch),
            r < vocabulary(ch),
    {
        match ch {
            Channel::Entity => self.entity.id(),
            Channel::Direction => self.direction.id(),
            Channel::Item => self.item.id(),
            Channel::Misc => self.misc.id(),
        }
    }

    /// The cell with the given category ids, in channel order.
    pub fn from_ids(ids: [usize; 4]) -> (r: Option<Self>)
        ensures
            r is Some <==> (ids[0] < 8 && ids[1] < 5 && ids[2] < 6 && ids[3] < 3),
            r matches Some(c) ==> {
                &&& c.entity.code() == ids[0]
                &&& c.direction.code() == ids[1]
                &&& c.item.code() == ids[2]
                &&& c.misc.code() == ids[3]
            },
    {
        match (
            Entity::from_id(ids[0]),
            Direction::from_id(ids[1]),
            Item::from_id(ids[2]),
            Misc::from_id(ids[3]),
        ) {
            (Some(entity), Some(direction), Some(item), Some(misc)) => Some(
                Cell { entity, direction, item, misc },
            ),
            _ => None,
        }
    }

    /// What it is for the channels of a cell to agree: exactly the directional
    /// entities face somewhere, exactly the underground belts carry a tunnel tag,
    /// and only machines, sources and sinks may carry an item.
    pub open spec fn consistent(self) -> bool {
        &&& self.entity.directional() <==> self.direction !is Nowhere
        &&& self.entity is UndergroundBelt <==> self.misc !is Untagged
        &&& self.item !is Nothing ==> (self.entity is Assembler || self.entity is Source
            || self.entity is Sink)
    }

    /// Whether the channels agree.
    pub fn is_consistent(&self) -> (r: bool)
        ensures
            r == self.consistent(),
    {
        if self.entity.is_directional() != (self.direction != Direction::Nowhere) {
            return false;
        }
        let has_misc = self.misc != Misc::Untagged;
        if has_misc != (self.entity == Entity::UndergroundBelt) {
            return false;
        }
        let has_item = self.item != Item::Nothing;
        let item_bearing = matches!(
            self.entity,
            Entity::Assembler | Entity::Source | Entity::Sink
        );
        if has_item && !item_bearing {
            return false;
        }
        true
    }
}

/// Two cells with the same categories are the same cell.
pub proof fn law_categories_determine_the_cell(a: Cell, b: Cell)
    requires
        forall|ch: Channel| a.channel_code(ch) == b.channel_code(ch),
    ensures
        a == b,
{
    assert(a.channel_code(Channel::Entity) == b.channel_code(Channel::Entity));
    assert(a.channel_code(Channel::Direction) == b.channel_code(Channel::Direction));
    assert(a.channel_code(Channel::Item) == b.channel_code(Channel::Item));
    assert(a.channel_code(Channel::Misc) == b.channel_code(Channel::Misc));
}

} // verus!
