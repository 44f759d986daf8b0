//! The icons of a blueprint.

use vstd::prelude::*;
use crate::blueprint;
use crate::text;
use crate::world::grid::GridView;
use crate::world::{Entity, Grid, Item};

verus! {

/// The game shows this many icons at most.
pub const MAX_ICONS: usize = 4;

/// What an icon shows.
#[derive(Clone, Debug, PartialEq, Eq)]
pub struct Signal {
    pub name: String,
    pub kind: String,
}

/// One icon of a blueprint.
#[derive(Clone, Debug, PartialEq, Eq)]
pub struct Icon {
    pub signal: Signal,
    pub index: usize,
}

/// The contents of an icon.
pub struct IconView {
    pub name: Seq<char>,
    pub kind: Seq<char>,
    pub index: nat,
}

impl View for Icon {
    type V = IconView;

    open spec fn view(&self) -> IconView {
        IconView { name: self.signal.name@, kind: self.signal.kind@, index: self.index as nat }
    }
}

/// A list with one more item, unless that is nothing or there already.
pub open spec fn with_item(items: Seq<Item>, item: Item) -> Seq<Item> {
    if item is Nothing || items.contains(item) {
        items
    } else {
        items.push(item)
    }
}

/// `items` and the items of the entities of one kind among the first `k` cells, each
/// once, in row order.
pub open spec fn items_at(items: Seq<Item>, g: GridView, kind: Entity, k: nat) -> Seq<Item>
    decreases k,
{
    if k == 0 {
        items
    } else {
        let before = items_at(items, g, kind, (k - 1) as nat);
        let cell = g.cells[k - 1];
        if cell.entity == kind {
            with_item(before, cell.item)
        } else {
            before
        }
    }
}

/// The items a factory is about, each once: what its sinks want, then what its sources
/// bring.
pub open spec fn subjects(g: GridView) -> Seq<Item> {
    let n = g.cells.len();
    items_at(items_at(seq![], g, Entity::Sink, n), g, Entity::Source, n)
}

/// The icon of the `k`-th item.
pub open spec fn icon_of(items: Seq<Item>, k: int) -> IconView {
    IconView {
        name: blueprint::item_prototype(items[k])->0,
        kind: "item"@,
        index: (k + 1) as nat,
    }
}

/// The icons of a factory: its first four subjects, or a belt where it has none.
pub open spec fn icons_of(g: GridView) -> Seq<IconView> {
    let items = subjects(g);
    if items.len() == 0 {
        seq![IconView { name: "transport-belt"@, kind: "item"@, index: 1 }]
    } else {
        Seq::new(
            if items.len() < MAX_ICONS {
                items.len()
            } else {
                MAX_ICONS as nat
            },
            |k: int| icon_of(items, k),
        )
    }
}

fn listed(items: &Vec<Item>, item: Item) -> (r: bool)
    ensures
        r == items@.contains(item),
{
    let mut i: usize = 0;
    while i < items.len()
        invariant
            i <= items@.len(),
            forall|j: int| 0 <= j < i ==> items@[j] != item,
        decreases items@.len() - i,
    {
        if items[i] == item {
            return true;
        }
        i = i + 1;
    }
    false
}

fn add_items(items: &mut Vec<Item>, grid: &Grid, kind: Entity)
    requires
        grid.wf(),
        forall|j: int| 0 <= j < old(items)@.len() ==> old(items)@[j] !is Nothing,
    ensures
        final(items)@ == items_at(old(items)@, grid@, kind, grid@.cells.len()),
        forall|j: int| 0 <= j < final(items)@.len() ==> final(items)@[j] !is Nothing,
{
    let ghost before = items@;
    let ghost g = grid@;
    let n: usize = grid.cells.len();
    let mut i: usize = 0;
    while i < n
        invariant
            g == grid@,
            n == grid.cells@.len(),
            grid.cells@ == g.cells,
            i <= n,
            items@ == items_at(before, g, kind, i as nat),
            forall|j: int| 0 <= j < items@.len() ==> items@[j] !is Nothing,
        decreases n - i,
    {
        let cell = grid.cells[i];
        if cell.entity == kind && cell.item != Item::Nothing && !listed(items, cell.item) {
            items.push(cell.item);
        }
        i = i + 1;
    }
}

/// The icons of a factory: the products its sinks want, then the items its sources
/// bring, four at most. A factory without a named item is shown as a belt, so that there
/// is always one.
pub fn blueprint_icons(grid: &Grid) -> (r: Vec<Icon>)
    requires
        grid.wf(),
    ensures
        r@.map_values(|i: Icon| i@) == icons_of(grid@),
{
    let mut items: Vec<Item> = Vec::new();
    add_items(&mut items, grid, Entity::Sink);
    add_items(&mut items, grid, Entity::Source);
    let ghost all = items@;
    let mut icons: Vec<Icon> = Vec::new();
    if items.len() == 0 {
        let signal = Signal { name: text::begin("transport-belt"), kind: text::begin("item") };
        icons.push(Icon { signal, index: 1 });
        assert(icons@.map_values(|i: Icon| i@) =~= icons_of(grid@));
        return icons;
    }
    while icons.len() < items.len() && icons.len() < MAX_ICONS
        invariant
            items@ == all,
            forall|j: int| 0 <= j < items@.len() ==> items@[j] !is Nothing,
            icons@.len() <= items@.len(),
            icons@.len() <= MAX_ICONS,
            forall|k: int| 0 <= k < icons@.len() ==> (#[trigger] icons@[k])@ == icon_of(all, k),
        decreases MAX_ICONS - icons@.len(),
    {
        let k: usize = icons.len();
        if let Some(name) = blueprint::item_name(items[k]) {
            let signal = Signal { name: text::begin(name), kind: text::begin("item") };
            icons.push(Icon { signal, index: k + 1 });
        }
    }
    assert(icons@.map_values(|i: Icon| i@) =~= icons_of(grid@));
    icons
}

} // verus!
