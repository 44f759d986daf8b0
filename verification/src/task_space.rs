//! How much there is to learn: keys by which tasks, answers and layouts are told apart
//! and counted.

use vstd::prelude::*;
use crate::sample;
use crate::world;
use crate::world::grid;
use crate::world::grid::GridView;
use crate::world::{Cell, Grid};

pub mod laws;

verus! {

/// A cell and where it is stored.
#[derive(Clone, Copy, Debug, PartialEq, Eq, PartialOrd, Ord, Hash, Structural)]
pub struct CellAt {
    pub slot: usize,
    pub entity: usize,
    pub direction: usize,
    pub item: usize,
    pub misc: usize,
}

/// A part of a layout, by its distance from the left and the top of the layout.
#[derive(Clone, Copy, Debug, PartialEq, Eq, PartialOrd, Ord, Hash, Structural)]
pub struct PartAt {
    pub dx: usize,
    pub dy: usize,
    pub entity: usize,
    pub direction: usize,
    pub item: usize,
    pub misc: usize,
    pub blocked: bool,
}

/// Cells and terrain that are told apart.
#[derive(Clone, Debug, PartialEq, Eq, PartialOrd, Ord, Hash)]
pub struct TaskKey {
    pub cells: Vec<CellAt>,
    pub obstacles: Vec<usize>,
}

/// The entry of a cell.
pub open spec fn entry(c: Cell, slot: int) -> CellAt {
    CellAt {
        slot: slot as usize,
        entity: c.entity.code() as usize,
        direction: c.direction.code() as usize,
        item: c.item.code() as usize,
        misc: c.misc.code() as usize,
    }
}

/// The entries of the cells that are flagged, in order.
pub open spec fn entries(cells: Seq<Cell>, flags: Seq<bool>) -> Seq<CellAt> {
    sample::hidden(flags, flags.len()).map_values(|s: int| entry(cells[s], s))
}

/// Which cells hold something.
pub open spec fn occupied_flags(g: GridView) -> Seq<bool> {
    Seq::new(g.cells.len(), |i: int| g.cells[i].entity !is Empty)
}

/// Which flags are not set.
pub open spec fn unset(flags: Seq<bool>) -> Seq<bool> {
    flags.map_values(|f: bool| !f)
}

/// The smallest of some numbers.
pub open spec fn least(v: Seq<int>) -> int
    decreases v.len(),
{
    if v.len() <= 1 {
        v[0]
    } else {
        let rest = least(v.drop_last());
        if v.last() < rest {
            v.last()
        } else {
            rest
        }
    }
}

/// The columns of some slots.
pub open spec fn columns(g: GridView, slots: Seq<int>) -> Seq<int> {
    slots.map_values(|s: int| s % (g.width as int))
}

/// The rows of some slots.
pub open spec fn rows(g: GridView, slots: Seq<int>) -> Seq<int> {
    slots.map_values(|s: int| s / (g.width as int))
}

/// What of a cell tells layouts apart: all of it, or nothing if it is empty.
pub open spec fn distinctive(c: Cell) -> Cell {
    if c.entity is Empty {
        world::empty_cell()
    } else {
        c
    }
}

/// What stands at a slot, as a part of the layout that some slots make up.
pub open spec fn part(g: GridView, slots: Seq<int>, s: int, terrain: bool) -> PartAt {
    let w = g.width as int;
    let c = distinctive(g.cells[s]);
    PartAt {
        dx: (s % w - least(columns(g, slots))) as usize,
        dy: (s / w - least(rows(g, slots))) as usize,
        entity: c.entity.code() as usize,
        direction: c.direction.code() as usize,
        item: c.item.code() as usize,
        misc: c.misc.code() as usize,
        blocked: terrain && g.obstacle[s],
    }
}

/// The layout that the flagged slots make up, wherever on the board it stands.
pub open spec fn layout(g: GridView, flags: Seq<bool>, terrain: bool) -> Seq<PartAt> {
    let slots = sample::hidden(flags, flags.len());
    slots.map_values(|s: int| part(g, slots, s, terrain))
}

/// Which slots hold an entity or are blocked.
pub open spec fn used_flags(g: GridView) -> Seq<bool> {
    Seq::new(g.cells.len(), |i: int| g.cells[i].entity !is Empty || g.obstacle[i])
}

/// Which slots hold an entity that is not given.
pub open spec fn answer_flags(g: GridView, observed: Seq<bool>) -> Seq<bool> {
    Seq::new(g.cells.len(), |i: int| !observed[i] && g.cells[i].entity !is Empty)
}

fn entry_of(c: Cell, slot: usize) -> (r: CellAt)
    ensures
        r == entry(c, slot as int),
{
    CellAt {
        slot,
        entity: c.entity.id(),
        direction: c.direction.id(),
        item: c.item.id(),
        misc: c.misc.id(),
    }
}

fn flagged(flags: &Vec<bool>) -> (r: Vec<usize>)
    ensures
        r@.len() == sample::hidden(flags@, flags@.len()).len(),
        forall|j: int|
            0 <= j < r@.len() ==> #[trigger] r@[j] == sample::hidden(flags@, flags@.len())[j],
{
    let mut r: Vec<usize> = Vec::new();
    let mut i: usize = 0;
    while i < flags.len()
        invariant
            i <= flags@.len(),
            r@.len() == sample::hidden(flags@, i as nat).len(),
            forall|j: int|
                0 <= j < r@.len() ==> #[trigger] r@[j] == sample::hidden(flags@, i as nat)[j],
        decreases flags@.len() - i,
    {
        if flags[i] {
            r.push(i);
        }
        i = i + 1;
    }
    r
}

fn entries_of(cells: &Vec<Cell>, flags: &Vec<bool>) -> (r: Vec<CellAt>)
    requires
        flags@.len() == cells@.len(),
    ensures
        r@ == entries(cells@, flags@),
{
    let slots = flagged(flags);
    let ghost listed = sample::hidden(flags@, flags@.len());
    proof {
        sample::lemma_hidden(flags@, flags@.len());
    }
    let mut r: Vec<CellAt> = Vec::new();
    let mut j: usize = 0;
    while j < slots.len()
        invariant
            listed == sample::hidden(flags@, flags@.len()),
            flags@.len() == cells@.len(),
            slots@.len() == listed.len(),
            forall|k: int| 0 <= k < slots@.len() ==> #[trigger] slots@[k] == listed[k],
            forall|k: int| 0 <= k < listed.len() ==> 0 <= #[trigger] listed[k] < cells@.len(),
            j <= slots@.len(),
            r@.len() == j,
            forall|k: int| 0 <= k < j ==> #[trigger] r@[k] == entry(cells@[listed[k]], listed[k]),
        decreases slots@.len() - j,
    {
        let s = slots[j];
        assert(s == listed[j as int]);
        r.push(entry_of(cells[s], s));
        j = j + 1;
    }
    assert(r@ =~= entries(cells@, flags@));
    r
}

fn blocked_slots(g: &Grid) -> (r: Vec<usize>)
    ensures
        r@.len() == sample::hidden(g@.obstacle, g@.obstacle.len()).len(),
        forall|j: int|
            0 <= j < r@.len() ==> #[trigger] r@[j] == sample::hidden(
                g@.obstacle,
                g@.obstacle.len(),
            )[j],
{
    flagged(&g.obstacle)
}

/// Whether a key lists the flagged cells of a grid, and its obstacles.
pub open spec fn keyed(k: TaskKey, g: GridView, flags: Seq<bool>) -> bool {
    &&& k.cells@ == entries(g.cells, flags)
    &&& k.obstacles@.map_values(|s: usize| s as int) == sample::hidden(
        g.obstacle,
        g.obstacle.len(),
    )
}

/// The key of a whole factory: every occupied cell on every channel, and the terrain.
pub fn factory_key(g: &Grid) -> (r: TaskKey)
    requires
        g.wf(),
    ensures
        keyed(r, g@, occupied_flags(g@)),
{
    let mut flags: Vec<bool> = Vec::new();
    let mut i: usize = 0;
    while i < g.cells.len()
        invariant
            i <= g.cells@.len(),
            flags@.len() == i,
            forall|j: int| 0 <= j < i ==> #[trigger] flags@[j] == (g@.cells[j].entity !is Empty),
        decreases g.cells@.len() - i,
    {
        flags.push(!g.cells[i].is_empty());
        i = i + 1;
    }
    assert(flags@ =~= occupied_flags(g@));
    let cells = entries_of(&g.cells, &flags);
    let obstacles = blocked_slots(g);
    assert(obstacles@.map_values(|s: usize| s as int) =~= sample::hidden(
        g@.obstacle,
        g@.obstacle.len(),
    ));
    TaskKey { cells, obstacles }
}

/// The key of what a model is shown: the given cells, empty ones too, and the terrain.
pub fn conditioning_key(g: &Grid, observed: &Vec<bool>) -> (r: TaskKey)
    requires
        g.wf(),
        observed@.len() == g@.cells.len(),
    ensures
        keyed(r, g@, observed@),
{
    let cells = entries_of(&g.cells, observed);
    let obstacles = blocked_slots(g);
    assert(obstacles@.map_values(|s: usize| s as int) =~= sample::hidden(
        g@.obstacle,
        g@.obstacle.len(),
    ));
    TaskKey { cells, obstacles }
}

/// The key of the answer: the cells that are not given, empty ones too.
pub fn answer_key(g: &Grid, observed: &Vec<bool>) -> (r: Vec<CellAt>)
    requires
        g.wf(),
        observed@.len() == g@.cells.len(),
    ensures
        r@ == entries(g@.cells, unset(observed@)),
{
    let mut flags: Vec<bool> = Vec::new();
    let mut i: usize = 0;
    while i < observed.len()
        invariant
            i <= observed@.len(),
            flags@.len() == i,
            forall|j: int| 0 <= j < i ==> #[trigger] flags@[j] == !observed@[j],
        decreases observed@.len() - i,
    {
        flags.push(!observed[i]);
        i = i + 1;
    }
    assert(flags@ =~= unset(observed@));
    entries_of(&g.cells, &flags)
}

/// The least of a list is one of it, and no other is smaller.
proof fn lemma_least(v: Seq<int>)
    requires
        v.len() > 0,
    ensures
        forall|i: int| 0 <= i < v.len() ==> least(v) <= #[trigger] v[i],
        exists|i: int| 0 <= i < v.len() && #[trigger] v[i] == least(v),
    decreases v.len(),
{
    if v.len() == 1 {
        assert(v[0] == least(v));
    } else {
        let rest = v.drop_last();
        lemma_least(rest);
        let i = choose|i: int| 0 <= i < rest.len() && #[trigger] rest[i] == least(rest);
        assert(v[i] == rest[i]);
        assert(v[v.len() - 1] == v.last());
        assert forall|j: int| 0 <= j < v.len() implies least(v) <= #[trigger] v[j] by {
            if j < rest.len() {
                assert(v[j] == rest[j]);
            }
        }
    }
}

fn layout_of(g: &Grid, flags: &Vec<bool>, terrain: bool) -> (r: Vec<PartAt>)
    requires
        g.wf(),
        flags@.len() == g@.cells.len(),
    ensures
        r@ == layout(g@, flags@, terrain),
{
    let slots = flagged(flags);
    let ghost view = g@;
    let ghost listed = sample::hidden(flags@, flags@.len());
    proof {
        sample::lemma_hidden(flags@, flags@.len());
    }
    let mut out: Vec<PartAt> = Vec::new();
    if slots.len() == 0 {
        assert(out@ =~= layout(g@, flags@, terrain));
        return out;
    }
    proof {
        grid::lemma_slot_surjective(view, listed[0]);
    }
    let w: usize = g.width;
    let mut left: usize = slots[0] % w;
    let mut top: usize = slots[0] / w;
    let mut j: usize = 1;
    assert(columns(view, listed).take(1) =~= seq![left as int]);
    assert(rows(view, listed).take(1) =~= seq![top as int]);
    while j < slots.len()
        invariant
            view == g@,
            w == view.width,
            w > 0,
            slots@.len() == listed.len(),
            forall|k: int| 0 <= k < slots@.len() ==> #[trigger] slots@[k] == listed[k],
            1 <= j <= slots@.len(),
            left == least(columns(view, listed).take(j as int)),
            top == least(rows(view, listed).take(j as int)),
        decreases slots@.len() - j,
    {
        let s = slots[j];
        assert(s == listed[j as int]);
        let x = s % w;
        let y = s / w;
        proof {
            let cs = columns(view, listed).take(j + 1);
            assert(cs.drop_last() =~= columns(view, listed).take(j as int));
            assert(cs.last() == x);
            let rs = rows(view, listed).take(j + 1);
            assert(rs.drop_last() =~= rows(view, listed).take(j as int));
            assert(rs.last() == y);
        }
        if x < left {
            left = x;
        }
        if y < top {
            top = y;
        }
        j = j + 1;
    }
    proof {
        assert(columns(view, listed).take(j as int) =~= columns(view, listed));
        assert(rows(view, listed).take(j as int) =~= rows(view, listed));
        lemma_least(columns(view, listed));
        lemma_least(rows(view, listed));
    }
    let mut i: usize = 0;
    while i < slots.len()
        invariant
            view == g@,
            g.wf(),
            w == view.width,
            w > 0,
            slots@.len() == listed.len(),
            forall|k: int| 0 <= k < slots@.len() ==> #[trigger] slots@[k] == listed[k],
            forall|k: int| 0 <= k < listed.len() ==> 0 <= #[trigger] listed[k] < view.cells.len(),
            left == least(columns(view, listed)),
            top == least(rows(view, listed)),
            forall|k: int| 0 <= k < listed.len() ==> left <= #[trigger] columns(view, listed)[k],
            forall|k: int| 0 <= k < listed.len() ==> top <= #[trigger] rows(view, listed)[k],
            i <= slots@.len(),
            out@.len() == i,
            forall|k: int|
                0 <= k < i ==> #[trigger] out@[k] == part(view, listed, listed[k], terrain),
        decreases slots@.len() - i,
    {
        let s = slots[i];
        assert(s == listed[i as int]);
        assert(columns(view, listed)[i as int] == s as int % w as int);
        assert(rows(view, listed)[i as int] == s as int / w as int);
        let c = if g.cells[s].is_empty() { Cell::default() } else { g.cells[s] };
        out.push(
            PartAt {
                dx: s % w - left,
                dy: s / w - top,
                entity: c.entity.id(),
                direction: c.direction.id(),
                item: c.item.id(),
                misc: c.misc.id(),
                blocked: terrain && g.obstacle[s],
            },
        );
        i = i + 1;
    }
    assert(out@ =~= layout(view, flags@, terrain));
    out
}

/// The key of a whole factory wherever it stands: the same layout at another place of the
/// board has the same key. Of a blocked tile on which nothing stands only the obstacle
/// counts.
pub fn translation_invariant_key(g: &Grid) -> (r: Vec<PartAt>)
    requires
        g.wf(),
    ensures
        r@ == layout(g@, used_flags(g@), true),
{
    let mut flags: Vec<bool> = Vec::new();
    let mut i: usize = 0;
    while i < g.cells.len()
        invariant
            g.wf(),
            i <= g.cells@.len(),
            flags@.len() == i,
            forall|j: int|
                0 <= j < i ==> #[trigger] flags@[j] == (g@.cells[j].entity !is Empty
                    || g@.obstacle[j]),
        decreases g.cells@.len() - i,
    {
        flags.push(!g.cells[i].is_empty() || g.obstacle[i]);
        i = i + 1;
    }
    assert(flags@ =~= used_flags(g@));
    layout_of(g, &flags, true)
}

/// The key of the answer alone, wherever it stands: the entities that are not given,
/// without the terrain they stand in.
pub fn answer_shape_key(g: &Grid, observed: &Vec<bool>) -> (r: Vec<PartAt>)
    requires
        g.wf(),
        observed@.len() == g@.cells.len(),
    ensures
        r@ == layout(g@, answer_flags(g@, observed@), false),
{
    let mut flags: Vec<bool> = Vec::new();
    let mut i: usize = 0;
    while i < g.cells.len()
        invariant
            observed@.len() == g@.cells.len(),
            i <= g.cells@.len(),
            flags@.len() == i,
            forall|j: int|
                0 <= j < i ==> #[trigger] flags@[j] == (!observed@[j]
                    && g@.cells[j].entity !is Empty),
        decreases g.cells@.len() - i,
    {
        flags.push(!observed[i] && !g.cells[i].is_empty());
        i = i + 1;
    }
    assert(flags@ =~= answer_flags(g@, observed@));
    layout_of(g, &flags, false)
}

} // verus!
