//! Grids as planes of category ids, the form a model reads and writes.

use vstd::prelude::*;
use crate::world::grid::GridView;
use crate::world::{Cell, Channel, Direction, Entity, Grid, Item, Misc, MAX_SIDE};
use crate::world::legal;

verus! {

/// A batch of grids of one shape: for each grid one plane of category ids per channel,
/// and for each grid one plane of obstacle flags and one of flags for the given cells.
#[derive(Clone, Debug, PartialEq, Eq)]
pub struct Batch {
    pub n: usize,
    pub height: usize,
    pub width: usize,
    pub tokens: Vec<i32>,
    pub obstacle: Vec<bool>,
    pub observed: Vec<bool>,
}

/// The entities, in the order of their ids.
pub open spec fn entities() -> Seq<Entity> {
    seq![
        Entity::Empty,
        Entity::Source,
        Entity::Sink,
        Entity::TransportBelt,
        Entity::UndergroundBelt,
        Entity::Splitter,
        Entity::Inserter,
        Entity::Assembler,
    ]
}

/// The category ids of some cells on one channel.
pub open spec fn plane(cells: Seq<Cell>, ch: Channel) -> Seq<i32> {
    cells.map_values(|c: Cell| c.channel_code(ch) as i32)
}

/// The category ids of some cells, one channel after the other.
pub open spec fn token_planes(cells: Seq<Cell>) -> Seq<i32> {
    plane(cells, Channel::Entity) + plane(cells, Channel::Direction) + plane(cells, Channel::Item)
        + plane(cells, Channel::Misc)
}

/// The category ids of the first `k` grids.
pub open spec fn batch_tokens(grids: Seq<Grid>, k: nat) -> Seq<i32>
    decreases k,
{
    if k == 0 {
        seq![]
    } else {
        batch_tokens(grids, (k - 1) as nat) + token_planes(grids[k - 1].cells@)
    }
}

/// The obstacle flags of the first `k` grids.
pub open spec fn batch_obstacles(grids: Seq<Grid>, k: nat) -> Seq<bool>
    decreases k,
{
    if k == 0 {
        seq![]
    } else {
        batch_obstacles(grids, (k - 1) as nat) + grids[k - 1].obstacle@
    }
}

/// The first `size` flags of each of the first `k` masks.
pub open spec fn batch_flags(masks: Seq<Vec<bool>>, size: nat, k: nat) -> Seq<bool>
    decreases k,
{
    if k == 0 {
        seq![]
    } else {
        batch_flags(masks, size, (k - 1) as nat) + masks[k - 1]@.take(size as int)
    }
}

/// The flags of `k` grids none of whose cells is given.
pub open spec fn no_flags(size: nat, k: nat) -> Seq<bool>
    decreases k,
{
    if k == 0 {
        seq![]
    } else {
        no_flags(size, (k - 1) as nat) + Seq::new(size, |i: int| false)
    }
}

/// Whether there are grids and all have the shape of the first.
pub open spec fn one_shape(grids: Seq<Grid>) -> bool {
    &&& grids.len() > 0
    &&& forall|i: int|
        0 <= i < grids.len() ==> (#[trigger] grids[i]).width == grids[0].width && grids[i].height
            == grids[0].height
}

/// Whether there is a mask for each of `n` grids that covers every cell.
pub open spec fn masks_cover(masks: Seq<Vec<bool>>, n: nat, size: nat) -> bool {
    &&& n <= masks.len()
    &&& forall|i: int| 0 <= i < n ==> size <= (#[trigger] masks[i])@.len()
}

/// The category at an id, or the first where there is none.
pub open spec fn entity_at(id: int) -> Entity {
    if 0 <= id < 8 {
        entities()[id]
    } else {
        Entity::Empty
    }
}

/// The category at an id, or the first where there is none.
pub open spec fn direction_at(id: int) -> Direction {
    if 0 <= id < 5 {
        legal::facings()[id]
    } else {
        Direction::Nowhere
    }
}

/// The category at an id, or the first where there is none.
pub open spec fn item_at(id: int) -> Item {
    if 0 <= id < 6 {
        legal::items()[id]
    } else {
        Item::Nothing
    }
}

/// The category at an id, or the first where there is none.
pub open spec fn misc_at(id: int) -> Misc {
    if 0 <= id < 3 {
        legal::tags()[id]
    } else {
        Misc::Untagged
    }
}

/// The cell whose ids stand at place `i` of each plane.
pub open spec fn cell_at(ids: Seq<i32>, size: int, i: int) -> Cell {
    Cell {
        entity: entity_at(ids[i] as int),
        direction: direction_at(ids[size + i] as int),
        item: item_at(ids[2 * size + i] as int),
        misc: misc_at(ids[3 * size + i] as int),
    }
}

/// The grid that planes of category ids stand for.
pub open spec fn decoded(
    ids: Seq<i32>,
    height: nat,
    width: nat,
    obstacle: Seq<bool>,
) -> GridView {
    let size = width * height;
    GridView {
        width,
        height,
        cells: Seq::new(size, |i: int| cell_at(ids, size as int, i)),
        obstacle: obstacle.take(size as int),
    }
}

/// Reading back the planes of a grid gives the grid.
pub proof fn law_grids_survive_the_round_trip(g: GridView)
    requires
        g.valid(),
    ensures
        decoded(token_planes(g.cells), g.height, g.width, g.obstacle) == g,
{
    let ids = token_planes(g.cells);
    let size = (g.width * g.height) as int;
    let r = decoded(ids, g.height, g.width, g.obstacle);
    assert forall|i: int| 0 <= i < size implies #[trigger] r.cells[i] == g.cells[i] by {
        assert(ids[i] == g.cells[i].channel_code(Channel::Entity) as i32);
        assert(ids[size + i] == g.cells[i].channel_code(Channel::Direction) as i32);
        assert(ids[2 * size + i] == g.cells[i].channel_code(Channel::Item) as i32);
        assert(ids[3 * size + i] == g.cells[i].channel_code(Channel::Misc) as i32);
    }
    assert(r =~= g);
}

fn push_plane(out: &mut Vec<i32>, cells: &Vec<Cell>, ch: Channel)
    ensures
        final(out)@ == old(out)@ + plane(cells@, ch),
{
    let ghost before = out@;
    let mut i: usize = 0;
    while i < cells.len()
        invariant
            i <= cells@.len(),
            out@ == before + plane(cells@, ch).take(i as int),
        decreases cells@.len() - i,
    {
        out.push(cells[i].channel_id(ch) as i32);
        assert(out@ =~= before + plane(cells@, ch).take(i + 1));
        i = i + 1;
    }
    assert(plane(cells@, ch).take(i as int) =~= plane(cells@, ch));
}

fn push_flags(out: &mut Vec<bool>, flags: &Vec<bool>, n: usize)
    requires
        n <= flags@.len(),
    ensures
        final(out)@ == old(out)@ + flags@.take(n as int),
{
    let ghost before = out@;
    let mut i: usize = 0;
    while i < n
        invariant
            i <= n <= flags@.len(),
            out@ == before + flags@.take(i as int),
        decreases n - i,
    {
        out.push(flags[i]);
        assert(out@ =~= before + flags@.take(i + 1));
        i = i + 1;
    }
}

fn push_unset(out: &mut Vec<bool>, n: usize)
    ensures
        final(out)@ == old(out)@ + Seq::new(n as nat, |i: int| false),
{
    let ghost before = out@;
    let mut i: usize = 0;
    while i < n
        invariant
            i <= n,
            out@ =~= before + Seq::new(i as nat, |i: int| false),
        decreases n - i,
    {
        out.push(false);
        i = i + 1;
    }
}

/// Whether grids can form a batch: there are some, and they share their sides.
pub fn is_uniform(grids: &Vec<Grid>) -> (r: bool)
    ensures
        r == one_shape(grids@),
{
    if grids.len() == 0 {
        return false;
    }
    let mut i: usize = 0;
    while i < grids.len()
        invariant
            grids@.len() > 0,
            i <= grids@.len(),
            forall|j: int|
                0 <= j < i ==> (#[trigger] grids@[j]).width == grids@[0].width && grids@[j].height
                    == grids@[0].height,
        decreases grids@.len() - i,
    {
        if grids[i].width != grids[0].width || grids[i].height != grids[0].height {
            return false;
        }
        i = i + 1;
    }
    true
}

/// Lay out grids as a batch. The masks mark the given cells of each grid; without them
/// no cell is given.
pub fn from_grids(grids: &Vec<Grid>, observed: Option<&Vec<Vec<bool>>>) -> (r: Batch)
    requires
        one_shape(grids@),
        forall|i: int| 0 <= i < grids@.len() ==> (#[trigger] grids@[i]).wf(),
        observed matches Some(masks) ==> masks_cover(
            masks@,
            grids@.len(),
            grids@[0].cells@.len(),
        ),
    ensures
        r.n == grids@.len(),
        r.height == grids@[0].height,
        r.width == grids@[0].width,
        r.tokens@ == batch_tokens(grids@, grids@.len()),
        r.obstacle@ == batch_obstacles(grids@, grids@.len()),
        r.observed@ == match observed {
            Some(masks) => batch_flags(masks@, grids@[0].cells@.len(), grids@.len()),
            None => no_flags(grids@[0].cells@.len(), grids@.len()),
        },
{
    let mut tokens: Vec<i32> = Vec::new();
    let mut obstacle: Vec<bool> = Vec::new();
    let mut flags: Vec<bool> = Vec::new();
    let size: usize = grids[0].cells.len();
    let mut k: usize = 0;
    while k < grids.len()
        invariant
            one_shape(grids@),
            size == grids@[0].cells@.len(),
            forall|i: int| 0 <= i < grids@.len() ==> (#[trigger] grids@[i]).wf(),
            observed matches Some(masks) ==> masks_cover(masks@, grids@.len(), size as nat),
            k <= grids@.len(),
            tokens@ == batch_tokens(grids@, k as nat),
            obstacle@ == batch_obstacles(grids@, k as nat),
            observed matches Some(masks) ==> flags@ == batch_flags(masks@, size as nat, k as nat),
            observed is None ==> flags@ == no_flags(size as nat, k as nat),
        decreases grids@.len() - k,
    {
        let g = &grids[k];
        let ghost held = tokens@;
        push_plane(&mut tokens, &g.cells, Channel::Entity);
        push_plane(&mut tokens, &g.cells, Channel::Direction);
        push_plane(&mut tokens, &g.cells, Channel::Item);
        push_plane(&mut tokens, &g.cells, Channel::Misc);
        assert(tokens@ =~= held + token_planes(g.cells@));
        push_flags(&mut obstacle, &g.obstacle, g.obstacle.len());
        assert(g.obstacle@.take(g.obstacle@.len() as int) =~= g.obstacle@);
        match observed {
            Some(masks) => {
                assert(size <= masks@[k as int]@.len());
                push_flags(&mut flags, &masks[k], size);
            },
            None => {
                push_unset(&mut flags, size);
            },
        }
        k = k + 1;
    }
    Batch { n: grids.len(), height: grids[0].height, width: grids[0].width, tokens, obstacle, observed: flags }
}

fn entity_of(id: i32) -> (r: Entity)
    ensures
        r == entity_at(id as int),
{
    if id >= 0 {
        if let Some(e) = Entity::from_id(id as usize) {
            return e;
        }
    }
    Entity::Empty
}

fn direction_of(id: i32) -> (r: Direction)
    ensures
        r == direction_at(id as int),
{
    if id >= 0 {
        if let Some(d) = Direction::from_id(id as usize) {
            return d;
        }
    }
    Direction::Nowhere
}

fn item_of(id: i32) -> (r: Item)
    ensures
        r == item_at(id as int),
{
    if id >= 0 {
        if let Some(i) = Item::from_id(id as usize) {
            return i;
        }
    }
    Item::Nothing
}

fn misc_of(id: i32) -> (r: Misc)
    ensures
        r == misc_at(id as int),
{
    if id >= 0 {
        if let Some(m) = Misc::from_id(id as usize) {
            return m;
        }
    }
    Misc::Untagged
}

/// Decode the planes of category ids of one grid. An id that is no category reads as
/// the first one.
pub fn grid_from_ids(ids: &Vec<i32>, height: usize, width: usize, obstacle: &Vec<bool>) -> (r: Grid)
    requires
        width <= MAX_SIDE,
        height <= MAX_SIDE,
        4 * (width * height) <= ids@.len(),
        width * height <= obstacle@.len(),
    ensures
        r.wf(),
        r@ == decoded(ids@, height as nat, width as nat, obstacle@),
{
    assert(ids.len() <= usize::MAX);
    let size: usize = width * height;
    let mut cells: Vec<Cell> = Vec::new();
    let mut blocked: Vec<bool> = Vec::new();
    let mut i: usize = 0;
    while i < size
        invariant
            4 * size <= ids@.len() <= usize::MAX,
            size <= obstacle@.len(),
            i <= size,
            cells@.len() == i,
            blocked@ == obstacle@.take(i as int),
            forall|j: int| 0 <= j < i ==> #[trigger] cells@[j] == cell_at(ids@, size as int, j),
        decreases size - i,
    {
        let cell = Cell {
            entity: entity_of(ids[i]),
            direction: direction_of(ids[size + i]),
            item: item_of(ids[2 * size + i]),
            misc: misc_of(ids[3 * size + i]),
        };
        cells.push(cell);
        blocked.push(obstacle[i]);
        assert(blocked@ =~= obstacle@.take(i + 1));
        i = i + 1;
    }
    let r = Grid { width, height, cells, obstacle: blocked };
    assert(r@ =~= decoded(ids@, height as nat, width as nat, obstacle@));
    r
}

/// Where one plane of one grid starts in a batch, in planes.
proof fn lemma_offset(k: int, planes: int, size: int, at: int, i: int)
    requires
        0 <= k,
        0 <= size,
        0 <= at < planes,
        0 <= i < size,
    ensures
        0 <= k * (planes * size),
        (k + 1) * (planes * size) == k * (planes * size) + planes * size,
        0 <= at * size + i < planes * size,
{
    assert(0 <= k * (planes * size)) by (nonlinear_arith)
        requires
            0 <= k,
            0 <= size,
            0 < planes,
    ;
    assert((k + 1) * (planes * size) == k * (planes * size) + planes * size) by (nonlinear_arith);
    assert(0 <= at * size + i < planes * size) by (nonlinear_arith)
        requires
            0 <= at < planes,
            0 <= i < size,
    ;
}

/// The ids of a grid stand channel by channel, and on each channel cell by cell.
proof fn lemma_planes(cells: Seq<Cell>, ch: Channel, i: int)
    requires
        0 <= i < cells.len(),
    ensures
        token_planes(cells).len() == 4 * cells.len(),
        token_planes(cells)[ch.code() * cells.len() + i] == cells[i].channel_code(ch),
{
    let n = cells.len() as int;
    let e = plane(cells, Channel::Entity);
    let d = plane(cells, Channel::Direction);
    let t = plane(cells, Channel::Item);
    let m = plane(cells, Channel::Misc);
    assert(token_planes(cells) == e + d + t + m);
    assert(ch.code() * n == (match ch {
        Channel::Entity => 0,
        Channel::Direction => n,
        Channel::Item => 2 * n,
        Channel::Misc => 3 * n,
    }));
}

/// A batch keeps the id of a cell on a channel grid by grid, in each grid channel by
/// channel, and on each channel cell by cell.
pub proof fn law_where_a_batch_keeps_an_id(
    grids: Seq<Grid>,
    n: nat,
    size: int,
    k: int,
    ch: Channel,
    i: int,
)
    requires
        n <= grids.len(),
        forall|j: int| 0 <= j < grids.len() ==> (#[trigger] grids[j]).cells@.len() == size,
        0 <= k < n,
        0 <= i < size,
    ensures
        batch_tokens(grids, n).len() == n * (4 * size),
        batch_tokens(grids, n)[k * (4 * size) + (ch.code() * size + i)]
            == grids[k].cells@[i].channel_code(ch),
    decreases n,
{
    let rest = batch_tokens(grids, (n - 1) as nat);
    let last = token_planes(grids[n - 1].cells@);
    lemma_planes(grids[n - 1].cells@, ch, i);
    lemma_offset(k, 4, size, ch.code() as int, i);
    lemma_offset(n - 1, 4, size, ch.code() as int, i);
    if n > 1 {
        law_where_a_batch_keeps_an_id(
            grids,
            (n - 1) as nat,
            size,
            if k < n - 1 {
                k
            } else {
                0
            },
            ch,
            i,
        );
    } else {
        assert(rest.len() == 0);
        assert(0 * (4 * size) == 0);
    }
    if k < n - 1 {
        assert((k + 1) * (4 * size) <= (n - 1) * (4 * size)) by (nonlinear_arith)
            requires
                k + 1 <= n - 1,
                0 <= size,
        ;
    }
}

/// A batch keeps the flag of a wall grid by grid, and in each grid cell by cell.
pub proof fn law_where_a_batch_keeps_a_wall(grids: Seq<Grid>, n: nat, size: int, k: int, i: int)
    requires
        n <= grids.len(),
        forall|j: int| 0 <= j < grids.len() ==> (#[trigger] grids[j]).obstacle@.len() == size,
        0 <= k < n,
        0 <= i < size,
    ensures
        batch_obstacles(grids, n).len() == n * (1 * size),
        batch_obstacles(grids, n)[k * (1 * size) + i] == grids[k].obstacle@[i],
    decreases n,
{
    lemma_offset(k, 1, size, 0, i);
    lemma_offset(n - 1, 1, size, 0, i);
    if n > 1 {
        law_where_a_batch_keeps_a_wall(
            grids,
            (n - 1) as nat,
            size,
            if k < n - 1 {
                k
            } else {
                0
            },
            i,
        );
    } else {
        assert(0 * (1 * size) == 0);
    }
    if k < n - 1 {
        assert((k + 1) * (1 * size) <= (n - 1) * (1 * size)) by (nonlinear_arith)
            requires
                k + 1 <= n - 1,
                0 <= size,
        ;
    }
}

/// A batch keeps the flag of a given cell grid by grid, and in each grid cell by cell;
/// without masks no cell is given.
pub proof fn law_where_a_batch_keeps_what_is_given(
    masks: Seq<Vec<bool>>,
    n: nat,
    size: int,
    k: int,
    i: int,
)
    requires
        n <= masks.len(),
        forall|j: int| 0 <= j < masks.len() ==> size <= (#[trigger] masks[j])@.len(),
        0 <= k < n,
        0 <= i < size,
    ensures
        batch_flags(masks, size as nat, n).len() == n * (1 * size),
        batch_flags(masks, size as nat, n)[k * (1 * size) + i] == masks[k]@[i],
        no_flags(size as nat, n).len() == n * (1 * size),
        !no_flags(size as nat, n)[k * (1 * size) + i],
    decreases n,
{
    lemma_offset(k, 1, size, 0, i);
    lemma_offset(n - 1, 1, size, 0, i);
    if n > 1 {
        law_where_a_batch_keeps_what_is_given(
            masks,
            (n - 1) as nat,
            size,
            if k < n - 1 {
                k
            } else {
                0
            },
            i,
        );
    } else {
        assert(0 * (1 * size) == 0);
        assert(no_flags(size as nat, 0).len() == 0);
    }
    let none = no_flags(size as nat, (n - 1) as nat);
    assert(none.len() == (n - 1) * (1 * size));
    let all = no_flags(size as nat, n);
    assert(all == none + Seq::new(size as nat, |i: int| false));
    assert(all.len() == none.len() + size);
    if k < n - 1 {
        assert((k + 1) * (1 * size) <= (n - 1) * (1 * size)) by (nonlinear_arith)
            requires
                k + 1 <= n - 1,
                0 <= size,
        ;
    }
}

/// An id reads as the category that has it, and one that no category has as the first.
pub proof fn law_an_id_reads_as_its_category(id: int)
    ensures
        entity_at(id).code() == (if 0 <= id < 8 {
            id
        } else {
            0
        }),
        direction_at(id).code() == (if 0 <= id < 5 {
            id
        } else {
            0
        }),
        item_at(id).code() == (if 0 <= id < 6 {
            id
        } else {
            0
        }),
        misc_at(id).code() == (if 0 <= id < 3 {
            id
        } else {
            0
        }),
{
}

/// The cell that planes stand for takes each category from its own plane.
pub proof fn law_a_cell_is_read_from_four_planes(
    ids: Seq<i32>,
    height: nat,
    width: nat,
    obstacle: Seq<bool>,
    i: int,
)
    requires
        0 <= i < width * height,
        width * height <= obstacle.len(),
    ensures
        ({
            let g = decoded(ids, height, width, obstacle);
            let size = (width * height) as int;
            let known = |id: i32, most: int|
                if 0 <= id < most {
                    id as int
                } else {
                    0
                };
            &&& (g.width, g.height) == (width, height)
            &&& g.cells[i].entity.code() == known(ids[i], 8)
            &&& g.cells[i].direction.code() == known(ids[size + i], 5)
            &&& g.cells[i].item.code() == known(ids[2 * size + i], 6)
            &&& g.cells[i].misc.code() == known(ids[3 * size + i], 3)
            &&& g.obstacle[i] == obstacle[i]
        }),
{
    let size = (width * height) as int;
    law_an_id_reads_as_its_category(ids[i] as int);
    law_an_id_reads_as_its_category(ids[size + i] as int);
    law_an_id_reads_as_its_category(ids[2 * size + i] as int);
    law_an_id_reads_as_its_category(ids[3 * size + i] as int);
}

} // verus!
