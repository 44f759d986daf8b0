//! What the keys tell apart, and what they do not.

use vstd::prelude::*;
use crate::sample;
use crate::task_space;
use crate::world;
use crate::world::grid;
use crate::world::grid::GridView;
use crate::world::{Cell, Channel};

verus! {

/// Equal entries come from equal cells.
proof fn lemma_entry(a: Cell, b: Cell, slot: int)
    requires
        task_space::entry(a, slot) == task_space::entry(b, slot),
    ensures
        a == b,
{
    assert forall|ch: Channel| a.channel_code(ch) == b.channel_code(ch) by {}
    world::law_categories_determine_the_cell(a, b);
}

/// Equal lists of entries come from cells that agree wherever they are flagged.
proof fn lemma_entries(a: Seq<Cell>, b: Seq<Cell>, flags: Seq<bool>, i: int)
    requires
        a.len() == flags.len(),
        b.len() == flags.len(),
        task_space::entries(a, flags) == task_space::entries(b, flags),
        0 <= i < flags.len(),
        flags[i],
    ensures
        a[i] == b[i],
{
    let slots = sample::hidden(flags, flags.len());
    sample::lemma_hidden(flags, flags.len());
    let j = choose|j: int| 0 <= j < slots.len() && slots[j] == i;
    assert(task_space::entries(a, flags)[j] == task_space::entry(a[i], i));
    assert(task_space::entries(b, flags)[j] == task_space::entry(b[i], i));
    lemma_entry(a[i], b[i], i);
}

/// Two factories that agree on what is shown and on the answer are the same: with the
/// given cells fixed, different answers have different keys.
pub proof fn law_a_task_and_its_answer_make_the_factory(
    a: Seq<Cell>,
    b: Seq<Cell>,
    observed: Seq<bool>,
)
    requires
        a.len() == observed.len(),
        b.len() == observed.len(),
        task_space::entries(a, observed) == task_space::entries(b, observed),
        task_space::entries(a, task_space::unset(observed)) == task_space::entries(
            b,
            task_space::unset(observed),
        ),
    ensures
        a == b,
{
    assert forall|i: int| 0 <= i < a.len() implies a[i] == b[i] by {
        if observed[i] {
            lemma_entries(a, b, observed, i);
        } else {
            lemma_entries(a, b, task_space::unset(observed), i);
        }
    }
    assert(a =~= b);
}

/// Two well-formed factories of one shape with the same key are the same, given that they
/// stand on the same terrain.
pub proof fn law_the_factory_key_tells_factories_apart(a: GridView, b: GridView)
    requires
        a.valid(),
        b.valid(),
        a.width == b.width,
        a.height == b.height,
        a.obstacle == b.obstacle,
        a.cells.len() <= usize::MAX,
        forall|i: int| 0 <= i < a.cells.len() ==> (#[trigger] a.cells[i]).consistent(),
        forall|i: int| 0 <= i < b.cells.len() ==> (#[trigger] b.cells[i]).consistent(),
        task_space::entries(a.cells, task_space::occupied_flags(a)) == task_space::entries(
            b.cells,
            task_space::occupied_flags(b),
        ),
    ensures
        a == b,
{
    let fa = task_space::occupied_flags(a);
    let fb = task_space::occupied_flags(b);
    let ea = task_space::entries(a.cells, fa);
    let eb = task_space::entries(b.cells, fb);
    let sa = sample::hidden(fa, fa.len());
    let sb = sample::hidden(fb, fb.len());
    sample::lemma_hidden(fa, fa.len());
    sample::lemma_hidden(fb, fb.len());
    assert(ea.len() == sa.len() && eb.len() == sb.len());
    assert forall|i: int| 0 <= i < a.cells.len() implies a.cells[i] == b.cells[i] by {
        if fa[i] {
            let j = choose|j: int| 0 <= j < sa.len() && sa[j] == i;
            assert(ea[j] == task_space::entry(a.cells[i], i));
            assert(eb[j] == task_space::entry(b.cells[sb[j]], sb[j]));
            assert(sb[j] == i);
            lemma_entry(a.cells[i], b.cells[i], i);
        } else if fb[i] {
            let j = choose|j: int| 0 <= j < sb.len() && sb[j] == i;
            assert(eb[j] == task_space::entry(b.cells[i], i));
            assert(ea[j] == task_space::entry(a.cells[sa[j]], sa[j]));
            assert(sa[j] == i);
            assert(fa[sa[j]]);
        } else {
            assert(a.cells[i].consistent() && b.cells[i].consistent());
        }
    }
    assert(a =~= b);
}

/// Whether `b` is `a` moved: what stands at a tile of `a` stands `dx` to the right and `dy`
/// below in `b`, and nothing else stands there.
pub open spec fn moved(a: GridView, b: GridView, dx: int, dy: int) -> bool {
    &&& a.width == b.width
    &&& a.height == b.height
    &&& forall|x: int, y: int| #[trigger]
        a.inside(x, y) && used(a, x, y) ==> b.inside(x + dx, y + dy) && task_space::distinctive(
            b.at(x + dx, y + dy),
        ) == task_space::distinctive(a.at(x, y)) && b.blocked(x + dx, y + dy) == a.blocked(x, y)
    &&& forall|x: int, y: int| #[trigger]
        b.inside(x, y) && used(b, x, y) ==> a.inside(x - dx, y - dy) && used(a, x - dx, y - dy)
}

/// Whether a tile holds an entity or is blocked.
pub open spec fn used(g: GridView, x: int, y: int) -> bool {
    g.at(x, y).entity !is Empty || g.blocked(x, y)
}

/// Ascending lists with the same members are the same.
proof fn lemma_same_members(a: Seq<int>, b: Seq<int>)
    requires
        forall|i: int, j: int| 0 <= i < j < a.len() ==> #[trigger] a[i] < #[trigger] a[j],
        forall|i: int, j: int| 0 <= i < j < b.len() ==> #[trigger] b[i] < #[trigger] b[j],
        forall|v: int| #[trigger] a.contains(v) <==> b.contains(v),
    ensures
        a == b,
    decreases a.len(),
{
    if a.len() == 0 {
        if b.len() > 0 {
            assert(b.contains(b[0]));
            assert(a.contains(b[0]));
        }
        assert(a =~= b);
    } else {
        assert(a.contains(a.last()));
        assert(b.contains(a.last()));
        assert(b.contains(b.last()));
        assert(a.contains(b.last()));
        let i = a.index_of(b.last());
        let j = b.index_of(a.last());
        assert(a[i] == b.last() && b[j] == a.last());
        assert(a.last() == b.last());
        let a1 = a.drop_last();
        let b1 = b.drop_last();
        assert forall|v: int| #[trigger] a1.contains(v) <==> b1.contains(v) by {
            if a1.contains(v) {
                let k = a1.index_of(v);
                assert(a[k] == v && a[k] < a.last());
                assert(a.contains(v));
                assert(b.contains(v));
                let m = b.index_of(v);
                assert(b[m] == v);
                assert(b1[m] == v);
            }
            if b1.contains(v) {
                let k = b1.index_of(v);
                assert(b[k] == v && b[k] < b.last());
                assert(b.contains(v));
                assert(a.contains(v));
                let m = a.index_of(v);
                assert(a[m] == v);
                assert(a1[m] == v);
            }
        }
        lemma_same_members(a1, b1);
        assert(a =~= a1.push(a.last()));
        assert(b =~= b1.push(b.last()));
    }
}

/// Moving every number moves the least.
proof fn lemma_least_moves(a: Seq<int>, b: Seq<int>, d: int)
    requires
        a.len() == b.len(),
        a.len() > 0,
        forall|i: int| 0 <= i < a.len() ==> #[trigger] b[i] == a[i] + d,
    ensures
        task_space::least(b) == task_space::least(a) + d,
    decreases a.len(),
{
    if a.len() > 1 {
        lemma_least_moves(a.drop_last(), b.drop_last(), d);
    }
}

/// The slots in use move with the layout.
proof fn lemma_used_slots_move(a: GridView, b: GridView, dx: int, dy: int)
    requires
        a.valid(),
        b.valid(),
        moved(a, b, dx, dy),
    ensures
        ({
            let fa = task_space::used_flags(a);
            let fb = task_space::used_flags(b);
            sample::hidden(fb, fb.len()) == sample::hidden(fa, fa.len()).map_values(
                |s: int| s + dy * a.width + dx,
            )
        }),
{
    let w = a.width as int;
    let d = dy * w + dx;
    let fa = task_space::used_flags(a);
    let fb = task_space::used_flags(b);
    let sa = sample::hidden(fa, fa.len());
    let sb = sample::hidden(fb, fb.len());
    let to = sa.map_values(|s: int| s + dy * a.width + dx);
    sample::lemma_hidden(fa, fa.len());
    sample::lemma_hidden(fb, fb.len());
    assert forall|v: int| #[trigger] to.contains(v) <==> sb.contains(v) by {
        if to.contains(v) {
            let j = to.index_of(v);
            let s = sa[j];
            assert(to[j] == s + d);
            grid::lemma_slot_surjective(a, s);
            let (x, y) = (s % w, s / w);
            assert(a.inside(x, y) && used(a, x, y));
            assert(used(b, x + dx, y + dy));
            assert(b.slot(x + dx, y + dy) == v) by (nonlinear_arith)
                requires
                    v == s + dy * w + dx,
                    s == y * w + x,
                    b.slot(x + dx, y + dy) == (y + dy) * w + (x + dx),
            ;
            grid::lemma_slot(b, x + dx, y + dy);
            assert(fb[v]);
            let k = choose|k: int| 0 <= k < sb.len() && sb[k] == v;
            assert(sb[k] == v);
        }
        if sb.contains(v) {
            let k = sb.index_of(v);
            assert(sb[k] == v);
            grid::lemma_slot_surjective(b, v);
            let (x, y) = (v % w, v / w);
            assert(b.inside(x, y) && used(b, x, y));
            let s = a.slot(x - dx, y - dy);
            assert(s == v - d) by (nonlinear_arith)
                requires
                    v == y * w + x,
                    s == (y - dy) * w + (x - dx),
                    d == dy * w + dx,
            ;
            grid::lemma_slot(a, x - dx, y - dy);
            assert(fa[s]);
            let j = choose|j: int| 0 <= j < sa.len() && sa[j] == s;
            assert(to[j] == v);
        }
    }
    assert forall|i: int, j: int| 0 <= i < j < to.len() implies #[trigger] to[i]
        < #[trigger] to[j] by {
        assert(sa[i] < sa[j]);
    }
    lemma_same_members(to, sb);
}

/// A layout that is moved to another place of the board keeps its key.
pub proof fn law_moving_a_layout_keeps_its_key(a: GridView, b: GridView, dx: int, dy: int)
    requires
        a.valid(),
        b.valid(),
        moved(a, b, dx, dy),
    ensures
        task_space::layout(a, task_space::used_flags(a), true) == task_space::layout(
            b,
            task_space::used_flags(b),
            true,
        ),
{
    let w = a.width as int;
    let fa = task_space::used_flags(a);
    let fb = task_space::used_flags(b);
    let sa = sample::hidden(fa, fa.len());
    let sb = sample::hidden(fb, fb.len());
    sample::lemma_hidden(fa, fa.len());
    lemma_used_slots_move(a, b, dx, dy);
    let la = task_space::layout(a, fa, true);
    let lb = task_space::layout(b, fb, true);
    if sa.len() > 0 {
        assert forall|j: int| 0 <= j < sa.len() implies {
            &&& task_space::columns(b, sb)[j] == (#[trigger] task_space::columns(a, sa)[j]) + dx
            &&& task_space::rows(b, sb)[j] == task_space::rows(a, sa)[j] + dy
            &&& task_space::distinctive(b.cells[sb[j]]) == task_space::distinctive(a.cells[sa[j]])
            &&& b.obstacle[sb[j]] == a.obstacle[sa[j]]
        } by {
            let s = sa[j];
            grid::lemma_slot_surjective(a, s);
            let (x, y) = (s % w, s / w);
            assert(a.inside(x, y) && used(a, x, y));
            assert(sb[j] == s + dy * w + dx);
            assert(b.slot(x + dx, y + dy) == sb[j]) by (nonlinear_arith)
                requires
                    sb[j] == s + dy * w + dx,
                    s == y * w + x,
                    b.slot(x + dx, y + dy) == (y + dy) * w + (x + dx),
            ;
            grid::lemma_slot_inverse(b, x + dx, y + dy);
        }
        assert forall|j: int| 0 <= j < sa.len() implies #[trigger] task_space::columns(b, sb)[j]
            == task_space::columns(a, sa)[j] + dx by {}
        assert forall|j: int| 0 <= j < sa.len() implies #[trigger] task_space::rows(b, sb)[j]
            == task_space::rows(a, sa)[j] + dy by {
            assert(task_space::columns(b, sb)[j] == task_space::columns(a, sa)[j] + dx);
        }
        lemma_least_moves(task_space::columns(a, sa), task_space::columns(b, sb), dx);
        lemma_least_moves(task_space::rows(a, sa), task_space::rows(b, sb), dy);
        assert forall|j: int| 0 <= j < la.len() implies la[j] == lb[j] by {
            assert(task_space::columns(b, sb)[j] == task_space::columns(a, sa)[j] + dx);
            assert(task_space::rows(b, sb)[j] == task_space::rows(a, sa)[j] + dy);
        }
    }
    assert(la =~= lb);
}

/// A key lists the flagged cells in order, each once with its slot and its ids, and no
/// others.
pub proof fn law_a_key_lists_what_is_flagged(cells: Seq<Cell>, flags: Seq<bool>, s: int, i: int, j: int)
    requires
        cells.len() == flags.len(),
        flags.len() <= usize::MAX,
        0 <= s < flags.len(),
    ensures
        ({
            let all = task_space::entries(cells, flags);
            &&& flags[s] <==> exists|k: int| 0 <= k < all.len() && (#[trigger] all[k]).slot == s
            &&& 0 <= i < j < all.len() ==> all[i].slot < all[j].slot
            &&& 0 <= i < all.len() ==> {
                let c = cells[all[i].slot as int];
                &&& all[i].slot < flags.len() && flags[all[i].slot as int]
                &&& all[i].entity == c.entity.code() && all[i].direction == c.direction.code()
                &&& all[i].item == c.item.code() && all[i].misc == c.misc.code()
            }
        }),
{
    let slots = sample::hidden(flags, flags.len());
    let all = task_space::entries(cells, flags);
    sample::lemma_hidden(flags, flags.len());
    if flags[s] {
        let k = choose|k: int| 0 <= k < slots.len() && slots[k] == s;
        assert(all[k].slot == s);
    }
    if exists|k: int| 0 <= k < all.len() && (#[trigger] all[k]).slot == s {
        let k = choose|k: int| 0 <= k < all.len() && (#[trigger] all[k]).slot == s;
        assert(slots[k] == s);
    }
    if 0 <= i < all.len() {
        let c = cells[slots[i]];
        assert(all[i] == task_space::entry(c, slots[i]));
        assert(all[i].slot == slots[i]);
    }
    if 0 <= j < all.len() {
        assert(all[j].slot == slots[j]);
    }
}

/// The least of some numbers is one of them, and none is smaller.
pub proof fn law_the_least_is_the_smallest(v: Seq<int>)
    requires
        v.len() > 0,
    ensures
        v.contains(task_space::least(v)),
        forall|i: int| 0 <= i < v.len() ==> task_space::least(v) <= #[trigger] v[i],
    decreases v.len(),
{
    if v.len() == 1 {
        assert(v[0] == task_space::least(v));
    } else {
        let rest = v.drop_last();
        law_the_least_is_the_smallest(rest);
        assert forall|i: int| 0 <= i < v.len() implies task_space::least(v) <= #[trigger] v[i] by {
            if i < rest.len() {
                assert(rest[i] == v[i]);
            }
        }
        if v.last() < task_space::least(rest) {
            assert(v[v.len() - 1] == task_space::least(v));
        } else {
            let k = rest.index_of(task_space::least(rest));
            assert(v[k] == task_space::least(v));
        }
    }
}

/// Which cells a key takes in: all that is built, all that is built or blocked, or what is
/// built and not given.
pub proof fn law_which_cells_a_key_takes_in(g: GridView, observed: Seq<bool>, i: int)
    requires
        0 <= i < g.cells.len(),
    ensures
        task_space::occupied_flags(g).len() == g.cells.len(),
        task_space::used_flags(g).len() == g.cells.len(),
        task_space::answer_flags(g, observed).len() == g.cells.len(),
        task_space::occupied_flags(g)[i] <==> g.cells[i].entity !is Empty,
        task_space::used_flags(g)[i] <==> g.cells[i].entity !is Empty || g.obstacle[i],
        task_space::answer_flags(g, observed)[i] <==> g.cells[i].entity !is Empty && !observed[i],
{
}

/// A part of a layout has the ids of its cell, those of an empty cell where nothing stands,
/// and is marked as blocked exactly where the terrain counts and the tile is blocked.
pub proof fn law_what_a_part_tells(g: GridView, slots: Seq<int>, s: int, terrain: bool)
    ensures
        ({
            let p = task_space::part(g, slots, s, terrain);
            let c = g.cells[s];
            &&& c.entity !is Empty ==> {
                &&& p.entity == c.entity.code()
                &&& p.direction == c.direction.code()
                &&& p.item == c.item.code()
                &&& p.misc == c.misc.code()
            }
            &&& c.entity is Empty ==> p.entity == 0 && p.direction == 0 && p.item == 0 && p.misc
                == 0
            &&& p.blocked <==> terrain && g.obstacle[s]
        }),
{
}

/// A key lists the blocked tiles in order, each once, and no others.
pub proof fn law_a_key_lists_the_walls(
    k: task_space::TaskKey,
    g: GridView,
    flags: Seq<bool>,
    s: int,
    i: int,
    j: int,
)
    requires
        task_space::keyed(k, g, flags),
        0 <= s < g.obstacle.len(),
        g.obstacle.len() <= usize::MAX,
    ensures
        g.obstacle[s] <==> exists|m: int|
            0 <= m < k.obstacles@.len() && #[trigger] k.obstacles@[m] == s,
        0 <= i < j < k.obstacles@.len() ==> k.obstacles@[i] < k.obstacles@[j],
        k.cells@ == task_space::entries(g.cells, flags),
{
    let slots = sample::hidden(g.obstacle, g.obstacle.len());
    let listed = k.obstacles@.map_values(|s: usize| s as int);
    sample::lemma_hidden(g.obstacle, g.obstacle.len());
    assert(forall|m: int| 0 <= m < listed.len() ==> listed[m] == k.obstacles@[m]);
    if g.obstacle[s] {
        let m = choose|m: int| 0 <= m < slots.len() && slots[m] == s;
        assert(listed[m] == s);
        assert(k.obstacles@[m] == s);
    }
    if exists|m: int| 0 <= m < k.obstacles@.len() && #[trigger] k.obstacles@[m] == s {
        let m = choose|m: int| 0 <= m < k.obstacles@.len() && #[trigger] k.obstacles@[m] == s;
        assert(slots[m] == listed[m]);
    }
    if 0 <= i < j < k.obstacles@.len() {
        assert(slots[i] == listed[i] && slots[j] == listed[j]);
        assert(slots[i] < slots[j]);
    }
}

} // verus!
