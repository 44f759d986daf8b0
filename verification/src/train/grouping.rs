//! Splitting a corpus into groups: by shape, since a batch has one, and by family, since
//! each is reported on its own.

use vstd::prelude::*;
use crate::factory_gen::canvas::LessonKind;
use crate::world::Grid;

verus! {

/// The grids of one shape, by their place in the corpus.
#[derive(Clone, Debug, PartialEq, Eq)]
pub struct ShapeGroup {
    pub width: usize,
    pub height: usize,
    pub members: Vec<usize>,
}

/// The places of the grids of one shape among the first `k`, in order.
pub open spec fn places_of_shape(grids: Seq<Grid>, width: usize, height: usize, k: nat) -> Seq<
    usize,
>
    decreases k,
{
    if k == 0 {
        seq![]
    } else {
        let before = places_of_shape(grids, width, height, (k - 1) as nat);
        if grids[k - 1].width == width && grids[k - 1].height == height {
            before.push((k - 1) as usize)
        } else {
            before
        }
    }
}

/// The places of one family among the first `k`, in order.
pub open spec fn places_of_kind(kinds: Seq<LessonKind>, kind: LessonKind, k: nat) -> Seq<usize>
    decreases k,
{
    if k == 0 {
        seq![]
    } else {
        let before = places_of_kind(kinds, kind, (k - 1) as nat);
        if kinds[k - 1] == kind {
            before.push((k - 1) as usize)
        } else {
            before
        }
    }
}

/// Whether one shape comes before another: by width, then by height.
pub open spec fn shape_before(a: (usize, usize), b: (usize, usize)) -> bool {
    a.0 < b.0 || (a.0 == b.0 && a.1 < b.1)
}

/// Whether shapes are in order, each once.
pub open spec fn in_order(shapes: Seq<(usize, usize)>) -> bool {
    forall|i: int, j: int|
        0 <= i < j < shapes.len() ==> shape_before(#[trigger] shapes[i], #[trigger] shapes[j])
}

/// Whether one of the first `k` grids has a shape.
pub open spec fn occurs(grids: Seq<Grid>, shape: (usize, usize), k: int) -> bool {
    exists|i: int|
        0 <= i < k && (#[trigger] grids[i]).width == shape.0 && grids[i].height == shape.1
}

/// Whether there is a group for the shape of a grid.
pub open spec fn has_group(groups: Seq<ShapeGroup>, grid: Grid) -> bool {
    exists|a: int|
        0 <= a < groups.len() && (#[trigger] groups[a]).width == grid.width && groups[a].height
            == grid.height
}

/// Whether groups split a corpus by shape: the groups are in the order of their shapes,
/// each shape once, each holds all grids of its shape in their order, and every shape has
/// its group.
pub open spec fn split_by_shape(groups: Seq<ShapeGroup>, grids: Seq<Grid>) -> bool {
    &&& forall|a: int, b: int|
        0 <= a < b < groups.len() ==> shape_before(
            ((#[trigger] groups[a]).width, groups[a].height),
            ((#[trigger] groups[b]).width, groups[b].height),
        )
    &&& forall|a: int|
        0 <= a < groups.len() ==> (#[trigger] groups[a]).members@ == places_of_shape(
            grids,
            groups[a].width,
            groups[a].height,
            grids.len(),
        ) && groups[a].members@.len() > 0
    &&& forall|i: int| 0 <= i < grids.len() ==> has_group(groups, #[trigger] grids[i])
}

/// The listed places are those of the shape.
pub proof fn lemma_places(grids: Seq<Grid>, width: usize, height: usize, k: nat, i: int)
    requires
        k <= grids.len() <= usize::MAX,
        0 <= i < k,
    ensures
        places_of_shape(grids, width, height, k).contains(i as usize) <==> grids[i].width == width
            && grids[i].height == height,
        forall|j: int|
            0 <= j < places_of_shape(grids, width, height, k).len() ==> places_of_shape(
                grids,
                width,
                height,
                k,
            )[j] < k,
    decreases k,
{
    let before = places_of_shape(grids, width, height, (k - 1) as nat);
    lemma_places_small(grids, width, height, k);
    lemma_places_small(grids, width, height, (k - 1) as nat);
    vstd::seq_lib::lemma_seq_contains_after_push(before, (k - 1) as usize, i as usize);
    if i < k - 1 {
        lemma_places(grids, width, height, (k - 1) as nat, i);
    } else if before.contains(i as usize) {
        let j = before.index_of(i as usize);
        assert(before[j] < k - 1);
    }
}

proof fn lemma_places_small(grids: Seq<Grid>, width: usize, height: usize, k: nat)
    requires
        k <= usize::MAX,
    ensures
        forall|j: int|
            0 <= j < places_of_shape(grids, width, height, k).len() ==> #[trigger] places_of_shape(
                grids,
                width,
                height,
                k,
            )[j] < k,
    decreases k,
{
    if k > 0 {
        lemma_places_small(grids, width, height, (k - 1) as nat);
        let before = places_of_shape(grids, width, height, (k - 1) as nat);
        let now = places_of_shape(grids, width, height, k);
        assert forall|j: int| 0 <= j < now.len() implies now[j] < k by {
            if j < before.len() {
                assert(now[j] == before[j]);
            }
        }
    }
}

/// Every grid of a corpus that is split by shape belongs to exactly one group: that of
/// its shape.
pub proof fn law_every_grid_has_one_group(groups: Seq<ShapeGroup>, grids: Seq<Grid>, i: int)
    requires
        split_by_shape(groups, grids),
        grids.len() <= usize::MAX,
        0 <= i < grids.len(),
    ensures
        exists|a: int|
            0 <= a < groups.len() && (#[trigger] groups[a]).members@.contains(i as usize),
        forall|a: int, b: int|
            0 <= a < groups.len() && 0 <= b < groups.len()
                && (#[trigger] groups[a]).members@.contains(i as usize)
                && (#[trigger] groups[b]).members@.contains(i as usize) ==> a == b,
{
    assert forall|a: int| 0 <= a < groups.len() implies ((
    #[trigger] groups[a]).members@.contains(i as usize) <==> groups[a].width == grids[i].width
        && groups[a].height == grids[i].height) by {
        lemma_places(grids, groups[a].width, groups[a].height, grids.len(), i);
    }
    assert(has_group(groups, grids[i]));
    let a = choose|a: int|
        0 <= a < groups.len() && (#[trigger] groups[a]).width == grids[i].width && groups[a].height
            == grids[i].height;
    assert(groups[a].members@.contains(i as usize));
    assert forall|b: int, c: int|
        0 <= b < groups.len() && 0 <= c < groups.len() && (
        #[trigger] groups[b]).members@.contains(i as usize) && (
        #[trigger] groups[c]).members@.contains(i as usize) implies b == c by {
        if b < c {
            assert(shape_before(
                (groups[b].width, groups[b].height),
                (groups[c].width, groups[c].height),
            ));
        }
        if c < b {
            assert(shape_before(
                (groups[c].width, groups[c].height),
                (groups[b].width, groups[b].height),
            ));
        }
    }
}

/// The shapes of the grids, in order, each once.
fn shapes_of(grids: &Vec<Grid>) -> (r: Vec<(usize, usize)>)
    ensures
        in_order(r@),
        forall|i: int|
            0 <= i < grids@.len() ==> r@.contains(((#[trigger] grids@[i]).width, grids@[i].height)),
        forall|j: int|
            0 <= j < r@.len() ==> occurs(grids@, #[trigger] r@[j], grids@.len() as int),
{
    let mut shapes: Vec<(usize, usize)> = Vec::new();
    let mut i: usize = 0;
    while i < grids.len()
        invariant
            i <= grids@.len(),
            in_order(shapes@),
            forall|k: int|
                0 <= k < i ==> shapes@.contains(
                    ((#[trigger] grids@[k]).width, grids@[k].height),
                ),
            forall|j: int|
                0 <= j < shapes@.len() ==> occurs(grids@, #[trigger] shapes@[j], i as int),
        decreases grids@.len() - i,
    {
        let shape = (grids[i].width, grids[i].height);
        let mut p: usize = 0;
        while p < shapes.len() && (shapes[p].0 < shape.0 || (shapes[p].0 == shape.0 && shapes[p].1
            < shape.1))
            invariant
                p <= shapes@.len(),
                forall|j: int| 0 <= j < p ==> shape_before(#[trigger] shapes@[j], shape),
            decreases shapes@.len() - p,
        {
            p = p + 1;
        }
        let ghost before = shapes@;
        let known = p < shapes.len() && shapes[p].0 == shape.0 && shapes[p].1 == shape.1;
        if !known {
            shapes.insert(p, shape);
            proof {
                assert(shapes@[p as int] == shape);
                assert forall|a: int, b: int| 0 <= a < b < shapes@.len() implies shape_before(
                    #[trigger] shapes@[a],
                    #[trigger] shapes@[b],
                ) by {
                    if b < p {
                        assert(shapes@[a] == before[a] && shapes@[b] == before[b]);
                    } else if b == p {
                        assert(shapes@[a] == before[a]);
                    } else if a < p {
                        assert(shapes@[a] == before[a] && shapes@[b] == before[b - 1]);
                    } else if a == p {
                        assert(shapes@[b] == before[b - 1]);
                        if b - 1 > p {
                            assert(shape_before(before[p as int], before[b - 1]));
                        }
                    } else {
                        assert(shapes@[a] == before[a - 1] && shapes@[b] == before[b - 1]);
                    }
                }
                assert forall|k: int| 0 <= k < i implies shapes@.contains(
                    ((#[trigger] grids@[k]).width, grids@[k].height),
                ) by {
                    let s = (grids@[k].width, grids@[k].height);
                    let j = before.index_of(s);
                    assert(before[j] == s);
                    if j < p {
                        assert(shapes@[j] == s);
                    } else {
                        assert(shapes@[j + 1] == s);
                    }
                }
                assert forall|j: int| 0 <= j < shapes@.len() implies occurs(
                    grids@,
                    #[trigger] shapes@[j],
                    i + 1,
                ) by {
                    if j == p {
                        assert(grids@[i as int].width == shape.0);
                    } else {
                        let old_j = if j < p {
                            j
                        } else {
                            j - 1
                        };
                        assert(shapes@[j] == before[old_j]);
                        let k = choose|k: int|
                            0 <= k < i && (#[trigger] grids@[k]).width == before[old_j].0
                                && grids@[k].height == before[old_j].1;
                        assert(grids@[k].width == before[old_j].0);
                    }
                }
            }
        } else {
            assert(shapes@[p as int] == shape);
            assert forall|j: int| 0 <= j < shapes@.len() implies occurs(
                grids@,
                #[trigger] shapes@[j],
                i + 1,
            ) by {
                let k = choose|k: int|
                    0 <= k < i && (#[trigger] grids@[k]).width == before[j].0 && grids@[k].height
                        == before[j].1;
                assert(grids@[k].width == before[j].0);
            }
        }
        assert(shapes@.contains(shape));
        i = i + 1;
    }
    shapes
}

/// Split a corpus by shape, in the order of the shapes, so that each group can be one
/// batch. The places say where each grid belongs.
pub fn shape_groups(grids: &Vec<Grid>) -> (r: Vec<ShapeGroup>)
    ensures
        split_by_shape(r@, grids@),
{
    let shapes = shapes_of(grids);
    let n: usize = grids.len();
    let mut groups: Vec<ShapeGroup> = Vec::new();
    let mut s: usize = 0;
    while s < shapes.len()
        invariant
            n == grids@.len(),
            s <= shapes@.len(),
            groups@.len() == s,
            forall|j: int|
                0 <= j < shapes@.len() ==> occurs(grids@, #[trigger] shapes@[j], n as int),
            forall|a: int|
                0 <= a < s ==> shapes@[a] == ((#[trigger] groups@[a]).width, groups@[a].height)
                    && groups@[a].members@ == places_of_shape(
                    grids@,
                    groups@[a].width,
                    groups@[a].height,
                    n as nat,
                ) && groups@[a].members@.len() > 0,
        decreases shapes@.len() - s,
    {
        let (width, height) = shapes[s];
        let mut members: Vec<usize> = Vec::new();
        let mut i: usize = 0;
        while i < n
            invariant
                n == grids@.len(),
                i <= n,
                members@ == places_of_shape(grids@, width, height, i as nat),
            decreases n - i,
        {
            if grids[i].width == width && grids[i].height == height {
                members.push(i);
            }
            i = i + 1;
        }
        proof {
            assert(occurs(grids@, shapes@[s as int], n as int));
            let k = choose|k: int|
                0 <= k < n && (#[trigger] grids@[k]).width == width && grids@[k].height == height;
            lemma_places(grids@, width, height, n as nat, k);
            assert(members@.contains(k as usize));
        }
        groups.push(ShapeGroup { width, height, members });
        s = s + 1;
    }
    proof {
        assert forall|a: int, b: int| 0 <= a < b < groups@.len() implies shape_before(
            ((#[trigger] groups@[a]).width, groups@[a].height),
            ((#[trigger] groups@[b]).width, groups@[b].height),
        ) by {
            assert(shape_before(shapes@[a], shapes@[b]));
        }
        assert forall|i: int| 0 <= i < grids@.len() implies has_group(
            groups@,
            #[trigger] grids@[i],
        ) by {
            let shape = (grids@[i].width, grids@[i].height);
            let a = shapes@.index_of(shape);
            assert(shapes@[a] == shape);
            assert(groups@[a].width == grids@[i].width);
        }
    }
    groups
}

/// The places of one family in a corpus.
pub fn lesson_group(kinds: &Vec<LessonKind>, kind: LessonKind) -> (r: Vec<usize>)
    ensures
        r@ == places_of_kind(kinds@, kind, kinds@.len()),
{
    let mut members: Vec<usize> = Vec::new();
    let mut i: usize = 0;
    while i < kinds.len()
        invariant
            i <= kinds@.len(),
            members@ == places_of_kind(kinds@, kind, i as nat),
        decreases kinds@.len() - i,
    {
        if kinds[i] == kind {
            members.push(i);
        }
        i = i + 1;
    }
    members
}

/// Copies of the grids at some places, in the order of the places.
pub fn gather(grids: &Vec<Grid>, places: &Vec<usize>) -> (r: Vec<Grid>)
    requires
        forall|j: int| 0 <= j < places@.len() ==> #[trigger] places@[j] < grids@.len(),
    ensures
        r@.len() == places@.len(),
        forall|j: int| 0 <= j < r@.len() ==> (#[trigger] r@[j])@ == grids@[places@[j] as int]@,
{
    let mut out: Vec<Grid> = Vec::new();
    let mut j: usize = 0;
    while j < places.len()
        invariant
            forall|k: int| 0 <= k < places@.len() ==> #[trigger] places@[k] < grids@.len(),
            j <= places@.len(),
            out@.len() == j,
            forall|k: int| 0 <= k < j ==> (#[trigger] out@[k])@ == grids@[places@[k] as int]@,
        decreases places@.len() - j,
    {
        out.push(grids[places[j]].clone());
        j = j + 1;
    }
    out
}

/// Whether the `j`-th result of group `a` stands at place `i` of a corpus.
pub open spec fn stands_at(groups: Seq<ShapeGroup>, a: int, j: int, i: int) -> bool {
    0 <= a < groups.len() && 0 <= j < groups[a].members@.len() && groups[a].members@[j] == i
}

/// Put the results of the groups of a corpus back in the order of the corpus.
pub fn reassemble(groups: &Vec<ShapeGroup>, results: &Vec<Vec<Grid>>, grids: &Vec<Grid>) -> (r: Vec<
    Grid,
>)
    requires
        split_by_shape(groups@, grids@),
        results@.len() == groups@.len(),
        forall|a: int|
            0 <= a < groups@.len() ==> (#[trigger] results@[a])@.len() == groups@[a].members@.len(),
    ensures
        r@.len() == grids@.len(),
        forall|a: int, j: int, i: int| #[trigger]
            stands_at(groups@, a, j, i) && 0 <= i < grids@.len() ==> r@[i]@ == results@[a]@[j]@,
{
    let n: usize = grids.len();
    let mut out: Vec<Grid> = Vec::new();
    let mut i: usize = 0;
    while i < n
        invariant
            n == grids@.len(),
            split_by_shape(groups@, grids@),
            results@.len() == groups@.len(),
            forall|a: int|
                0 <= a < groups@.len() ==> (#[trigger] results@[a])@.len()
                    == groups@[a].members@.len(),
            i <= n,
            out@.len() == i,
            forall|a: int, j: int, k: int| #[trigger]
                stands_at(groups@, a, j, k) && 0 <= k < i ==> out@[k]@ == results@[a]@[j]@,
        decreases n - i,
    {
        let (a, j) = find_place(groups, grids, i);
        assert(results@[a as int]@.len() == groups@[a as int].members@.len());
        out.push(results[a][j].clone());
        proof {
            assert forall|b: int, l: int, k: int| #[trigger]
                stands_at(groups@, b, l, k) && 0 <= k < i + 1 implies out@[k]@
                == results@[b]@[l]@ by {
                if k == i {
                    lemma_one_place(groups@, grids@, a as int, j as int, b, l, i as int);
                } else {
                    assert(stands_at(groups@, b, l, k) && 0 <= k < i);
                }
            }
        }
        i = i + 1;
    }
    out
}

/// Places are listed in ascending order.
proof fn lemma_places_ascend(grids: Seq<Grid>, width: usize, height: usize, k: nat)
    requires
        k <= usize::MAX,
    ensures
        forall|i: int, j: int|
            0 <= i < j < places_of_shape(grids, width, height, k).len()
                ==> #[trigger] places_of_shape(grids, width, height, k)[i]
                < #[trigger] places_of_shape(grids, width, height, k)[j],
    decreases k,
{
    if k > 0 {
        lemma_places_ascend(grids, width, height, (k - 1) as nat);
        lemma_places_small(grids, width, height, (k - 1) as nat);
        let before = places_of_shape(grids, width, height, (k - 1) as nat);
        let now = places_of_shape(grids, width, height, k);
        assert forall|i: int, j: int| 0 <= i < j < now.len() implies now[i] < now[j] by {
            assert(now[i] == before[i]);
            if j < before.len() {
                assert(now[j] == before[j]);
            }
        }
    }
}

/// A grid stands at one place of one group.
proof fn lemma_one_place(
    groups: Seq<ShapeGroup>,
    grids: Seq<Grid>,
    a: int,
    j: int,
    b: int,
    l: int,
    i: int,
)
    requires
        split_by_shape(groups, grids),
        grids.len() <= usize::MAX,
        0 <= i < grids.len(),
        stands_at(groups, a, j, i),
        stands_at(groups, b, l, i),
    ensures
        a == b,
        j == l,
{
    law_every_grid_has_one_group(groups, grids, i);
    assert(groups[a].members@[j] == i as usize);
    assert(groups[b].members@[l] == i as usize);
    assert(groups[a].members@.contains(i as usize));
    assert(groups[b].members@.contains(i as usize));
    lemma_places_ascend(grids, groups[a].width, groups[a].height, grids.len());
    if j < l {
        assert(groups[a].members@[j] < groups[a].members@[l]);
    }
    if l < j {
        assert(groups[a].members@[l] < groups[a].members@[j]);
    }
}

fn find_place(groups: &Vec<ShapeGroup>, grids: &Vec<Grid>, i: usize) -> (r: (usize, usize))
    requires
        split_by_shape(groups@, grids@),
        i < grids@.len(),
    ensures
        stands_at(groups@, r.0 as int, r.1 as int, i as int),
{
    let n: usize = grids.len();
    let mut a: usize = 0;
    while a < groups.len()
        invariant
            n == grids@.len(),
            i < n,
            a <= groups@.len(),
            forall|b: int|
                0 <= b < a ==> !(#[trigger] groups@[b]).members@.contains(i),
        decreases groups@.len() - a,
    {
        let mut j: usize = 0;
        while j < groups[a].members.len()
            invariant
                a < groups@.len(),
                j <= groups@[a as int].members@.len(),
                forall|k: int| 0 <= k < j ==> groups@[a as int].members@[k] != i,
            decreases groups@[a as int].members@.len() - j,
        {
            if groups[a].members[j] == i {
                return (a, j);
            }
            j = j + 1;
        }
        a = a + 1;
    }
    proof {
        law_every_grid_has_one_group(groups@, grids@, i as int);
        assert(false);
    }
    (0, 0)
}

} // verus!
