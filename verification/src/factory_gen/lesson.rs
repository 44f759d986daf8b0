//! A finished lesson, and how parts of it are blanked out.

use vstd::prelude::*;
use crate::factory_gen::canvas::LessonKind;
use crate::random::RandomStream;
use crate::sim;
use crate::world;
use crate::world::grid::GridView;
use crate::world::{Cell, Entity, Grid};

verus! {

/// A list of slots as mathematical integers.
pub open spec fn ints(v: Seq<usize>) -> Seq<int> {
    v.map_values(|i: usize| i as int)
}

/// A generated factory that works, with the slots that blanking leaves alone and
/// those that it may blank.
#[derive(Debug)]
pub struct Sample {
    pub kind: LessonKind,
    /// The whole factory.
    pub solution: Grid,
    /// Slots that must never be blanked.
    pub protected: Vec<usize>,
    /// Slots that may be blanked.
    pub removable: Vec<usize>,
}

/// The contents of a sample.
#[verifier::ext_equal]
pub struct SampleView {
    pub kind: LessonKind,
    pub solution: GridView,
    pub protected: Seq<int>,
    pub removable: Seq<int>,
}

impl View for Sample {
    type V = SampleView;

    open spec fn view(&self) -> SampleView {
        SampleView {
            kind: self.kind,
            solution: self.solution@,
            protected: ints(self.protected@),
            removable: ints(self.removable@),
        }
    }
}

/// Whether a cell is given with the task: a source or a sink.
pub open spec fn is_port(cell: Cell) -> bool {
    cell.entity is Source || cell.entity is Sink
}

/// Whether every slot of a list is one of the grid's.
pub open spec fn slots_of(g: GridView, slots: Seq<int>) -> bool {
    forall|k: int| 0 <= k < slots.len() ==> 0 <= #[trigger] slots[k] < g.cells.len()
}

/// Whether every source and every sink of the grid is listed.
pub open spec fn ports_listed(g: GridView, slots: Seq<int>) -> bool {
    forall|i: int|
        0 <= i < g.cells.len() && is_port(#[trigger] g.cells[i]) ==> slots.contains(i)
}

impl SampleView {
    /// Every listed slot is one of the grid's.
    pub open spec fn valid(self) -> bool {
        &&& self.solution.valid()
        &&& slots_of(self.solution, self.protected)
        &&& slots_of(self.solution, self.removable)
    }

    /// What every generated lesson is: a well-formed factory that works, with
    /// something to blank, in which every source and sink is protected, and no slot
    /// that may be blanked is protected or holds a source or a sink.
    pub open spec fn sound(self) -> bool {
        &&& self.valid()
        &&& self.solution.consistent()
        &&& sim::functional(self.solution)
        &&& self.removable.len() > 0
        &&& forall|k: int|
            0 <= k < self.removable.len() ==> {
                &&& !self.protected.contains(#[trigger] self.removable[k])
                &&& !is_port(self.solution.cells[self.removable[k]])
            }
        &&& forall|k: int|
            0 <= k < self.protected.len() ==> self.solution.cells[#[trigger] self.protected[k]].entity !is Empty
        &&& ports_listed(self.solution, self.protected)
    }
}

/// The grid with some slots emptied.
pub open spec fn emptied(g: GridView, slots: Seq<int>) -> GridView {
    GridView {
        cells: Seq::new(
            g.cells.len(),
            |i: int| if slots.contains(i) { world::empty_cell() } else { g.cells[i] },
        ),
        ..g
    }
}

/// Which slots are left as they are when some are emptied.
pub open spec fn kept(n: nat, slots: Seq<int>) -> Seq<bool> {
    Seq::new(n, |i: int| !slots.contains(i))
}

/// The grid with nothing left on it but sources and sinks.
pub open spec fn ports_only(g: GridView) -> GridView {
    GridView {
        cells: Seq::new(
            g.cells.len(),
            |i: int| if is_port(g.cells[i]) { g.cells[i] } else { world::empty_cell() },
        ),
        ..g
    }
}

/// How many slots are blanked when `n` are asked for.
pub open spec fn blank_count(n: Option<usize>, available: int) -> int {
    match n {
        Some(n) => if n <= available { n as int } else { available },
        None => available,
    }
}

impl Clone for Sample {
    fn clone(&self) -> (r: Self)
        ensures
            r@ == self@,
    {
        let r = Sample {
            kind: self.kind,
            solution: self.solution.clone(),
            protected: self.protected.clone(),
            removable: self.removable.clone(),
        };
        assert(r.protected@ =~= self.protected@);
        assert(r.removable@ =~= self.removable@);
        r
    }
}

impl Sample {
    /// The factory with the given slots emptied, and for every slot whether it was
    /// left as it is.
    pub fn blank_slots(&self, slots: &Vec<usize>) -> (r: (Grid, Vec<bool>))
        requires
            self@.valid(),
            slots_of(self@.solution, ints(slots@)),
        ensures
            r.0.wf(),
            r.0@ == emptied(self@.solution, ints(slots@)),
            r.1@ == kept(self@.solution.cells.len(), ints(slots@)),
    {
        let ghost g = self.solution@;
        let ghost all = ints(slots@);
        let mut partial = self.solution.clone();
        let mut observed: Vec<bool> = vec![true; self.solution.cells.len()];
        let mut k: usize = 0;
        proof {
            assert(partial@ =~= emptied(g, all.take(0)));
            assert(observed@ =~= kept(g.cells.len(), all.take(0)));
        }
        while k < slots.len()
            invariant
                g == self.solution@,
                g.valid(),
                all == ints(slots@),
                slots_of(g, all),
                k <= slots.len(),
                partial@ == emptied(g, all.take(k as int)),
                observed@ == kept(g.cells.len(), all.take(k as int)),
            decreases slots.len() - k,
        {
            let i = slots[k];
            assert(all[k as int] == i);
            partial.cells.set(i, Cell::default());
            observed.set(i, false);
            proof {
                let before = all.take(k as int);
                let after = all.take(k as int + 1);
                assert(after =~= before.push(i as int));
                assert forall|j: int| after.contains(j) <==> before.contains(j) || j == i by {
                    if before.contains(j) {
                        assert(after[before.index_of(j)] == j);
                    }
                    if j == i {
                        assert(after[k as int] == j);
                    }
                    if after.contains(j) && j != i {
                        let m = after.index_of(j);
                        assert(before[m] == j);
                    }
                }
                assert(partial@ =~= emptied(g, after));
                assert(observed@ =~= kept(g.cells.len(), after));
            }
            k = k + 1;
        }
        assert(all.take(slots.len() as int) =~= all);
        (partial, observed)
    }

    /// Blank `n` of the removable slots, drawn at random, or all of them. Returns
    /// the partial factory and, for every slot, whether it is still given.
    ///
    /// Slots that may not be removed stay as they are; with `None` every removable
    /// slot is emptied.
    pub fn blank(&self, n: Option<usize>, rng: &mut RandomStream) -> (r: (Grid, Vec<bool>))
        requires
            self@.valid(),
        ensures
            ({
                let (order, after) = old(rng).permute(self.removable@);
                let slots = ints(order.take(blank_count(n, self.removable@.len() as int)));
                &&& *final(rng) == after
                &&& order.to_multiset() == self.removable@.to_multiset()
                &&& r.0@ == emptied(self@.solution, slots)
                &&& r.1@ == kept(self@.solution.cells.len(), slots)
            }),
            r.0.wf(),
            forall|i: int|
                0 <= i < r.1@.len() && !self@.removable.contains(i) ==> #[trigger] r.1@[i] && r.0@.cells[i]
                    == self@.solution.cells[i],
            n is None ==> forall|i: int|
                0 <= i < r.1@.len() && self@.removable.contains(i) ==> !#[trigger] r.1@[i]
                    && r.0@.cells[i] == world::empty_cell(),
    {
        let list = self.removable.clone();
        assert(list@ =~= self.removable@);
        let mut order = rng.shuffle(list);
        let ghost shuffled = order@;
        proof {
            shuffled.to_multiset_ensures();
            self.removable@.to_multiset_ensures();
            assert(shuffled.len() == self.removable@.len());
        }
        let k: usize = match n {
            Some(n) => if n <= order.len() { n } else { order.len() },
            None => order.len(),
        };
        order.truncate(k);
        proof {
            assert(order@ =~= shuffled.take(blank_count(n, self.removable@.len() as int)));
            lemma_same_slots(shuffled, self.removable@);
            assert forall|j: int| 0 <= j < ints(order@).len() implies self@.removable.contains(
                #[trigger] ints(order@)[j],
            ) by {
                assert(ints(shuffled)[j] == ints(order@)[j]);
                assert(ints(shuffled).contains(ints(shuffled)[j]));
            }
            assert(slots_of(self@.solution, ints(order@))) by {
                assert forall|j: int| 0 <= j < ints(order@).len() implies 0 <= #[trigger] ints(
                    order@,
                )[j] < self@.solution.cells.len() by {
                    let m = self@.removable.index_of(ints(order@)[j]);
                    assert(self@.removable[m] == ints(order@)[j]);
                }
            }
        }
        let r = self.blank_slots(&order);
        proof {
            let slots = ints(order@);
            assert forall|i: int|
                0 <= i < r.1@.len() && !self@.removable.contains(i) implies #[trigger] r.1@[i]
                && r.0@.cells[i] == self@.solution.cells[i] by {
                if slots.contains(i) {
                    assert(slots[slots.index_of(i)] == i);
                }
            }
            if n is None {
                assert(slots =~= ints(shuffled));
            }
        }
        r
    }

    /// Blank everything but the sources and sinks: what is left says where items
    /// enter and which are wanted where, and nothing of the answer. Obstacles are
    /// terrain and stay.
    pub fn blank_to_scaffold(&self) -> (r: (Grid, Vec<bool>))
        requires
            self@.valid(),
        ensures
            r.0.wf(),
            r.0@ == ports_only(self@.solution),
            r.1@ == Seq::new(self@.solution.cells.len(), |i: int| is_port(self@.solution.cells[i])),
    {
        let ghost g = self.solution@;
        let mut partial = self.solution.clone();
        let mut observed: Vec<bool> = Vec::new();
        let mut i: usize = 0;
        while i < self.solution.cells.len()
            invariant
                g == self.solution@,
                g.valid(),
                i <= g.cells.len(),
                partial.width == g.width,
                partial.height == g.height,
                partial.obstacle@ == g.obstacle,
                partial.cells@.len() == g.cells.len(),
                observed@.len() == i,
                forall|j: int| 0 <= j < i ==> #[trigger] observed@[j] == is_port(g.cells[j]),
                forall|j: int|
                    0 <= j < g.cells.len() ==> #[trigger] partial.cells@[j] == (if j < i
                        && !is_port(g.cells[j]) {
                        world::empty_cell()
                    } else {
                        g.cells[j]
                    }),
            decreases self.solution.cells.len() - i,
        {
            let keep = matches!(self.solution.cells[i].entity, Entity::Source | Entity::Sink);
            observed.push(keep);
            if !keep {
                partial.cells.set(i, Cell::default());
            }
            i = i + 1;
        }
        assert(partial@ =~= ports_only(g));
        assert(observed@ =~= Seq::new(g.cells.len(), |i: int| is_port(g.cells[i])));
        (partial, observed)
    }
}

/// Lists with the same values as often hold the same slots.
proof fn lemma_same_slots(a: Seq<usize>, b: Seq<usize>)
    requires
        a.to_multiset() == b.to_multiset(),
    ensures
        forall|i: int| ints(a).contains(i) <==> ints(b).contains(i),
{
    a.to_multiset_ensures();
    b.to_multiset_ensures();
    assert forall|i: int| ints(a).contains(i) <==> ints(b).contains(i) by {
        if ints(a).contains(i) {
            let k = ints(a).index_of(i);
            assert(a.contains(a[k]));
            assert(b.to_multiset().count(a[k]) > 0);
            assert(b.contains(a[k]));
            let m = b.index_of(a[k]);
            assert(ints(b)[m] == i);
        }
        if ints(b).contains(i) {
            let k = ints(b).index_of(i);
            assert(b.contains(b[k]));
            assert(a.to_multiset().count(b[k]) > 0);
            assert(a.contains(b[k]));
            let m = a.index_of(b[k]);
            assert(ints(a)[m] == i);
        }
    }
}

/// Blanking to the scaffold hides at least as much as blanking removable slots
/// does: whatever slots of a sound lesson are blanked, none of them is left given by
/// the scaffold, and every source and sink stays in both.
pub proof fn law_scaffold_hides_more(s: SampleView, slots: Seq<int>, i: int)
    requires
        s.sound(),
        forall|k: int| 0 <= k < slots.len() ==> s.removable.contains(#[trigger] slots[k]),
        0 <= i < s.solution.cells.len(),
    ensures
        is_port(s.solution.cells[i]) ==> kept(s.solution.cells.len(), slots)[i],
        is_port(s.solution.cells[i]) ==> emptied(s.solution, slots).cells[i]
            == ports_only(s.solution).cells[i],
        s.protected.contains(i) ==> kept(s.solution.cells.len(), slots)[i],
{
    if slots.contains(i) {
        let k = slots.index_of(i);
        assert(slots[k] == i);
        let m = s.removable.index_of(i);
        assert(s.removable[m] == i);
    }
}

/// A scaffold holds nothing more to blank.
pub proof fn law_scaffold_is_final(g: GridView)
    ensures
        ports_only(ports_only(g)) == ports_only(g),
{
    assert(ports_only(ports_only(g)) =~= ports_only(g));
}

/// Blanking empties the listed slots and leaves all else as it is, the walls included, and
/// a slot counts as left exactly if it is not listed.
pub proof fn law_blanking_empties_what_is_listed(g: GridView, slots: Seq<int>, i: int)
    requires
        0 <= i < g.cells.len(),
    ensures
        ({
            let h = emptied(g, slots);
            &&& (h.width, h.height, h.obstacle) == (g.width, g.height, g.obstacle)
            &&& h.cells.len() == g.cells.len()
            &&& kept(g.cells.len(), slots).len() == g.cells.len()
            &&& (exists|k: int| 0 <= k < slots.len() && #[trigger] slots[k] == i) ==> {
                &&& h.cells[i].entity is Empty
                &&& h.cells[i].consistent()
                &&& !kept(g.cells.len(), slots)[i]
            }
            &&& (forall|k: int| 0 <= k < slots.len() ==> #[trigger] slots[k] != i) ==> {
                &&& h.cells[i] == g.cells[i]
                &&& kept(g.cells.len(), slots)[i]
            }
        }),
{
}

/// A scaffold leaves sources and sinks and walls, and nothing else.
pub proof fn law_a_scaffold_leaves_sources_and_sinks(g: GridView, i: int)
    requires
        0 <= i < g.cells.len(),
    ensures
        ({
            let h = ports_only(g);
            let e = g.cells[i].entity;
            &&& (h.width, h.height, h.obstacle) == (g.width, g.height, g.obstacle)
            &&& h.cells.len() == g.cells.len()
            &&& e is Source || e is Sink ==> h.cells[i] == g.cells[i]
            &&& !(e is Source || e is Sink) ==> h.cells[i].entity is Empty && h.cells[i].consistent()
        }),
{
}

/// As many slots are blanked as are asked for, but no more than there are; without a number
/// all of them.
pub proof fn law_as_many_are_blanked_as_there_are(n: Option<usize>, available: int)
    requires
        0 <= available,
    ensures
        0 <= blank_count(n, available) <= available,
        n is None ==> blank_count(n, available) == available,
        n matches Some(k) ==> blank_count(n, available) <= k,
        n matches Some(k) ==> blank_count(n, available) == k || blank_count(n, available)
            == available,
{
}

} // verus!
