//! How reconstructed factories compare with the ones they were taken from.

use vstd::prelude::*;
use crate::sim;
use crate::sim::item_reaches_sink;
use crate::world::{Cell, Channel, Grid};

verus! {

/// Counts over a set of reconstructions.
#[derive(Clone, Copy, Debug, PartialEq, Eq)]
pub struct ReconReport {
    pub n_factories: usize,
    /// Masked cells scored.
    pub masked_cells: usize,
    /// Masked cells on which each channel is right.
    pub channel_correct: [usize; 4],
    /// Factories whose masked cells are all rebuilt exactly.
    pub exact: usize,
    /// Reconstructions that are well-formed.
    pub consistent: usize,
    /// Reconstructions that deliver to a sink.
    pub functional: usize,
    /// Originals that deliver to a sink.
    pub original_functional: usize,
    /// Tasks whose original delivers anything: those a ratio can be taken of.
    pub gradeable: usize,
    /// Gradeable tasks whose reconstruction delivers more than the original.
    pub beat_original: usize,
}

/// The cells that are scored: as many as there are flags for.
pub open spec fn scored(original: Grid, observed: Vec<bool>) -> nat {
    if observed@.len() < original.cells@.len() {
        observed@.len()
    } else {
        original.cells@.len()
    }
}

/// How many of the first `k` cells are masked.
pub open spec fn masked_among(observed: Seq<bool>, k: nat) -> nat
    decreases k,
{
    if k == 0 {
        0
    } else {
        masked_among(observed, (k - 1) as nat) + if observed[k - 1] {
            0nat
        } else {
            1nat
        }
    }
}

/// How many of the first `k` cells are masked and right on one channel.
pub open spec fn right_among(
    original: Seq<Cell>,
    rebuilt: Seq<Cell>,
    observed: Seq<bool>,
    ch: Channel,
    k: nat,
) -> nat
    decreases k,
{
    if k == 0 {
        0
    } else {
        right_among(original, rebuilt, observed, ch, (k - 1) as nat) + if !observed[k - 1]
            && original[k - 1].channel_code(ch) == rebuilt[k - 1].channel_code(ch) {
            1nat
        } else {
            0nat
        }
    }
}

/// Whether the masked ones among the first `k` cells are rebuilt exactly.
pub open spec fn rebuilt_exactly(
    original: Seq<Cell>,
    rebuilt: Seq<Cell>,
    observed: Seq<bool>,
    k: nat,
) -> bool {
    forall|i: int| 0 <= i < k && !observed[i] ==> #[trigger] original[i] == rebuilt[i]
}

/// One if something holds.
pub open spec fn one_if(b: bool) -> nat {
    if b {
        1
    } else {
        0
    }
}

/// The cells of the first `k` grids.
pub open spec fn total_cells(grids: Seq<Grid>, k: nat) -> nat
    decreases k,
{
    if k == 0 {
        0
    } else {
        total_cells(grids, (k - 1) as nat) + grids[k - 1].cells@.len()
    }
}

/// The masked cells of the first `k` tasks.
pub open spec fn total_masked(originals: Seq<Grid>, observed: Seq<Vec<bool>>, k: nat) -> nat
    decreases k,
{
    if k == 0 {
        0
    } else {
        total_masked(originals, observed, (k - 1) as nat) + masked_among(
            observed[k - 1]@,
            scored(originals[k - 1], observed[k - 1]),
        )
    }
}

/// The masked cells of the first `k` tasks that are right on one channel.
pub open spec fn total_right(
    originals: Seq<Grid>,
    reconstructed: Seq<Grid>,
    observed: Seq<Vec<bool>>,
    ch: Channel,
    k: nat,
) -> nat
    decreases k,
{
    if k == 0 {
        0
    } else {
        total_right(originals, reconstructed, observed, ch, (k - 1) as nat) + right_among(
            originals[k - 1].cells@,
            reconstructed[k - 1].cells@,
            observed[k - 1]@,
            ch,
            scored(originals[k - 1], observed[k - 1]),
        )
    }
}

/// How many of the first `k` tasks are rebuilt exactly.
pub open spec fn total_exact(
    originals: Seq<Grid>,
    reconstructed: Seq<Grid>,
    observed: Seq<Vec<bool>>,
    k: nat,
) -> nat
    decreases k,
{
    if k == 0 {
        0
    } else {
        total_exact(originals, reconstructed, observed, (k - 1) as nat) + one_if(
            rebuilt_exactly(
                originals[k - 1].cells@,
                reconstructed[k - 1].cells@,
                observed[k - 1]@,
                scored(originals[k - 1], observed[k - 1]),
            ),
        )
    }
}

/// How many of the first `k` grids are well-formed.
pub open spec fn total_consistent(grids: Seq<Grid>, k: nat) -> nat
    decreases k,
{
    if k == 0 {
        0
    } else {
        total_consistent(grids, (k - 1) as nat) + one_if(grids[k - 1]@.consistent())
    }
}

/// How many of the first `k` grids deliver to a sink.
pub open spec fn total_functional(grids: Seq<Grid>, k: nat) -> nat
    decreases k,
{
    if k == 0 {
        0
    } else {
        total_functional(grids, (k - 1) as nat) + one_if(sim::functional(grids[k - 1]@))
    }
}

/// How many of the first `k` originals score above zero.
pub open spec fn total_gradeable(original_scores: Seq<u64>, k: nat) -> nat
    decreases k,
{
    if k == 0 {
        0
    } else {
        total_gradeable(original_scores, (k - 1) as nat) + one_if(original_scores[k - 1] > 0)
    }
}

/// How many of the first `k` tasks are gradeable and score more than the original.
pub open spec fn total_beaten(original_scores: Seq<u64>, scores: Seq<u64>, k: nat) -> nat
    decreases k,
{
    if k == 0 {
        0
    } else {
        total_beaten(original_scores, scores, (k - 1) as nat) + one_if(
            original_scores[k - 1] > 0 && scores[k - 1] > original_scores[k - 1],
        )
    }
}

/// What the report on the first `k` tasks says.
pub open spec fn reports(
    r: ReconReport,
    originals: Seq<Grid>,
    reconstructed: Seq<Grid>,
    observed: Seq<Vec<bool>>,
    original_scores: Seq<u64>,
    scores: Seq<u64>,
    k: nat,
) -> bool {
    &&& r.masked_cells == total_masked(originals, observed, k)
    &&& r.channel_correct@[0] == total_right(
        originals,
        reconstructed,
        observed,
        Channel::Entity,
        k,
    )
    &&& r.channel_correct@[1] == total_right(
        originals,
        reconstructed,
        observed,
        Channel::Direction,
        k,
    )
    &&& r.channel_correct@[2] == total_right(originals, reconstructed, observed, Channel::Item, k)
    &&& r.channel_correct@[3] == total_right(originals, reconstructed, observed, Channel::Misc, k)
    &&& r.exact == total_exact(originals, reconstructed, observed, k)
    &&& r.consistent == total_consistent(reconstructed, k)
    &&& r.functional == total_functional(reconstructed, k)
    &&& r.original_functional == total_functional(originals, k)
    &&& r.gradeable == total_gradeable(original_scores, k)
    &&& r.beat_original == total_beaten(original_scores, scores, k)
}

/// No channel is right more often than there are masked cells, and there are no more of
/// those than cells.
pub proof fn law_right_cells_are_masked_cells(
    originals: Seq<Grid>,
    reconstructed: Seq<Grid>,
    observed: Seq<Vec<bool>>,
    ch: Channel,
    k: nat,
)
    ensures
        total_right(originals, reconstructed, observed, ch, k) <= total_masked(
            originals,
            observed,
            k,
        ),
        total_masked(originals, observed, k) <= total_cells(originals, k),
    decreases k,
{
    if k > 0 {
        law_right_cells_are_masked_cells(originals, reconstructed, observed, ch, (k - 1) as nat);
        lemma_right_among(
            originals[k - 1].cells@,
            reconstructed[k - 1].cells@,
            observed[k - 1]@,
            ch,
            scored(originals[k - 1], observed[k - 1]),
        );
    }
}

/// Where the masked cells are rebuilt exactly, every channel is right on all of them.
pub proof fn law_exact_factories_are_right_throughout(
    original: Seq<Cell>,
    rebuilt: Seq<Cell>,
    observed: Seq<bool>,
    ch: Channel,
    k: nat,
)
    requires
        rebuilt_exactly(original, rebuilt, observed, k),
    ensures
        right_among(original, rebuilt, observed, ch, k) == masked_among(observed, k),
    decreases k,
{
    if k > 0 {
        law_exact_factories_are_right_throughout(original, rebuilt, observed, ch, (k - 1) as nat);
        if !observed[k - 1] {
            assert(original[k - 1] == rebuilt[k - 1]);
        }
    }
}

proof fn lemma_right_among(
    original: Seq<Cell>,
    rebuilt: Seq<Cell>,
    observed: Seq<bool>,
    ch: Channel,
    k: nat,
)
    ensures
        right_among(original, rebuilt, observed, ch, k) <= masked_among(observed, k) <= k,
    decreases k,
{
    if k > 0 {
        lemma_right_among(original, rebuilt, observed, ch, (k - 1) as nat);
    }
}

/// Fewer cells are in fewer grids.
proof fn lemma_total_cells_grow(grids: Seq<Grid>, j: nat, k: nat)
    requires
        j <= k,
    ensures
        total_cells(grids, j) <= total_cells(grids, k),
    decreases k,
{
    if j < k {
        lemma_total_cells_grow(grids, j, (k - 1) as nat);
    }
}

/// The masked cells of one task and how many of them each channel has right.
struct TaskScore {
    masked: usize,
    right: [usize; 4],
    exact: bool,
}

fn score_task(original: &Grid, rebuilt: &Grid, observed: &Vec<bool>) -> (r: TaskScore)
    requires
        original.cells@.len() == rebuilt.cells@.len(),
    ensures
        ({
            let k = scored(*original, *observed);
            &&& r.masked == masked_among(observed@, k)
            &&& r.right@[0] == right_among(
                original.cells@,
                rebuilt.cells@,
                observed@,
                Channel::Entity,
                k,
            )
            &&& r.right@[1] == right_among(
                original.cells@,
                rebuilt.cells@,
                observed@,
                Channel::Direction,
                k,
            )
            &&& r.right@[2] == right_among(
                original.cells@,
                rebuilt.cells@,
                observed@,
                Channel::Item,
                k,
            )
            &&& r.right@[3] == right_among(
                original.cells@,
                rebuilt.cells@,
                observed@,
                Channel::Misc,
                k,
            )
            &&& r.exact == rebuilt_exactly(original.cells@, rebuilt.cells@, observed@, k)
        }),
{
    let ghost (a, b, o) = (original.cells@, rebuilt.cells@, observed@);
    let n: usize = if observed.len() < original.cells.len() {
        observed.len()
    } else {
        original.cells.len()
    };
    let mut masked: usize = 0;
    let mut entity: usize = 0;
    let mut direction: usize = 0;
    let mut item: usize = 0;
    let mut misc: usize = 0;
    let mut exact = true;
    let mut i: usize = 0;
    while i < n
        invariant
            a == original.cells@,
            b == rebuilt.cells@,
            o == observed@,
            a.len() == b.len(),
            n <= a.len(),
            n <= o.len(),
            i <= n,
            masked <= i,
            entity <= i,
            direction <= i,
            item <= i,
            misc <= i,
            masked == masked_among(o, i as nat),
            entity == right_among(a, b, o, Channel::Entity, i as nat),
            direction == right_among(a, b, o, Channel::Direction, i as nat),
            item == right_among(a, b, o, Channel::Item, i as nat),
            misc == right_among(a, b, o, Channel::Misc, i as nat),
            exact == rebuilt_exactly(a, b, o, i as nat),
        decreases n - i,
    {
        if !observed[i] {
            masked = masked + 1;
            let was = original.cells[i];
            let is = rebuilt.cells[i];
            if was.channel_id(Channel::Entity) == is.channel_id(Channel::Entity) {
                entity = entity + 1;
            }
            if was.channel_id(Channel::Direction) == is.channel_id(Channel::Direction) {
                direction = direction + 1;
            }
            if was.channel_id(Channel::Item) == is.channel_id(Channel::Item) {
                item = item + 1;
            }
            if was.channel_id(Channel::Misc) == is.channel_id(Channel::Misc) {
                misc = misc + 1;
            }
            exact = exact && was == is;
        }
        i = i + 1;
    }
    TaskScore { masked, right: [entity, direction, item, misc], exact }
}

fn bump(count: usize, b: bool) -> (r: usize)
    requires
        count < usize::MAX,
    ensures
        r == count + one_if(b),
{
    if b {
        count + 1
    } else {
        count
    }
}

/// Score reconstructions against the originals on the masked cells. The scores order the
/// rates that each factory delivers, with zero for nothing.
pub fn reconstruction_report(
    originals: &Vec<Grid>,
    reconstructed: &Vec<Grid>,
    observed: &Vec<Vec<bool>>,
    original_scores: &Vec<u64>,
    scores: &Vec<u64>,
) -> (r: ReconReport)
    requires
        originals@.len() == reconstructed@.len(),
        originals@.len() == observed@.len(),
        originals@.len() == original_scores@.len(),
        originals@.len() == scores@.len(),
        forall|i: int| 0 <= i < originals@.len() ==> (#[trigger] originals@[i]).wf(),
        forall|i: int|
            0 <= i < originals@.len() ==> (#[trigger] reconstructed@[i]).wf()
                && reconstructed@[i].cells@.len() == originals@[i].cells@.len(),
        total_cells(originals@, originals@.len()) <= usize::MAX,
    ensures
        r.n_factories == originals@.len(),
        reports(
            r,
            originals@,
            reconstructed@,
            observed@,
            original_scores@,
            scores@,
            originals@.len(),
        ),
{
    let ghost all = originals@;
    let n: usize = originals.len();
    let mut r = ReconReport {
        n_factories: n,
        masked_cells: 0,
        channel_correct: [0, 0, 0, 0],
        exact: 0,
        consistent: 0,
        functional: 0,
        original_functional: 0,
        gradeable: 0,
        beat_original: 0,
    };
    let mut i: usize = 0;
    while i < n
        invariant
            all == originals@,
            n == originals@.len(),
            n == reconstructed@.len(),
            n == observed@.len(),
            n == original_scores@.len(),
            n == scores@.len(),
            r.n_factories == n,
            forall|j: int| 0 <= j < n ==> (#[trigger] originals@[j]).wf(),
            forall|j: int|
                0 <= j < n ==> (#[trigger] reconstructed@[j]).wf() && reconstructed@[j].cells@.len()
                    == originals@[j].cells@.len(),
            total_cells(all, n as nat) <= usize::MAX,
            i <= n,
            r.exact <= i,
            r.consistent <= i,
            r.functional <= i,
            r.original_functional <= i,
            r.gradeable <= i,
            r.beat_original <= i,
            reports(
                r,
                all,
                reconstructed@,
                observed@,
                original_scores@,
                scores@,
                i as nat,
            ),
        decreases n - i,
    {
        let ghost k = (i + 1) as nat;
        proof {
            lemma_total_cells_grow(all, k, n as nat);
            law_right_cells_are_masked_cells(all, reconstructed@, observed@, Channel::Entity, k);
            law_right_cells_are_masked_cells(all, reconstructed@, observed@, Channel::Direction, k);
            law_right_cells_are_masked_cells(all, reconstructed@, observed@, Channel::Item, k);
            law_right_cells_are_masked_cells(all, reconstructed@, observed@, Channel::Misc, k);
        }
        let task = score_task(&originals[i], &reconstructed[i], &observed[i]);
        let correct = [
            r.channel_correct[0] + task.right[0],
            r.channel_correct[1] + task.right[1],
            r.channel_correct[2] + task.right[2],
            r.channel_correct[3] + task.right[3],
        ];
        let graded = original_scores[i] > 0;
        r = ReconReport {
            n_factories: n,
            masked_cells: r.masked_cells + task.masked,
            channel_correct: correct,
            exact: bump(r.exact, task.exact),
            consistent: bump(r.consistent, reconstructed[i].is_consistent()),
            functional: bump(r.functional, item_reaches_sink(&reconstructed[i])),
            original_functional: bump(r.original_functional, item_reaches_sink(&originals[i])),
            gradeable: bump(r.gradeable, graded),
            beat_original: bump(r.beat_original, graded && scores[i] > original_scores[i]),
        };
        i = i + 1;
    }
    r
}

/// Whether two cells have the same category on a channel.
pub open spec fn same_on(ch: Channel, a: Cell, b: Cell) -> bool {
    match ch {
        Channel::Entity => a.entity == b.entity,
        Channel::Direction => a.direction == b.direction,
        Channel::Item => a.item == b.item,
        Channel::Misc => a.misc == b.misc,
    }
}

/// One number more is in a set of numbers below a bound, or not.
proof fn lemma_one_more(p: spec_fn(int) -> bool, k: nat)
    ensures
        Set::new(|i: int| 0 <= i < k && p(i)).finite(),
        Set::new(|i: int| 0 <= i < k + 1 && p(i)).len() == Set::new(
            |i: int| 0 <= i < k && p(i),
        ).len() + one_if(p(k as int)),
    decreases k,
{
    let now = Set::new(|i: int| 0 <= i < k && p(i));
    let next = Set::new(|i: int| 0 <= i < k + 1 && p(i));
    if k == 0 {
        assert(now =~= Set::<int>::empty());
    } else {
        lemma_one_more(p, (k - 1) as nat);
        let before = Set::new(|i: int| 0 <= i < k - 1 && p(i));
        assert(now =~= if p(k - 1) {
            before.insert(k - 1)
        } else {
            before
        });
    }
    assert(next =~= if p(k as int) {
        now.insert(k as int)
    } else {
        now
    });
}

/// The masked cells that are counted are those that are not given, and a channel is right
/// on those of them on which the two factories have the same category.
pub proof fn law_right_cells_have_the_same_category(
    original: Seq<Cell>,
    rebuilt: Seq<Cell>,
    observed: Seq<bool>,
    ch: Channel,
    k: nat,
)
    ensures
        masked_among(observed, k) == Set::new(|i: int| 0 <= i < k && !observed[i]).len(),
        right_among(original, rebuilt, observed, ch, k) == Set::new(
            |i: int| 0 <= i < k && !observed[i] && same_on(ch, original[i], rebuilt[i]),
        ).len(),
    decreases k,
{
    let hidden = |i: int| !observed[i];
    let right = |i: int| !observed[i] && same_on(ch, original[i], rebuilt[i]);
    if k == 0 {
        assert(Set::new(|i: int| 0 <= i < k && !observed[i]) =~= Set::<int>::empty());
        assert(Set::new(
            |i: int| 0 <= i < k && !observed[i] && same_on(ch, original[i], rebuilt[i]),
        ) =~= Set::<int>::empty());
    } else {
        let n = (k - 1) as nat;
        law_right_cells_have_the_same_category(original, rebuilt, observed, ch, n);
        lemma_one_more(hidden, n);
        lemma_one_more(right, n);
        assert(Set::new(|i: int| 0 <= i < n && hidden(i)) =~= Set::new(
            |i: int| 0 <= i < n && !observed[i],
        ));
        assert(Set::new(|i: int| 0 <= i < n + 1 && hidden(i)) =~= Set::new(
            |i: int| 0 <= i < k && !observed[i],
        ));
        assert(Set::new(|i: int| 0 <= i < n && right(i)) =~= Set::new(
            |i: int| 0 <= i < n && !observed[i] && same_on(ch, original[i], rebuilt[i]),
        ));
        assert(Set::new(|i: int| 0 <= i < n + 1 && right(i)) =~= Set::new(
            |i: int| 0 <= i < k && !observed[i] && same_on(ch, original[i], rebuilt[i]),
        ));
        assert(same_on(ch, original[n as int], rebuilt[n as int]) <==> original[n as int].channel_code(
            ch,
        ) == rebuilt[n as int].channel_code(ch));
    }
}

/// A channel is wrong somewhere as soon as one masked cell has another category on it.
pub proof fn law_a_wrong_category_is_counted(
    original: Seq<Cell>,
    rebuilt: Seq<Cell>,
    observed: Seq<bool>,
    ch: Channel,
    k: nat,
    i: int,
)
    requires
        0 <= i < k,
        !observed[i],
        !same_on(ch, original[i], rebuilt[i]),
    ensures
        right_among(original, rebuilt, observed, ch, k) < masked_among(observed, k),
        !rebuilt_exactly(original, rebuilt, observed, k),
    decreases k,
{
    assert(same_on(ch, original[i], rebuilt[i]) <==> original[i].channel_code(ch)
        == rebuilt[i].channel_code(ch));
    if i == k - 1 {
        lemma_right_among(original, rebuilt, observed, ch, (k - 1) as nat);
    } else {
        law_a_wrong_category_is_counted(original, rebuilt, observed, ch, (k - 1) as nat, i);
    }
    assert(original[i] != rebuilt[i]);
}

/// What the report says is the sum over its tasks of what it says of each alone, so no
/// task is left out or counted twice.
pub proof fn law_reports_add_up(
    r: ReconReport,
    originals: Seq<Grid>,
    reconstructed: Seq<Grid>,
    observed: Seq<Vec<bool>>,
    original_scores: Seq<u64>,
    scores: Seq<u64>,
)
    requires
        reports(
            r,
            originals,
            reconstructed,
            observed,
            original_scores,
            scores,
            originals.len(),
        ),
        originals.len() == reconstructed.len(),
        originals.len() == observed.len(),
        forall|t: int|
            0 <= t < originals.len() ==> (#[trigger] observed[t])@.len()
                == originals[t].cells@.len() && reconstructed[t].cells@.len()
                == originals[t].cells@.len(),
    ensures
        r.exact == Set::new(
            |t: int|
                0 <= t < originals.len() && forall|i: int|
                    0 <= i < originals[t].cells@.len() && !observed[t]@[i]
                        ==> #[trigger] originals[t].cells@[i] == reconstructed[t].cells@[i],
        ).len(),
        r.consistent == Set::new(
            |t: int| 0 <= t < originals.len() && reconstructed[t]@.consistent(),
        ).len(),
        r.functional == Set::new(
            |t: int| 0 <= t < originals.len() && sim::functional(reconstructed[t]@),
        ).len(),
        r.original_functional == Set::new(
            |t: int| 0 <= t < originals.len() && sim::functional(originals[t]@),
        ).len(),
        r.gradeable == Set::new(
            |t: int| 0 <= t < originals.len() && original_scores[t] > 0,
        ).len(),
        r.beat_original == Set::new(
            |t: int|
                0 <= t < originals.len() && original_scores[t] > 0 && scores[t]
                    > original_scores[t],
        ).len(),
        r.masked_cells == Set::new(
            |c: (int, int)|
                0 <= c.0 < originals.len() && 0 <= c.1 < originals[c.0].cells@.len()
                    && !observed[c.0]@[c.1],
        ).len(),
        forall|ch: Channel|
            r.channel_correct@[position(ch)] == (#[trigger] right_cells(
                originals,
                reconstructed,
                observed,
                ch,
                originals.len() as int,
            )).len(),
{
    let n = originals.len();
    lemma_task_counts(originals, reconstructed, observed, original_scores, scores, n);
    lemma_cell_counts(originals, reconstructed, observed, n);
    assert(masked_cells_of(originals, observed, n as int) =~= Set::new(
        |c: (int, int)|
            0 <= c.0 < originals.len() && 0 <= c.1 < originals[c.0].cells@.len()
                && !observed[c.0]@[c.1],
    ));
}

/// Where a channel stands in the list of counts.
pub open spec fn position(ch: Channel) -> int {
    match ch {
        Channel::Entity => 0,
        Channel::Direction => 1,
        Channel::Item => 2,
        Channel::Misc => 3,
    }
}

/// The masked cells of the first `k` tasks, by task and slot.
pub open spec fn masked_cells_of(
    originals: Seq<Grid>,
    observed: Seq<Vec<bool>>,
    k: int,
) -> Set<(int, int)> {
    Set::new(
        |c: (int, int)|
            0 <= c.0 < k && 0 <= c.1 < originals[c.0].cells@.len() && !observed[c.0]@[c.1],
    )
}

/// Those of them on which both factories have the same category, by task and slot.
pub open spec fn right_cells(
    originals: Seq<Grid>,
    reconstructed: Seq<Grid>,
    observed: Seq<Vec<bool>>,
    ch: Channel,
    k: int,
) -> Set<(int, int)> {
    Set::new(
        |c: (int, int)|
            0 <= c.0 < k && 0 <= c.1 < originals[c.0].cells@.len() && !observed[c.0]@[c.1]
                && same_on(ch, originals[c.0].cells@[c.1], reconstructed[c.0].cells@[c.1]),
    )
}

/// The cells of one task more join those of the tasks before.
proof fn lemma_join(before: Set<(int, int)>, slots: Set<int>, all: Set<(int, int)>, t: int)
    requires
        before.finite(),
        slots.finite(),
        forall|c: (int, int)| #[trigger] all.contains(c) <==> before.contains(c) || c.0 == t
            && slots.contains(c.1),
        forall|c: (int, int)| #[trigger] before.contains(c) ==> c.0 != t,
    ensures
        all.finite(),
        all.len() == before.len() + slots.len(),
{
    let pair = |i: int| (t, i);
    let mine = slots.map(pair);
    slots.lemma_map_finite(pair);
    assert forall|c: (int, int)| #[trigger] mine.contains(c) <==> c.0 == t && slots.contains(
        c.1,
    ) by {
        if c.0 == t && slots.contains(c.1) {
            assert(pair(c.1) == c);
        }
    }
    vstd::set_lib::lemma_map_size(slots, mine, pair);
    assert(all =~= before.union(mine));
    assert(before.disjoint(mine));
    vstd::set_lib::lemma_set_disjoint_lens(before, mine);
}

proof fn lemma_cell_counts(
    originals: Seq<Grid>,
    reconstructed: Seq<Grid>,
    observed: Seq<Vec<bool>>,
    k: nat,
)
    requires
        k <= originals.len(),
        originals.len() == reconstructed.len(),
        originals.len() == observed.len(),
        forall|t: int|
            0 <= t < originals.len() ==> (#[trigger] observed[t])@.len()
                == originals[t].cells@.len() && reconstructed[t].cells@.len()
                == originals[t].cells@.len(),
    ensures
        masked_cells_of(originals, observed, k as int).finite(),
        total_masked(originals, observed, k) == masked_cells_of(
            originals,
            observed,
            k as int,
        ).len(),
        forall|ch: Channel|
            (#[trigger] right_cells(originals, reconstructed, observed, ch, k as int)).finite()
                && total_right(originals, reconstructed, observed, ch, k) == right_cells(
                originals,
                reconstructed,
                observed,
                ch,
                k as int,
            ).len(),
    decreases k,
{
    if k == 0 {
        assert(masked_cells_of(originals, observed, 0) =~= Set::<(int, int)>::empty());
        assert forall|ch: Channel|
            (#[trigger] right_cells(originals, reconstructed, observed, ch, 0)).finite()
                && right_cells(originals, reconstructed, observed, ch, 0).len() == 0 by {
            assert(right_cells(originals, reconstructed, observed, ch, 0) =~= Set::<
                (int, int),
            >::empty());
        }
    } else {
        let t = k - 1;
        let (a, b, o) = (originals[t].cells@, reconstructed[t].cells@, observed[t]@);
        let n = a.len();
        assert(scored(originals[t], observed[t]) == n);
        lemma_cell_counts(originals, reconstructed, observed, t as nat);
        let hidden = |i: int| !o[i];
        lemma_one_more(hidden, n);
        let slots = Set::new(|i: int| 0 <= i < n && !o[i]);
        assert(Set::new(|i: int| 0 <= i < n && hidden(i)) =~= slots);
        law_right_cells_have_the_same_category(a, b, o, Channel::Entity, n);
        lemma_join(
            masked_cells_of(originals, observed, t),
            slots,
            masked_cells_of(originals, observed, k as int),
            t,
        );
        assert forall|ch: Channel|
            (#[trigger] right_cells(originals, reconstructed, observed, ch, k as int)).finite()
                && total_right(originals, reconstructed, observed, ch, k) == right_cells(
                originals,
                reconstructed,
                observed,
                ch,
                k as int,
            ).len() by {
            law_right_cells_have_the_same_category(a, b, o, ch, n);
            let right = |i: int| !o[i] && same_on(ch, a[i], b[i]);
            lemma_one_more(right, n);
            let some = Set::new(|i: int| 0 <= i < n && !o[i] && same_on(ch, a[i], b[i]));
            assert(Set::new(|i: int| 0 <= i < n && right(i)) =~= some);
            assert(right_cells(originals, reconstructed, observed, ch, t).finite());
            lemma_join(
                right_cells(originals, reconstructed, observed, ch, t),
                some,
                right_cells(originals, reconstructed, observed, ch, k as int),
                t,
            );
        }
    }
}

proof fn lemma_task_counts(
    originals: Seq<Grid>,
    reconstructed: Seq<Grid>,
    observed: Seq<Vec<bool>>,
    original_scores: Seq<u64>,
    scores: Seq<u64>,
    k: nat,
)
    requires
        k <= originals.len(),
        originals.len() == reconstructed.len(),
        originals.len() == observed.len(),
        forall|t: int|
            0 <= t < originals.len() ==> (#[trigger] observed[t])@.len()
                == originals[t].cells@.len() && reconstructed[t].cells@.len()
                == originals[t].cells@.len(),
    ensures
        total_exact(originals, reconstructed, observed, k) == Set::new(
            |t: int|
                0 <= t < k && forall|i: int|
                    0 <= i < originals[t].cells@.len() && !observed[t]@[i]
                        ==> #[trigger] originals[t].cells@[i] == reconstructed[t].cells@[i],
        ).len(),
        total_consistent(reconstructed, k) == Set::new(
            |t: int| 0 <= t < k && reconstructed[t]@.consistent(),
        ).len(),
        total_functional(reconstructed, k) == Set::new(
            |t: int| 0 <= t < k && sim::functional(reconstructed[t]@),
        ).len(),
        total_functional(originals, k) == Set::new(
            |t: int| 0 <= t < k && sim::functional(originals[t]@),
        ).len(),
        total_gradeable(original_scores, k) == Set::new(
            |t: int| 0 <= t < k && original_scores[t] > 0,
        ).len(),
        total_beaten(original_scores, scores, k) == Set::new(
            |t: int| 0 <= t < k && original_scores[t] > 0 && scores[t] > original_scores[t],
        ).len(),
{
    let exact = |t: int|
        forall|i: int|
            0 <= i < originals[t].cells@.len() && !observed[t]@[i]
                ==> #[trigger] originals[t].cells@[i] == reconstructed[t].cells@[i];
    let consistent = |t: int| reconstructed[t]@.consistent();
    let works = |t: int| sim::functional(reconstructed[t]@);
    let worked = |t: int| sim::functional(originals[t]@);
    let graded = |t: int| original_scores[t] > 0;
    let beaten = |t: int| original_scores[t] > 0 && scores[t] > original_scores[t];
    assert forall|j: nat| 0 < j <= k implies #[trigger] total_exact(
        originals,
        reconstructed,
        observed,
        j,
    ) == total_exact(originals, reconstructed, observed, (j - 1) as nat) + one_if(
        exact(j - 1),
    ) by {
        assert(scored(originals[j - 1], observed[j - 1]) == originals[j - 1].cells@.len());
        assert(rebuilt_exactly(
            originals[j - 1].cells@,
            reconstructed[j - 1].cells@,
            observed[j - 1]@,
            originals[j - 1].cells@.len(),
        ) <==> exact(j - 1));
    }
    lemma_count(|j: nat| total_exact(originals, reconstructed, observed, j), exact, k);
    lemma_count(|j: nat| total_consistent(reconstructed, j), consistent, k);
    lemma_count(|j: nat| total_functional(reconstructed, j), works, k);
    lemma_count(|j: nat| total_functional(originals, j), worked, k);
    lemma_count(|j: nat| total_gradeable(original_scores, j), graded, k);
    lemma_count(|j: nat| total_beaten(original_scores, scores, j), beaten, k);
    assert(Set::new(|t: int| 0 <= t < k && exact(t)) =~= Set::new(
        |t: int|
            0 <= t < k && forall|i: int|
                0 <= i < originals[t].cells@.len() && !observed[t]@[i]
                    ==> #[trigger] originals[t].cells@[i] == reconstructed[t].cells@[i],
    ));
    assert(Set::new(|t: int| 0 <= t < k && consistent(t)) =~= Set::new(
        |t: int| 0 <= t < k && reconstructed[t]@.consistent(),
    ));
    assert(Set::new(|t: int| 0 <= t < k && works(t)) =~= Set::new(
        |t: int| 0 <= t < k && sim::functional(reconstructed[t]@),
    ));
    assert(Set::new(|t: int| 0 <= t < k && worked(t)) =~= Set::new(
        |t: int| 0 <= t < k && sim::functional(originals[t]@),
    ));
    assert(Set::new(|t: int| 0 <= t < k && graded(t)) =~= Set::new(
        |t: int| 0 <= t < k && original_scores[t] > 0,
    ));
    assert(Set::new(|t: int| 0 <= t < k && beaten(t)) =~= Set::new(
        |t: int| 0 <= t < k && original_scores[t] > 0 && scores[t] > original_scores[t],
    ));
}

/// What grows by one for every number of which something holds counts those numbers.
proof fn lemma_count(f: spec_fn(nat) -> nat, p: spec_fn(int) -> bool, k: nat)
    requires
        f(0) == 0,
        forall|j: nat| 0 < j <= k ==> #[trigger] f(j) == f((j - 1) as nat) + one_if(p(j - 1)),
    ensures
        f(k) == Set::new(|t: int| 0 <= t < k && p(t)).len(),
    decreases k,
{
    if k == 0 {
        assert(Set::new(|t: int| 0 <= t < k && p(t)) =~= Set::<int>::empty());
    } else {
        let n = (k - 1) as nat;
        lemma_count(f, p, n);
        lemma_one_more(p, n);
        assert(Set::new(|t: int| 0 <= t < n + 1 && p(t)) =~= Set::new(
            |t: int| 0 <= t < k && p(t),
        ));
        assert(f(k) == f(n) + one_if(p(n as int)));
    }
}

/// A cell is scored exactly if it exists and there is a flag for it.
pub proof fn law_cells_without_a_flag_are_not_scored(original: Grid, observed: Vec<bool>, i: int)
    requires
        0 <= i,
    ensures
        i < scored(original, observed) <==> i < original.cells@.len() && i < observed@.len(),
{
}

} // verus!
