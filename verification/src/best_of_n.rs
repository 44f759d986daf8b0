//! Keeping the best of several candidate factories for one task.
//!
//! A score is a number that orders candidates as the rate they deliver does: zero for a
//! factory that delivers nothing, more for one that delivers more.

use vstd::prelude::*;
use crate::world::{Cell, Grid};

verus! {

/// The number of occupied cells among the first `k`.
pub open spec fn part_count(cells: Seq<Cell>, k: nat) -> nat
    decreases k,
{
    if k == 0 {
        0
    } else {
        part_count(cells, (k - 1) as nat) + if cells[k - 1].entity is Empty {
            0nat
        } else {
            1nat
        }
    }
}

/// Whether one draw is preferred to another, whatever their order: it scores higher, or
/// it ties at a score above zero with fewer parts, where compactness counts.
pub open spec fn preferred(
    score: u64,
    count: usize,
    other_score: u64,
    other_count: usize,
    prefer_compact: bool,
) -> bool {
    score > other_score || (prefer_compact && score == other_score && score > 0 && count
        < other_count)
}

/// Whether draw `w` wins: it is preferred to every earlier draw, and none is preferred
/// to it.
pub open spec fn wins(
    scores: Seq<u64>,
    parts: Seq<usize>,
    prefer_compact: bool,
    w: int,
) -> bool {
    &&& 0 <= w < scores.len()
    &&& forall|j: int|
        0 <= j < w ==> preferred(scores[w], parts[w], #[trigger] scores[j], parts[j], prefer_compact)
    &&& forall|j: int|
        0 <= j < scores.len() ==> !preferred(
            #[trigger] scores[j],
            parts[j],
            scores[w],
            parts[w],
            prefer_compact,
        )
}

/// The cells of each candidate.
pub open spec fn layouts(candidates: Seq<Grid>) -> Seq<Seq<Cell>> {
    candidates.map_values(|g: Grid| g.cells@)
}

/// How many parts a factory is built from: one for every entity. A machine is one part,
/// whatever it covers, and obstacles are none.
pub fn parts(grid: &Grid) -> (r: usize)
    ensures
        r == part_count(grid.cells@, grid.cells@.len()),
{
    let n: usize = grid.cells.len();
    let mut count: usize = 0;
    let mut i: usize = 0;
    while i < n
        invariant
            n == grid.cells@.len(),
            i <= n,
            count <= i,
            count == part_count(grid.cells@, i as nat),
        decreases n - i,
    {
        if !grid.cells[i].is_empty() {
            count = count + 1;
        }
        i = i + 1;
    }
    count
}

/// Does a draw that scores `score` with `count` parts beat the best so far, if there is
/// one? Throughput comes first. Compactness only chooses among draws that tie on it, and
/// not where nothing is delivered: the emptiest factory is the most compact one.
pub fn beats(score: u64, count: usize, best: Option<(u64, usize)>, prefer_compact: bool) -> (r:
    bool)
    ensures
        best is None ==> r,
        best matches Some(b) ==> r == preferred(score, count, b.0, b.1, prefer_compact),
{
    match best {
        None => true,
        Some((best_score, best_parts)) => {
            let tied = score == best_score && best_score > 0;
            score > best_score || (prefer_compact && tied && count < best_parts)
        },
    }
}

/// The draw that wins.
pub fn select(scores: &Vec<u64>, parts: &Vec<usize>, prefer_compact: bool) -> (r: usize)
    requires
        scores@.len() == parts@.len(),
        scores@.len() > 0,
    ensures
        wins(scores@, parts@, prefer_compact, r as int),
{
    let mut best: usize = 0;
    let mut i: usize = 1;
    while i < scores.len()
        invariant
            scores@.len() == parts@.len(),
            1 <= i <= scores@.len(),
            best < i,
            forall|j: int|
                0 <= j < best ==> preferred(
                    scores@[best as int],
                    parts@[best as int],
                    #[trigger] scores@[j],
                    parts@[j],
                    prefer_compact,
                ),
            forall|j: int|
                0 <= j < i ==> !preferred(
                    #[trigger] scores@[j],
                    parts@[j],
                    scores@[best as int],
                    parts@[best as int],
                    prefer_compact,
                ),
        decreases scores@.len() - i,
    {
        if beats(scores[i], parts[i], Some((scores[best], parts[best])), prefer_compact) {
            best = i;
        }
        i = i + 1;
    }
    best
}

fn same_layout(a: &Grid, b: &Grid) -> (r: bool)
    ensures
        r == (a.cells@ == b.cells@),
{
    if a.cells.len() != b.cells.len() {
        return false;
    }
    let mut i: usize = 0;
    while i < a.cells.len()
        invariant
            a.cells@.len() == b.cells@.len(),
            i <= a.cells@.len(),
            forall|j: int| 0 <= j < i ==> a.cells@[j] == b.cells@[j],
        decreases a.cells@.len() - i,
    {
        if a.cells[i] != b.cells[i] {
            return false;
        }
        i = i + 1;
    }
    assert(a.cells@ =~= b.cells@);
    true
}

/// How many different layouts there are among the candidates. Only the cells matter:
/// candidates for one task share their sides and obstacles.
pub fn distinct(candidates: &Vec<Grid>) -> (r: usize)
    ensures
        r == layouts(candidates@).to_set().len(),
{
    let ghost all = layouts(candidates@);
    let mut count: usize = 0;
    let mut i: usize = 0;
    assert(all.take(0).to_set() =~= Set::<Seq<Cell>>::empty());
    while i < candidates.len()
        invariant
            all == layouts(candidates@),
            i <= candidates@.len(),
            count <= i,
            count == all.take(i as int).to_set().len(),
        decreases candidates@.len() - i,
    {
        let mut seen = false;
        let mut j: usize = 0;
        while j < i
            invariant
                all == layouts(candidates@),
                i < candidates@.len(),
                j <= i,
                seen <==> exists|k: int| 0 <= k < j && all[k] == all[i as int],
            decreases i - j,
        {
            if same_layout(&candidates[j], &candidates[i]) {
                assert(all[j as int] == all[i as int]);
                seen = true;
            }
            j = j + 1;
        }
        proof {
            let before = all.take(i as int);
            vstd::seq_lib::seq_to_set_is_finite(before);
            assert(all.take(i + 1) =~= before.push(all[i as int]));
            before.lemma_push_to_set_commute(all[i as int]);
            assert(before.to_set().contains(all[i as int]) == seen) by {
                if seen {
                    let k = choose|k: int| 0 <= k < i && all[k] == all[i as int];
                    assert(before[k] == all[i as int]);
                }
            }
        }
        if !seen {
            count = count + 1;
        }
        i = i + 1;
    }
    assert(all.take(all.len() as int) =~= all);
    count
}

/// The seed of a draw: the base seed and the number of the draw.
pub fn draw_seed(seed: u64, draw: u64) -> (r: u64)
    ensures
        r == (seed + draw) % 0x1_0000_0000_0000_0000,
{
    seed.wrapping_add(draw)
}

/// How many draws are made: at least one.
pub fn draw_count(n: usize) -> (r: usize)
    ensures
        r == if n == 0 {
            1
        } else {
            n
        },
{
    if n == 0 {
        1
    } else {
        n
    }
}

/// What the draws for one task came to.
#[derive(Clone, Debug, PartialEq, Eq)]
pub struct BestOfN {
    /// The number of the winning draw.
    pub winner: usize,
    /// The score of every draw, in draw order.
    pub scores: Vec<u64>,
    /// The parts of every draw, in draw order.
    pub parts: Vec<usize>,
    /// How many different layouts the draws produced.
    pub distinct: usize,
}

impl BestOfN {
    /// Every draw has a score and a part count, and one of them has won.
    pub open spec fn wf(self) -> bool {
        &&& self.scores@.len() == self.parts@.len()
        &&& exists|compact: bool|
            #[trigger] wins(self.scores@, self.parts@, compact, self.winner as int)
    }

    /// The score of the winner: the highest one.
    pub fn best_score(&self) -> (r: u64)
        requires
            self.wf(),
        ensures
            r == self.scores@[self.winner as int],
            forall|j: int| 0 <= j < self.scores@.len() ==> self.scores@[j] <= r,
    {
        self.scores[self.winner]
    }

    /// The score of the first draw: what sampling once would have returned.
    pub fn first_score(&self) -> (r: u64)
        requires
            self.wf(),
        ensures
            r == self.scores@[0],
            r <= self.scores@[self.winner as int],
    {
        self.scores[0]
    }

    /// Parts the winner is built from.
    pub fn best_parts(&self) -> (r: usize)
        requires
            self.wf(),
        ensures
            r == self.parts@[self.winner as int],
    {
        self.parts[self.winner]
    }

    /// Parts saved against the roomiest draw that delivers just as much.
    pub fn parts_saved(&self) -> (r: usize)
        requires
            self.wf(),
        ensures
            exists|j: int|
                0 <= j < self.scores@.len() && self.scores@[j] == self.scores@[self.winner as int]
                    && #[trigger] self.parts@[j] == self.parts@[self.winner as int] + r,
            forall|j: int|
                0 <= j < self.scores@.len() && self.scores@[j] == self.scores@[self.winner as int]
                    ==> #[trigger] self.parts@[j] <= self.parts@[self.winner as int] + r,
    {
        let best = self.scores[self.winner];
        let mut roomiest: usize = self.winner;
        let mut i: usize = 0;
        while i < self.scores.len()
            invariant
                self.scores@.len() == self.parts@.len(),
                self.winner < self.scores@.len(),
                roomiest < self.scores@.len(),
                best == self.scores@[self.winner as int],
                self.scores@[roomiest as int] == best,
                self.parts@[roomiest as int] >= self.parts@[self.winner as int],
                i <= self.scores@.len(),
                forall|j: int|
                    0 <= j < i && self.scores@[j] == best ==> #[trigger] self.parts@[j]
                        <= self.parts@[roomiest as int],
            decreases self.scores@.len() - i,
        {
            if self.scores[i] == best && self.parts[i] > self.parts[roomiest] {
                roomiest = i;
            }
            i = i + 1;
        }
        self.parts[roomiest] - self.parts[self.winner]
    }
}

/// Rank the candidates drawn for one task by their scores, and break ties by size where
/// `prefer_compact` says so.
pub fn best_of_n(candidates: &Vec<Grid>, scores: Vec<u64>, prefer_compact: bool) -> (r: BestOfN)
    requires
        candidates@.len() == scores@.len(),
        scores@.len() > 0,
    ensures
        r.wf(),
        r.scores@ == scores@,
        r.parts@.len() == candidates@.len(),
        forall|i: int|
            0 <= i < candidates@.len() ==> #[trigger] r.parts@[i] == part_count(
                candidates@[i].cells@,
                candidates@[i].cells@.len(),
            ),
        wins(r.scores@, r.parts@, prefer_compact, r.winner as int),
        r.distinct == layouts(candidates@).to_set().len(),
{
    let mut counts: Vec<usize> = Vec::new();
    let mut i: usize = 0;
    while i < candidates.len()
        invariant
            i <= candidates@.len(),
            counts@.len() == i,
            forall|j: int|
                0 <= j < i ==> #[trigger] counts@[j] == part_count(
                    candidates@[j].cells@,
                    candidates@[j].cells@.len(),
                ),
        decreases candidates@.len() - i,
    {
        counts.push(parts(&candidates[i]));
        i = i + 1;
    }
    let winner = select(&scores, &counts, prefer_compact);
    let ranked = BestOfN { winner, scores, parts: counts, distinct: distinct(candidates) };
    assert(wins(ranked.scores@, ranked.parts@, prefer_compact, ranked.winner as int));
    ranked
}

/// The winner is never worse than any draw, the first included.
pub proof fn law_the_winner_is_never_worse(
    scores: Seq<u64>,
    parts: Seq<usize>,
    prefer_compact: bool,
    w: int,
    j: int,
)
    requires
        wins(scores, parts, prefer_compact, w),
        0 <= j < scores.len(),
    ensures
        scores[w] >= scores[j],
{
}

/// Where compactness counts and something is delivered, no draw that delivers as much as
/// the winner has fewer parts.
pub proof fn law_the_winner_is_the_leanest_of_its_equals(
    scores: Seq<u64>,
    parts: Seq<usize>,
    w: int,
    j: int,
)
    requires
        wins(scores, parts, true, w),
        0 <= j < scores.len(),
        scores[j] == scores[w],
        scores[w] > 0,
    ensures
        parts[w] <= parts[j],
{
}

/// Where nothing is delivered the first draw stands: being empty wins nothing.
pub proof fn law_where_nothing_is_delivered_the_first_draw_stands(
    scores: Seq<u64>,
    parts: Seq<usize>,
    prefer_compact: bool,
    w: int,
)
    requires
        wins(scores, parts, prefer_compact, w),
        forall|j: int| 0 <= j < scores.len() ==> scores[j] == 0,
    ensures
        w == 0,
{
    if w > 0 {
        assert(preferred(scores[w], parts[w], scores[0], parts[0], prefer_compact));
    }
}

/// There is only one winner.
pub proof fn law_there_is_one_winner(
    scores: Seq<u64>,
    parts: Seq<usize>,
    prefer_compact: bool,
    v: int,
    w: int,
)
    requires
        wins(scores, parts, prefer_compact, v),
        wins(scores, parts, prefer_compact, w),
    ensures
        v == w,
{
    if v < w {
        assert(preferred(scores[w], parts[w], scores[v], parts[v], prefer_compact));
    }
    if w < v {
        assert(preferred(scores[v], parts[v], scores[w], parts[w], prefer_compact));
    }
}

/// The parts of a factory are its occupied cells, each counted once.
pub proof fn law_parts_are_the_occupied_cells(cells: Seq<Cell>, k: nat)
    requires
        k <= cells.len(),
    ensures
        part_count(cells, k) == Set::new(
            |i: int| 0 <= i < k && cells[i].entity !is Empty,
        ).len(),
        Set::new(|i: int| 0 <= i < k && cells[i].entity !is Empty).finite(),
    decreases k,
{
    let all = Set::new(|i: int| 0 <= i < k && cells[i].entity !is Empty);
    if k == 0 {
        assert(all =~= Set::empty());
    } else {
        law_parts_are_the_occupied_cells(cells, (k - 1) as nat);
        let before = Set::new(|i: int| 0 <= i < k - 1 && cells[i].entity !is Empty);
        if cells[k - 1].entity is Empty {
            assert(all =~= before);
        } else {
            assert(all =~= before.insert(k - 1));
        }
    }
}

} // verus!
