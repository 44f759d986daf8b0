//! Which of several scored cells are committed: the ones that score highest, and of two
//! that tie the one that comes first.

use vstd::prelude::*;

verus! {

/// Whether the `i`-th score comes before the `j`-th.
pub open spec fn outranks(scores: Seq<i64>, i: int, j: int) -> bool {
    scores[i] > scores[j] || (scores[i] == scores[j] && i < j)
}

/// Those of the first `k` scores that come before the `j`-th.
pub open spec fn ahead_of(scores: Seq<i64>, j: int, k: int) -> Set<int> {
    Set::new(|i: int| 0 <= i < k && outranks(scores, i, j))
}

/// How many scores come before the `j`-th.
pub open spec fn rank(scores: Seq<i64>, j: int) -> nat {
    ahead_of(scores, j, scores.len() as int).len()
}

/// The `m` scores that come first.
pub open spec fn leaders(scores: Seq<i64>, m: nat) -> Set<int> {
    Set::new(|j: int| 0 <= j < scores.len() && rank(scores, j) < m)
}

/// Of the first `k` scores as many come before the `j`-th as of the first `k - 1`, or one
/// more.
proof fn lemma_ahead_step(scores: Seq<i64>, j: int, k: int)
    requires
        k >= 0,
    ensures
        ahead_of(scores, j, 0).len() == 0,
        ahead_of(scores, j, k).finite(),
        ahead_of(scores, j, k + 1).len() == ahead_of(scores, j, k).len() + if outranks(
            scores,
            k,
            j,
        ) {
            1nat
        } else {
            0nat
        },
    decreases k,
{
    assert(ahead_of(scores, j, 0) =~= Set::<int>::empty());
    if k > 0 {
        lemma_ahead_step(scores, j, k - 1);
        lemma_ahead_next(scores, j, k - 1);
    }
    lemma_ahead_next(scores, j, k);
}

/// One score more adds itself or nothing.
proof fn lemma_ahead_next(scores: Seq<i64>, j: int, k: int)
    requires
        k >= 0,
    ensures
        ahead_of(scores, j, k + 1) == if outranks(scores, k, j) {
            ahead_of(scores, j, k).insert(k)
        } else {
            ahead_of(scores, j, k)
        },
{
    assert(ahead_of(scores, j, k + 1) =~= if outranks(scores, k, j) {
        ahead_of(scores, j, k).insert(k)
    } else {
        ahead_of(scores, j, k)
    });
}

/// Fewer scores come before one than there are.
pub proof fn lemma_rank_is_small(scores: Seq<i64>, j: int)
    requires
        0 <= j < scores.len(),
    ensures
        rank(scores, j) < scores.len(),
{
    lemma_ahead_is_small(scores, j, scores.len() as int);
}

proof fn lemma_ahead_is_small(scores: Seq<i64>, j: int, k: int)
    requires
        0 <= k,
        0 <= j,
    ensures
        ahead_of(scores, j, k).len() <= if j < k {
            k - 1
        } else {
            k
        },
    decreases k,
{
    if k > 0 {
        lemma_ahead_is_small(scores, j, k - 1);
        lemma_ahead_step(scores, j, k - 1);
    } else {
        lemma_ahead_step(scores, j, 0);
    }
}

/// How many scores come before the `j`-th.
pub fn rank_of(scores: &Vec<i64>, j: usize) -> (r: usize)
    requires
        j < scores@.len(),
    ensures
        r == rank(scores@, j as int),
{
    let mut count: usize = 0;
    let mut i: usize = 0;
    proof {
        lemma_ahead_step(scores@, j as int, 0);
    }
    while i < scores.len()
        invariant
            j < scores@.len(),
            i <= scores@.len(),
            count <= i,
            count == ahead_of(scores@, j as int, i as int).len(),
        decreases scores@.len() - i,
    {
        proof {
            lemma_ahead_step(scores@, j as int, i as int);
        }
        if scores[i] > scores[j] || (scores[i] == scores[j] && i < j) {
            count = count + 1;
        }
        i = i + 1;
    }
    count
}

/// Those of a set of scores that come before the `j`-th.
spec fn ahead_within(scores: Seq<i64>, among: Set<int>, j: int) -> Set<int> {
    among.filter(|i: int| outranks(scores, i, j))
}

/// Those of a set of scores that fewer than `m` of the set come before.
spec fn leaders_within(scores: Seq<i64>, among: Set<int>, m: nat) -> Set<int> {
    among.filter(|j: int| ahead_within(scores, among, j).len() < m)
}

/// One score of a set comes after all the others.
proof fn lemma_last_exists(scores: Seq<i64>, among: Set<int>) -> (w: int)
    requires
        among.finite(),
        among.len() > 0,
    ensures
        among.contains(w),
        forall|j: int| among.contains(j) && j != w ==> outranks(scores, j, w),
    decreases among.len(),
{
    let a = among.choose();
    let rest = among.remove(a);
    if rest.len() == 0 {
        assert(rest =~= Set::<int>::empty());
        assert forall|j: int| among.contains(j) && j != a implies outranks(scores, j, a) by {
            assert(rest.contains(j));
        }
        a
    } else {
        let w = lemma_last_exists(scores, rest);
        if outranks(scores, a, w) {
            assert forall|j: int| among.contains(j) && j != w implies outranks(scores, j, w) by {
                if j != a {
                    assert(rest.contains(j));
                }
            }
            w
        } else {
            assert forall|j: int| among.contains(j) && j != a implies outranks(scores, j, a) by {
                assert(rest.contains(j));
                if j != w {
                    assert(outranks(scores, j, w));
                }
            }
            a
        }
    }
}

/// Of a set of scores exactly `m` have fewer than `m` before them.
proof fn lemma_leaders_within(scores: Seq<i64>, among: Set<int>, m: nat)
    requires
        among.finite(),
        m <= among.len(),
    ensures
        leaders_within(scores, among, m).finite(),
        leaders_within(scores, among, m).len() == m,
    decreases among.len(),
{
    if among.len() == 0 {
        assert(among =~= Set::<int>::empty());
        assert(leaders_within(scores, among, m) =~= Set::<int>::empty());
    } else {
        let w = lemma_last_exists(scores, among);
        let rest = among.remove(w);
        assert(ahead_within(scores, among, w) =~= rest);
        assert forall|j: int| rest.contains(j) implies ahead_within(scores, among, j)
            == #[trigger] ahead_within(scores, rest, j) by {
            assert(ahead_within(scores, among, j) =~= ahead_within(scores, rest, j));
        }
        if m < among.len() {
            lemma_leaders_within(scores, rest, m);
            assert(leaders_within(scores, among, m) =~= leaders_within(scores, rest, m));
        } else {
            lemma_leaders_within(scores, rest, (m - 1) as nat);
            assert forall|j: int| rest.contains(j) implies leaders_within(
                scores,
                among,
                m,
            ).contains(j) by {
                vstd::set_lib::lemma_len_subset(
                    ahead_within(scores, among, j),
                    among.remove(j),
                );
            }
            assert(leaders_within(scores, among, m) =~= among);
        }
    }
}

/// A higher score ranks before a lower one, and of two equal scores the one that is
/// listed first.
pub proof fn law_higher_scores_rank_first(scores: Seq<i64>, i: int, j: int)
    requires
        0 <= i < scores.len(),
        0 <= j < scores.len(),
    ensures
        scores[i] > scores[j] ==> rank(scores, i) < rank(scores, j),
        scores[i] == scores[j] && i < j ==> rank(scores, i) < rank(scores, j),
{
    if scores[i] > scores[j] || scores[i] == scores[j] && i < j {
        let n = scores.len() as int;
        let a = ahead_of(scores, i, n);
        let b = ahead_of(scores, j, n);
        lemma_ahead_step(scores, i, n);
        lemma_ahead_step(scores, j, n);
        assert(a.subset_of(b.remove(i)));
        assert(b.contains(i));
        vstd::set_lib::lemma_len_subset(a, b.remove(i));
    }
}

/// The highest score has none before it, and the rank of any other counts the scores that
/// are higher, or as high and listed before it.
pub proof fn law_the_rank_counts_what_scores_higher(scores: Seq<i64>, j: int)
    requires
        0 <= j < scores.len(),
    ensures
        rank(scores, j) == Set::new(
            |i: int|
                0 <= i < scores.len() && (scores[i] > scores[j] || scores[i] == scores[j] && i < j),
        ).len(),
{
    assert(ahead_of(scores, j, scores.len() as int) =~= Set::new(
        |i: int|
            0 <= i < scores.len() && (scores[i] > scores[j] || scores[i] == scores[j] && i < j),
    ));
}

/// Exactly `m` scores are among the first `m`.
pub proof fn law_as_many_lead_as_are_asked_for(scores: Seq<i64>, m: nat)
    requires
        m <= scores.len(),
    ensures
        leaders(scores, m).finite(),
        leaders(scores, m).len() == m,
{
    let n = scores.len() as int;
    let all = vstd::set_lib::set_int_range(0, n);
    vstd::set_lib::lemma_int_range(0, n);
    lemma_leaders_within(scores, all, m);
    assert forall|j: int| 0 <= j < n implies ahead_within(scores, all, j) == #[trigger] ahead_of(
        scores,
        j,
        n,
    ) by {
        assert(ahead_within(scores, all, j) =~= ahead_of(scores, j, n));
    }
    assert(leaders(scores, m) =~= leaders_within(scores, all, m));
}

} // verus!
