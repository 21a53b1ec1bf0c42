use vstd::prelude::*;

use crate::dag::{lemma_reach_back, lemma_reach_step, reached_from, Dag};
use crate::selector::TipsManager;
use crate::{cap_sum, cap_sum_spec, RATING_CAP};

verus! {

/// The rating recorded for `a`, or 0 where none is.
pub open spec fn rating_or_zero(r: Seq<Option<i64>>, a: int) -> int {
    match r[a] {
        Some(v) => v as int,
        None => 0,
    }
}

/// Capped fold of the ratings of `aps`, left to right.
pub open spec fn approver_sum(r: Seq<Option<i64>>, aps: Seq<usize>) -> int
    decreases aps.len(),
{
    if aps.len() == 0 {
        0
    } else {
        cap_sum_spec(
            approver_sum(r, aps.drop_last()),
            rating_or_zero(r, aps.last() as int),
            RATING_CAP as int,
        )
    }
}

/// Own weight of `h`: 0 when it is already visited and no extra tip is set.
pub open spec fn base_weight(visited: Seq<bool>, no_extra_tip: bool, h: int) -> int {
    if no_extra_tip && visited[h] {
        0
    } else {
        1
    }
}

/// The cumulative weight that `h` must carry given its approvers' ratings.
pub open spec fn rating_of(
    dag: &Dag,
    visited: Seq<bool>,
    no_extra_tip: bool,
    r: Seq<Option<i64>>,
    h: int,
) -> int {
    cap_sum_spec(
        approver_sum(r, dag.approvers(h)),
        base_weight(visited, no_extra_tip, h),
        RATING_CAP as int,
    )
}

/// `r` rates exactly `entry` and the transactions that approve it directly or
/// indirectly, each by `rating_of`.
pub open spec fn rated_from(
    dag: &Dag,
    visited: Seq<bool>,
    no_extra_tip: bool,
    entry: int,
    r: Seq<Option<i64>>,
) -> bool {
    &&& r.len() == dag.n()
    &&& forall|h: int| 0 <= h < dag.n() && !reached_from(dag, entry, h) ==> (#[trigger] r[h]) is None
    &&& forall|h: int|
        0 <= h < dag.n() && reached_from(dag, entry, h) ==> (#[trigger] r[h]) is Some && r[h]->0 as int == rating_of(
            dag,
            visited,
            no_extra_tip,
            r,
            h,
        )
}

pub open spec fn ratings_bounded(r: Seq<Option<i64>>) -> bool {
    forall|h: int| 0 <= h < r.len() && (#[trigger] r[h]) is Some ==> 0 <= r[h]->0 <= RATING_CAP
}

proof fn lemma_sum_bounded(r: Seq<Option<i64>>, aps: Seq<usize>)
    requires
        ratings_bounded(r),
        forall|k: int| 0 <= k < aps.len() ==> aps[k] < r.len(),
    ensures
        0 <= approver_sum(r, aps) <= RATING_CAP,
    decreases aps.len(),
{
    if aps.len() > 0 {
        lemma_sum_bounded(r, aps.drop_last());
        assert(aps[aps.len() - 1] < r.len());
    }
}

/// The fold reads `r` only at the positions listed in `aps`.
proof fn lemma_sum_frame(r1: Seq<Option<i64>>, r2: Seq<Option<i64>>, aps: Seq<usize>)
    requires
        forall|k: int| 0 <= k < aps.len() ==> r1[aps[k] as int] == r2[aps[k] as int],
    ensures
        approver_sum(r1, aps) == approver_sum(r2, aps),
    decreases aps.len(),
{
    if aps.len() > 0 {
        lemma_sum_frame(r1, r2, aps.drop_last());
        assert(r1[aps[aps.len() - 1] as int] == r2[aps[aps.len() - 1] as int]);
    }
}

/// Every term of the fold is at most the fold.
proof fn lemma_sum_dominates(r: Seq<Option<i64>>, aps: Seq<usize>, k: int)
    requires
        ratings_bounded(r),
        forall|j: int| 0 <= j < aps.len() ==> aps[j] < r.len(),
        0 <= k < aps.len(),
    ensures
        rating_or_zero(r, aps[k] as int) <= approver_sum(r, aps),
    decreases aps.len(),
{
    lemma_sum_bounded(r, aps.drop_last());
    assert(aps[aps.len() - 1] < r.len());
    if k < aps.len() - 1 {
        lemma_sum_dominates(r, aps.drop_last(), k);
        assert(aps.drop_last()[k] == aps[k]);
    }
}

/// Marks `entry` and every transaction that approves it directly or
/// indirectly.
pub fn approver_closure(dag: &Dag, entry: usize) -> (m: Vec<bool>)
    requires
        dag.wf(),
        entry < dag.n(),
    ensures
        m@.len() == dag.n(),
        forall|j: int| 0 <= j < dag.n() ==> #[trigger] m@[j] == reached_from(dag, entry as int, j),
{
    let n = dag.txs.len();
    let ghost e = entry as int;
    let mut m: Vec<bool> = Vec::new();
    let mut j: usize = 0;
    while j < n
        invariant
            j <= n,
            entry < n,
            m@.len() == j,
            forall|x: int| 0 <= x < j ==> (#[trigger] m@[x]) == (x == entry),
        decreases n - j,
    {
        m.push(j == entry);
        j = j + 1;
    }
    proof {
        assert forall|x: int| 0 <= x < entry implies !#[trigger] reached_from(dag, e, x) by {
            if reached_from(dag, e, x) {
                lemma_reach_back(dag, e, x);
            }
        }
    }
    let mut i: usize = entry;
    while i < n
        invariant
            dag.wf(),
            n == dag.n(),
            e == entry as int,
            entry <= i <= n,
            m@.len() == n,
            forall|x: int| 0 <= x < i ==> #[trigger] m@[x] == reached_from(dag, e, x),
            forall|x: int|
                i <= x < n ==> #[trigger] m@[x] == (x == e || exists|k: int|
                    e <= k < i && #[trigger] reached_from(dag, e, k) && dag.approvers(k).contains(x as usize)),
        decreases n - i,
    {
        proof {
            let ii = i as int;
            if reached_from(dag, e, ii) && ii != e {
                lemma_reach_back(dag, e, ii);
            }
            if m@[ii] {
                if ii == e {
                    let p = seq![e];
                    assert(crate::dag::approver_chain(dag, p));
                } else {
                    let k = choose|k: int|
                        e <= k < ii && #[trigger] reached_from(dag, e, k) && dag.approvers(k).contains(ii as usize);
                    lemma_reach_step(dag, e, k, ii);
                }
            }
        }
        assert(m@[i as int] == reached_from(dag, e, i as int));
        if m[i] {
            let tx = &dag.txs[i];
            assert(dag.wf_tx(i as int));
            let ghost m0 = m@;
            let mut k: usize = 0;
            while k < tx.approvers.len()
                invariant
                    dag.wf(),
                    n == dag.n(),
                    i < n,
                    tx == dag.txs@[i as int],
                    dag.wf_tx(i as int),
                    m@.len() == n,
                    k <= tx.approvers@.len(),
                    forall|x: int| 0 <= x <= i ==> #[trigger] m@[x] == m0[x],
                    forall|x: int|
                        i < x < n ==> #[trigger] m@[x] == (m0[x] || exists|q: int|
                            0 <= q < k && tx.approvers@[q] == x),
                decreases tx.approvers@.len() - k,
            {
                let a = tx.approvers[k];
                assert(dag.approvers(i as int)[k as int] == a);
                m.set(a, true);
                k = k + 1;
            }
            proof {
                assert forall|x: int| i < x < n implies #[trigger] m@[x] == (x == e || exists|k: int|
                    e <= k < i + 1 && #[trigger] reached_from(dag, e, k) && dag.approvers(k).contains(x as usize)) by {
                    if exists|q: int| 0 <= q < tx.approvers@.len() && tx.approvers@[q] == x {
                        let q = choose|q: int| 0 <= q < tx.approvers@.len() && tx.approvers@[q] == x;
                        assert(dag.approvers(i as int)[q] == x as usize);
                        assert(dag.approvers(i as int).contains(x as usize));
                    }
                    if exists|k: int| e <= k < i + 1 && #[trigger] reached_from(dag, e, k) && dag.approvers(k).contains(x as usize) {
                        let k = choose|k: int| e <= k < i + 1 && #[trigger] reached_from(dag, e, k) && dag.approvers(k).contains(x as usize);
                        if k == i {
                            let q = choose|q: int| 0 <= q < dag.approvers(k).len() && dag.approvers(k)[q] == x as usize;
                            assert(tx.approvers@[q] == x);
                        }
                    }
                }
            }
        } else {
            proof {
                assert forall|x: int| i < x < n implies #[trigger] m@[x] == (x == e || exists|k: int|
                    e <= k < i + 1 && #[trigger] reached_from(dag, e, k) && dag.approvers(k).contains(x as usize)) by {
                    if exists|k: int| e <= k < i + 1 && #[trigger] reached_from(dag, e, k) && dag.approvers(k).contains(x as usize) {
                        let k = choose|k: int| e <= k < i + 1 && #[trigger] reached_from(dag, e, k) && dag.approvers(k).contains(x as usize);
                        assert(k != i);
                    }
                }
            }
        }
        i = i + 1;
    }
    m
}

/// Computes the rating of `entry` and of every transaction that approves it
/// directly or indirectly, latest first.
pub fn serial_update_ratings(dag: &Dag, visited: &Vec<bool>, entry: usize, no_extra_tip: bool) -> (r:
    Vec<Option<i64>>)
    requires
        dag.wf(),
        visited@.len() == dag.n(),
        entry < dag.n(),
    ensures
        rated_from(dag, visited@, no_extra_tip, entry as int, r@),
        ratings_bounded(r@),
{
    let n = dag.txs.len();
    let reach = approver_closure(dag, entry);
    let mut r: Vec<Option<i64>> = Vec::new();
    let mut j: usize = 0;
    while j < n
        invariant
            j <= n,
            r@.len() == j,
            forall|h: int| 0 <= h < j ==> (#[trigger] r@[h]) is None,
        decreases n - j,
    {
        r.push(None);
        j = j + 1;
    }
    let mut i: usize = n;
    while i > entry
        invariant
            dag.wf(),
            n == dag.n(),
            visited@.len() == n,
            entry <= i <= n,
            r@.len() == n,
            ratings_bounded(r@),
            reach@.len() == n,
            forall|j: int| 0 <= j < n ==> #[trigger] reach@[j] == reached_from(dag, entry as int, j),
            forall|h: int| 0 <= h < i ==> (#[trigger] r@[h]) is None,
            forall|h: int| i <= h < n && !reach@[h] ==> (#[trigger] r@[h]) is None,
            forall|h: int|
                i <= h < n && reach@[h] ==> (#[trigger] r@[h]) is Some && r@[h]->0 as int == rating_of(
                    dag,
                    visited@,
                    no_extra_tip,
                    r@,
                    h,
                ),
        decreases i,
    {
        i = i - 1;
        if !reach[i] {
            continue;
        }
        let tx = &dag.txs[i];
        assert(dag.wf_tx(i as int));
        let mut acc: i64 = 0;
        let mut k: usize = 0;
        while k < tx.approvers.len()
            invariant
                dag.wf(),
                n == dag.n(),
                i < n,
                tx == dag.txs@[i as int],
                dag.wf_tx(i as int),
                r@.len() == n,
                ratings_bounded(r@),
                k <= tx.approvers@.len(),
                acc as int == approver_sum(r@, tx.approvers@.take(k as int)),
            decreases tx.approvers@.len() - k,
        {
            let a = tx.approvers[k];
            assert(dag.approvers(i as int)[k as int] == a);
            let v: i64 = match r[a] {
                Some(v) => v,
                None => 0,
            };
            proof {
                let t = tx.approvers@.take(k as int);
                assert forall|m: int| 0 <= m < t.len() implies t[m] < r@.len() by {
                    assert(dag.approvers(i as int)[m] == t[m]);
                }
                lemma_sum_bounded(r@, t);
                assert(tx.approvers@.take(k as int + 1).drop_last() =~= t);
            }
            acc = cap_sum(acc, v, RATING_CAP);
            k = k + 1;
        }
        assert(tx.approvers@.take(k as int) =~= tx.approvers@);
        let b: i64 = if no_extra_tip && visited[i] {
            0
        } else {
            1
        };
        let rating = cap_sum(acc, b, RATING_CAP);
        proof {
            let aps = dag.approvers(i as int);
            assert forall|m: int| 0 <= m < aps.len() implies aps[m] < r@.len() by {
                assert(dag.wf_tx(i as int));
            }
            lemma_sum_bounded(r@, aps);
        }
        let ghost old_r = r@;
        r.set(i, Some(rating));
        proof {
            assert forall|h: int| i <= h < n && reach@[h] implies (#[trigger] r@[h]) is Some && r@[h]->0 as int
                == rating_of(dag, visited@, no_extra_tip, r@, h) by {
                assert(dag.wf_tx(h));
                let aps = dag.approvers(h);
                assert forall|m: int| 0 <= m < aps.len() implies old_r[aps[m] as int]
                    == r@[aps[m] as int] by {
                    assert(h < aps[m]);
                }
                lemma_sum_frame(old_r, r@, aps);
            }
        }
    }
    proof {
        assert forall|h: int| 0 <= h < n && !reached_from(dag, entry as int, h) implies (#[trigger] r@[h]) is None by {
            if h >= i {
                assert(!reach@[h]);
            }
        }
        assert forall|h: int| 0 <= h < n && reached_from(dag, entry as int, h) implies (#[trigger] r@[h]) is Some
            && r@[h]->0 as int == rating_of(dag, visited@, no_extra_tip, r@, h) by {
            lemma_reach_back(dag, entry as int, h);
            assert(reach@[h]);
        }
    }
    r
}

/// Memo of the recursive rating: every analyzed transaction is rated by
/// `rating_of` with unit base, and its approvers are analyzed too.
pub open spec fn memo_ok(dag: &Dag, r: Seq<Option<i64>>, analyzed: Seq<bool>) -> bool {
    &&& r.len() == dag.n()
    &&& analyzed.len() == dag.n()
    &&& forall|j: int|
        0 <= j < dag.n() && #[trigger] analyzed[j] ==> {
            &&& r[j] is Some
            &&& r[j]->0 as int == rating_of(dag, Seq::empty(), false, r, j)
            &&& forall|k: int| 0 <= k < dag.approvers(j).len() ==> analyzed[#[trigger] dag.approvers(j)[k] as int]
        }
}

impl TipsManager {
    /// Rates `tx` and, first, every transaction that approves it directly or
    /// indirectly, each counting 1 for itself; what is already analyzed is
    /// reused as it stands.
    pub fn recursive_update_ratings(
        &self,
        dag: &Dag,
        tx: usize,
        ratings: &mut Vec<Option<i64>>,
        analyzed: &mut Vec<bool>,
    ) -> (r: i64)
        requires
            dag.wf(),
            tx < dag.n(),
            memo_ok(dag, old(ratings)@, old(analyzed)@),
        ensures
            memo_ok(dag, final(ratings)@, final(analyzed)@),
            final(analyzed)@[tx as int],
            final(ratings)@[tx as int] == Some(r),
            forall|j: int|
                0 <= j < dag.n() && old(analyzed)@[j] ==> #[trigger] final(analyzed)@[j]
                    && final(ratings)@[j] == old(ratings)@[j],
            forall|j: int|
                0 <= j < dag.n() && #[trigger] final(analyzed)@[j] && !old(analyzed)@[j] ==> tx <= j,
            old(analyzed)@[tx as int] ==> r as int == rating_or_zero(old(ratings)@, tx as int)
                && final(ratings)@ == old(ratings)@ && final(analyzed)@ == old(analyzed)@,
        decreases dag.n() - tx,
    {
        if analyzed[tx] {
            return match ratings[tx] {
                Some(v) => v,
                None => 0,
            };
        }
        let ghost r0 = ratings@;
        let ghost a0 = analyzed@;
        let t = &dag.txs[tx];
        assert(dag.wf_tx(tx as int));
        let mut acc: i64 = 0;
        let mut k: usize = 0;
        while k < t.approvers.len()
            invariant
                dag.wf(),
                tx < dag.n(),
                t == dag.txs@[tx as int],
                dag.wf_tx(tx as int),
                memo_ok(dag, ratings@, analyzed@),
                !analyzed@[tx as int],
                k <= t.approvers@.len(),
                forall|j: int| 0 <= j < k ==> analyzed@[#[trigger] t.approvers@[j] as int],
                acc as int == approver_sum(ratings@, t.approvers@.take(k as int)),
                forall|j: int|
                    0 <= j < dag.n() && a0[j] ==> #[trigger] analyzed@[j] && ratings@[j] == r0[j],
                forall|j: int| 0 <= j < dag.n() && #[trigger] analyzed@[j] && !a0[j] ==> tx < j,
            decreases t.approvers@.len() - k,
        {
            let a = t.approvers[k];
            assert(dag.approvers(tx as int)[k as int] == a);
            let ghost r1 = ratings@;
            let ghost a1 = analyzed@;
            let v = self.recursive_update_ratings(dag, a, ratings, analyzed);
            proof {
                let pre = t.approvers@.take(k as int);
                assert forall|m: int| 0 <= m < pre.len() implies r1[pre[m] as int] == ratings@[pre[m] as int] by {
                    assert(pre[m] == t.approvers@[m]);
                    assert(a1[t.approvers@[m] as int]);
                    assert(analyzed@[pre[m] as int]);
                    assert(dag.approvers(tx as int)[m] == pre[m]);
                }
                lemma_sum_frame(r1, ratings@, pre);
                assert(t.approvers@.take(k as int + 1).drop_last() =~= pre);
            }
            acc = cap_sum(acc, v, RATING_CAP);
            k = k + 1;
        }
        assert(t.approvers@.take(k as int) =~= t.approvers@);
        let rating = cap_sum(acc, 1, RATING_CAP);
        let ghost r2 = ratings@;
        let ghost a2 = analyzed@;
        ratings.set(tx, Some(rating));
        analyzed.set(tx, true);
        proof {
            assert forall|j: int| 0 <= j < dag.n() && #[trigger] analyzed@[j] implies {
                &&& ratings@[j] is Some
                &&& ratings@[j]->0 as int == rating_of(dag, Seq::empty(), false, ratings@, j)
                &&& forall|m: int| 0 <= m < dag.approvers(j).len() ==> analyzed@[#[trigger] dag.approvers(j)[m] as int]
            } by {
                assert(dag.wf_tx(j));
                let aps = dag.approvers(j);
                if j == tx {
                    assert forall|m: int| 0 <= m < aps.len() implies r2[aps[m] as int] == ratings@[aps[m] as int] by {
                        assert(tx < aps[m]);
                    }
                    lemma_sum_frame(r2, ratings@, aps);
                    assert forall|m: int| 0 <= m < aps.len() implies analyzed@[#[trigger] aps[m] as int] by {
                        assert(a2[t.approvers@[m] as int]);
                    }
                } else {
                    assert(a2[j]);
                    assert forall|m: int| 0 <= m < aps.len() implies r2[aps[m] as int] == ratings@[aps[m] as int] by {
                        assert(a2[aps[m] as int]);
                    }
                    lemma_sum_frame(r2, ratings@, aps);
                }
            }
        }
        rating
    }
}

/// Ratings never decrease from an approver to the transaction it approves.
pub proof fn lemma_rating_monotone(
    dag: &Dag,
    visited: Seq<bool>,
    no_extra_tip: bool,
    entry: int,
    r: Seq<Option<i64>>,
    t: int,
    k: int,
)
    requires
        dag.wf(),
        rated_from(dag, visited, no_extra_tip, entry, r),
        ratings_bounded(r),
        0 <= t < dag.n(),
        reached_from(dag, entry, t),
        0 <= k < dag.approvers(t).len(),
    ensures
        r[dag.approvers(t)[k] as int] is Some,
        r[t]->0 >= r[dag.approvers(t)[k] as int]->0,
{
    assert(dag.wf_tx(t));
    let aps = dag.approvers(t);
    let a = aps[k] as int;
    assert(t < a < dag.n());
    assert(aps.contains(aps[k]));
    lemma_reach_step(dag, entry, t, a);
    assert(r[a] is Some);
    assert forall|j: int| 0 <= j < aps.len() implies aps[j] < r.len() by {
        assert(dag.wf_tx(t));
    }
    lemma_sum_dominates(r, aps, k);
    lemma_sum_bounded(r, aps);
    assert(r[t] is Some);
}

/// Every rating lies between 0 and the cap.
pub proof fn lemma_rating_capped(
    dag: &Dag,
    visited: Seq<bool>,
    no_extra_tip: bool,
    entry: int,
    r: Seq<Option<i64>>,
    h: int,
)
    requires
        rated_from(dag, visited, no_extra_tip, entry, r),
        ratings_bounded(r),
        0 <= h < dag.n(),
    ensures
        0 <= rating_or_zero(r, h) <= RATING_CAP,
{
    assert(r[h] is Some ==> 0 <= r[h]->0 <= RATING_CAP);
}

/// Two rating maps built from the same inputs are identical.
pub proof fn lemma_ratings_unique(
    dag: &Dag,
    visited: Seq<bool>,
    no_extra_tip: bool,
    entry: int,
    r1: Seq<Option<i64>>,
    r2: Seq<Option<i64>>,
)
    requires
        dag.wf(),
        0 <= entry,
        rated_from(dag, visited, no_extra_tip, entry, r1),
        rated_from(dag, visited, no_extra_tip, entry, r2),
    ensures
        r1 == r2,
{
    lemma_ratings_agree_above(dag, visited, no_extra_tip, entry, r1, r2, 0);
    assert(r1 =~= r2);
}

proof fn lemma_ratings_agree_above(
    dag: &Dag,
    visited: Seq<bool>,
    no_extra_tip: bool,
    entry: int,
    r1: Seq<Option<i64>>,
    r2: Seq<Option<i64>>,
    lo: int,
)
    requires
        dag.wf(),
        0 <= entry,
        0 <= lo,
        rated_from(dag, visited, no_extra_tip, entry, r1),
        rated_from(dag, visited, no_extra_tip, entry, r2),
    ensures
        forall|h: int| lo <= h < dag.n() ==> r1[h] == r2[h],
    decreases dag.n() - lo,
{
    if lo < dag.n() {
        lemma_ratings_agree_above(dag, visited, no_extra_tip, entry, r1, r2, lo + 1);
        if reached_from(dag, entry, lo) {
            assert(dag.wf_tx(lo));
            let aps = dag.approvers(lo);
            assert forall|m: int| 0 <= m < aps.len() implies r1[aps[m] as int] == r2[aps[m] as int] by {
                assert(lo < aps[m]);
            }
            lemma_sum_frame(r1, r2, aps);
            assert(r1[lo] == r2[lo]);
        } else {
            assert(r1[lo] is None && r2[lo] is None);
        }
    }
}

} // verus!
