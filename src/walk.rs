use vstd::prelude::*;

use rand::rngs::StdRng;
use rand::Rng;

use crate::dag::{
    approver_chain, lemma_chain_increasing, lemma_chain_prefix, reached_from, Dag, TxKind,
};
use vstd::set_lib::{lemma_int_range, lemma_len_subset, set_int_range};
use crate::depth::{below_max_depth, below_spec, lemma_not_below_without_cache, no_cache};
use crate::ledger::{diff_after, diff_ok, update_diff, visited_after};
use crate::rating::{rating_or_zero, ratings_bounded};
use crate::selector::TipsManager;

verus! {

/// rand's `StdRng`, carried through the walks as an opaque value.
#[verifier::external_type_specification]
#[verifier::external_body]
pub struct ExStdRng(StdRng);

/// Relies on rand's `Rng::gen_range`: a value of `0..bound`; it panics on an
/// empty range, which `requires` leaves out.
#[verifier::external_body]
fn draw_below(rng: &mut StdRng, bound: u128) -> (r: u128)
    requires
        bound > 0,
    ensures
        r < bound,
{
    rng.gen_range(0..bound)
}

/// Weight of an approver whose rating lies one below its parent's.
pub const WEIGHT_SCALE: u64 = 0x8000_0000_0000_0000;

/// Weight of an approver whose rating lies `delta` below its parent's: the
/// inverse cube of the gap, in units of `1 / WEIGHT_SCALE`, rounded down but
/// never to zero, so that every approver keeps a chance.
pub open spec fn weight_spec(delta: int) -> int {
    let q = WEIGHT_SCALE as int / (delta * delta * delta);
    if q == 0 {
        1
    } else {
        q
    }
}

/// Inverse-cube weight of a rating gap: `WEIGHT_SCALE / delta^3`, at least 1.
pub fn approver_weight(delta: i64) -> (w: u64)
    requires
        delta > 0,
    ensures
        w as int == weight_spec(delta as int),
{
    let ghost d = delta as int;
    if delta > 0x20_0000 {
        assert(d * d * d > WEIGHT_SCALE) by (nonlinear_arith)
            requires
                d > 0x20_0000,
        ;
        assert(WEIGHT_SCALE as int / (d * d * d) == 0) by (nonlinear_arith)
            requires
                d * d * d > WEIGHT_SCALE,
                WEIGHT_SCALE > 0,
        ;
        1
    } else {
        let x = delta as u64;
        assert(0 < d * d <= 0x400_0000_0000) by (nonlinear_arith)
            requires
                0 < d <= 0x20_0000,
        ;
        assert(0 < d * d * d <= 0x8000_0000_0000_0000) by (nonlinear_arith)
            requires
                0 < d * d <= 0x400_0000_0000,
                0 < d <= 0x20_0000,
        ;
        let c = x * x * x;
        let q = WEIGHT_SCALE / c;
        if q == 0 {
            1
        } else {
            q
        }
    }
}

/// Sum of the first `k` weights.
pub open spec fn prefix_weight(w: Seq<u64>, k: int) -> int
    decreases k,
{
    if k <= 0 {
        0
    } else {
        prefix_weight(w, k - 1) + w[k - 1]
    }
}

proof fn lemma_prefix_bounds(w: Seq<u64>, k: int)
    requires
        0 <= k <= w.len(),
    ensures
        0 <= prefix_weight(w, k) <= k * 0xffff_ffff_ffff_ffff,
    decreases k,
{
    if k > 0 {
        lemma_prefix_bounds(w, k - 1);
    }
}

proof fn lemma_prefix_monotone(w: Seq<u64>, j: int, k: int)
    requires
        0 <= j <= k <= w.len(),
    ensures
        prefix_weight(w, j) <= prefix_weight(w, k),
    decreases k,
{
    if j < k {
        lemma_prefix_monotone(w, j, k - 1);
    }
}

/// Inverse CDF: the index whose weight interval holds the draw `u`.
pub fn pick_by_weight(weights: &Vec<u64>, u: u128) -> (r: usize)
    requires
        (u as int) < prefix_weight(weights@, weights@.len() as int),
    ensures
        r < weights@.len(),
        prefix_weight(weights@, r as int) <= u < prefix_weight(weights@, r as int + 1),
{
    let mut acc: u128 = 0;
    let mut i: usize = 0;
    proof {
        lemma_prefix_bounds(weights@, weights@.len() as int);
    }
    while i < weights.len()
        invariant
            i <= weights@.len(),
            acc as int == prefix_weight(weights@, i as int),
            acc <= u,
            (u as int) < prefix_weight(weights@, weights@.len() as int),
        decreases weights@.len() - i,
    {
        proof {
            lemma_prefix_bounds(weights@, i as int + 1);
        }
        let next = acc + weights[i] as u128;
        if u < next {
            return i;
        }
        acc = next;
        i = i + 1;
    }
    assert(false);
    0
}

/// Rating gap between `tip` and approver `a`.
pub open spec fn gap(r: Seq<Option<i64>>, tip: int, a: int) -> int {
    rating_or_zero(r, tip) - rating_or_zero(r, a)
}

/// Weights of the approvers of `tip`, or the first approver whose rating gap
/// is not positive, which is then taken outright.
pub fn walk_weights(ratings: &Vec<Option<i64>>, tip: usize, aps: &Vec<usize>) -> (res: Result<
    Vec<u64>,
    usize,
>)
    requires
        ratings_bounded(ratings@),
        tip < ratings@.len(),
        forall|k: int| 0 <= k < aps@.len() ==> #[trigger] aps@[k] < ratings@.len(),
    ensures
        match res {
            Ok(w) => {
                &&& w@.len() == aps@.len()
                &&& forall|k: int|
                    0 <= k < aps@.len() ==> gap(ratings@, tip as int, #[trigger] aps@[k] as int) > 0
                        && w@[k] as int == weight_spec(gap(ratings@, tip as int, aps@[k] as int))
            },
            Err(k) => {
                &&& k < aps@.len()
                &&& gap(ratings@, tip as int, aps@[k as int] as int) <= 0
                &&& forall|j: int|
                    0 <= j < k ==> gap(ratings@, tip as int, #[trigger] aps@[j] as int) > 0
            },
        },
{
    let rt: i64 = match ratings[tip] {
        Some(v) => v,
        None => 0,
    };
    let mut w: Vec<u64> = Vec::new();
    let mut k: usize = 0;
    while k < aps.len()
        invariant
            ratings_bounded(ratings@),
            tip < ratings@.len(),
            forall|j: int| 0 <= j < aps@.len() ==> #[trigger] aps@[j] < ratings@.len(),
            rt as int == rating_or_zero(ratings@, tip as int),
            k <= aps@.len(),
            w@.len() == k,
            forall|j: int|
                0 <= j < k ==> gap(ratings@, tip as int, #[trigger] aps@[j] as int) > 0 && w@[j] as int
                    == weight_spec(gap(ratings@, tip as int, aps@[j] as int)),
        decreases aps@.len() - k,
    {
        let a = aps[k];
        assert(aps@[k as int] < ratings@.len());
        let ra: i64 = match ratings[a] {
            Some(v) => v,
            None => 0,
        };
        let d = rt - ra;
        if d <= 0 {
            return Err(k);
        }
        w.push(approver_weight(d));
        k = k + 1;
    }
    Ok(w)
}

/// The weights of `aps` as `walk_weights` computes them.
pub open spec fn weight_seq(r: Seq<Option<i64>>, tip: int, aps: Seq<usize>) -> Seq<u64> {
    Seq::new(aps.len(), |k: int| weight_spec(gap(r, tip, aps[k] as int)) as u64)
}

/// `a` is a possible draw among `aps` from `tip`: the first approver whose
/// gap is not positive if there is one; else an approver whose weight
/// interval can hold a draw below the total (see `pick_by_weight`), or any
/// approver when the weights sum to zero.
pub open spec fn drawn_from(r: Seq<Option<i64>>, tip: int, aps: Seq<usize>, a: int) -> bool {
    if exists|k: int| 0 <= k < aps.len() && gap(r, tip, #[trigger] aps[k] as int) <= 0 {
        exists|k: int|
            0 <= k < aps.len() && gap(r, tip, #[trigger] aps[k] as int) <= 0 && a == aps[k]
                && forall|j: int| 0 <= j < k ==> gap(r, tip, #[trigger] aps[j] as int) > 0
    } else {
        let w = weight_seq(r, tip, aps);
        let total = prefix_weight(w, aps.len() as int);
        if total == 0 {
            exists|k: int| 0 <= k < aps.len() && a == #[trigger] aps[k]
        } else {
            exists|k: int|
                0 <= k < aps.len() && prefix_weight(w, k) < prefix_weight(w, k + 1) && a
                    == #[trigger] aps[k]
        }
    }
}

/// Picks the next tip among `aps`, biased towards approvers whose rating is
/// close to the parent's.
fn choose_approver(ratings: &Vec<Option<i64>>, tip: usize, aps: &Vec<usize>, rng: &mut StdRng) -> (r:
    usize)
    requires
        ratings_bounded(ratings@),
        tip < ratings@.len(),
        aps@.len() > 0,
        forall|k: int| 0 <= k < aps@.len() ==> #[trigger] aps@[k] < ratings@.len(),
    ensures
        aps@.contains(r),
        drawn_from(ratings@, tip as int, aps@, r as int),
{
    match walk_weights(ratings, tip, aps) {
        Err(k) => {
            assert(gap(ratings@, tip as int, aps@[k as int] as int) <= 0);
            aps[k]
        },
        Ok(w) => {
            assert(w@ =~= weight_seq(ratings@, tip as int, aps@));
            assert(!exists|k: int| 0 <= k < aps@.len() && gap(ratings@, tip as int, #[trigger] aps@[k] as int) <= 0);
            let mut total: u128 = 0;
            let mut i: usize = 0;
            proof {
                lemma_prefix_bounds(w@, w@.len() as int);
            }
            while i < w.len()
                invariant
                    i <= w@.len(),
                    total as int == prefix_weight(w@, i as int),
                    prefix_weight(w@, w@.len() as int) <= w@.len() * 0xffff_ffff_ffff_ffff,
                decreases w@.len() - i,
            {
                proof {
                    lemma_prefix_bounds(w@, i as int + 1);
                    lemma_prefix_monotone(w@, i as int + 1, w@.len() as int);
                }
                total = total + w[i] as u128;
                i = i + 1;
            }
            if total == 0 {
                let idx = draw_below(rng, aps.len() as u128) as usize;
                aps[idx]
            } else {
                let u = draw_below(rng, total);
                let idx = pick_by_weight(&w, u);
                assert(prefix_weight(w@, idx as int) < prefix_weight(w@, idx as int + 1));
                aps[idx]
            }
        },
    }
}

/// `t` passes every check of a walk whose walk-local ledger is `(vis, diff)`
/// and whose depth cache is `cache`.
pub open spec fn hop_ok(
    dag: &Dag,
    vis: Seq<bool>,
    diff: Seq<i64>,
    cache: Seq<bool>,
    min_index: int,
    t: int,
) -> bool {
    &&& dag.txs@[t].kind == TxKind::Full
    &&& dag.txs@[t].solid
    &&& diff_ok(dag, vis, diff, t)
    &&& !below_spec(dag, t, min_index, cache)
}

/// The depth cache once `t` is found within depth.
pub open spec fn cache_after_check(dag: &Dag, cache: Seq<bool>, t: int, min_index: int) -> Seq<bool> {
    if dag.snapshot(t) < min_index {
        cache.update(t, true)
    } else {
        cache
    }
}

/// The hop from `t` to `a`: the only approver, or one drawn among several.
pub open spec fn next_hop(dag: &Dag, r: Seq<Option<i64>>, t: int, a: int) -> bool {
    let aps = dag.approvers(t);
    &&& aps.contains(a as usize)
    &&& if aps.len() == 1 {
        a == aps[0]
    } else {
        drawn_from(r, t, aps, a)
    }
}

/// `p` lists the transactions a walk loaded, with the walk-local ledger
/// (`vs`, `ds`) and depth cache `cs` before each: every element but the last
/// passed every check, is not `extra_tip`, and hopped on to the next.
pub open spec fn walk_trace(
    dag: &Dag,
    r: Seq<Option<i64>>,
    extra_tip: Option<usize>,
    min_index: int,
    p: Seq<int>,
    vs: Seq<Seq<bool>>,
    ds: Seq<Seq<i64>>,
    cs: Seq<Seq<bool>>,
) -> bool {
    &&& p.len() > 0
    &&& vs.len() == p.len() && ds.len() == p.len() && cs.len() == p.len()
    &&& forall|i: int| 0 <= i < p.len() ==> 0 <= #[trigger] p[i] < dag.n()
    &&& forall|i: int|
        0 <= i < p.len() - 1 ==> {
            &&& hop_ok(dag, vs[i], ds[i], cs[i], min_index, #[trigger] p[i])
            &&& extra_tip != Some(p[i] as usize)
            &&& next_hop(dag, r, p[i], p[i + 1])
            &&& vs[i + 1] == visited_after(dag, vs[i], p[i])
            &&& ds[i + 1] == diff_after(dag, vs[i], ds[i], p[i])
            &&& cs[i + 1] == cache_after_check(dag, cs[i], p[i], min_index)
        }
}

/// The walk stopped at the last element of `p`: it failed a check, and the
/// tail is the element before it (or the start); or it passed and is
/// `extra_tip` or has no approvers, and is the tail.
pub open spec fn walk_end(
    dag: &Dag,
    extra_tip: Option<usize>,
    min_index: int,
    p: Seq<int>,
    vs: Seq<Seq<bool>>,
    ds: Seq<Seq<i64>>,
    cs: Seq<Seq<bool>>,
    tail: int,
    cache: Seq<bool>,
) -> bool {
    let l = p.len() - 1;
    if hop_ok(dag, vs[l], ds[l], cs[l], min_index, p[l]) {
        &&& extra_tip == Some(p[l] as usize) || dag.approvers(p[l]).len() == 0
        &&& tail == p[l]
        &&& cache == cache_after_check(dag, cs[l], p[l], min_index)
    } else {
        &&& tail == if l == 0 {
            p[0]
        } else {
            p[l - 1]
        }
        &&& cache == cs[l]
    }
}

/// `tail` and the final cache `cache1` are an outcome of one walk from
/// `start` over ledger `(visited, diff)` and cache `cache0`.
pub open spec fn walk_result(
    dag: &Dag,
    visited: Seq<bool>,
    diff: Seq<i64>,
    start: int,
    extra_tip: Option<usize>,
    r: Seq<Option<i64>>,
    min_index: int,
    cache0: Seq<bool>,
    tail: int,
    cache1: Seq<bool>,
) -> bool {
    exists|p: Seq<int>, vs: Seq<Seq<bool>>, ds: Seq<Seq<i64>>, cs: Seq<Seq<bool>>|
        #[trigger] walk_trace(dag, r, extra_tip, min_index, p, vs, ds, cs) && p[0] == start && vs[0]
            == visited && ds[0] == diff && cs[0] == cache0 && walk_end(
            dag,
            extra_tip,
            min_index,
            p,
            vs,
            ds,
            cs,
            tail,
            cache1,
        )
}

/// `start` and every transaction that approves it directly or indirectly.
pub open spec fn closure_set(dag: &Dag, start: int) -> Set<int> {
    Set::new(|j: int| 0 <= j < dag.n() && reached_from(dag, start, j))
}

/// A walk loads each transaction at most once, and only ones in the
/// approver closure of its start, so it ends after at most as many steps as
/// that closure holds.
pub proof fn lemma_walk_within_closure(
    dag: &Dag,
    r: Seq<Option<i64>>,
    extra_tip: Option<usize>,
    min_index: int,
    p: Seq<int>,
    vs: Seq<Seq<bool>>,
    ds: Seq<Seq<i64>>,
    cs: Seq<Seq<bool>>,
)
    requires
        dag.wf(),
        walk_trace(dag, r, extra_tip, min_index, p, vs, ds, cs),
    ensures
        p.len() <= closure_set(dag, p[0]).len(),
{
    assert forall|i: int| 0 <= i < p.len() - 1 implies dag.approvers(#[trigger] p[i]).contains(p[i + 1] as usize) by {
        assert(next_hop(dag, r, p[i], p[i + 1]));
    }
    assert(approver_chain(dag, p));
    let c = closure_set(dag, p[0]);
    assert forall|k: int| #[trigger] p.to_set().contains(k) implies c.contains(k) by {
        let i = choose|i: int| 0 <= i < p.len() && p[i] == k;
        lemma_chain_prefix(dag, p, i + 1);
        let q = p.take(i + 1);
        assert(q[0] == p[0] && q.last() == k);
        assert(reached_from(dag, p[0], k));
    }
    assert forall|a: int, b: int| 0 <= a < p.len() && 0 <= b < p.len() && a != b implies p[a] != p[b] by {
        if a < b {
            lemma_chain_increasing(dag, p, a, b);
        } else {
            lemma_chain_increasing(dag, p, b, a);
        }
    }
    assert(p.no_duplicates());
    p.unique_seq_to_set();
    lemma_int_range(0, dag.n());
    assert(c.subset_of(set_int_range(0, dag.n())));
    lemma_len_subset(c, set_int_range(0, dag.n()));
    lemma_len_subset(p.to_set(), c);
}

/// A tail that a walk settled on after checking it: full, solid, not below
/// the allowed depth.
pub open spec fn acceptable_tail(dag: &Dag, t: int, min_index: int) -> bool {
    &&& dag.txs@[t].kind == TxKind::Full
    &&& dag.txs@[t].solid
    &&& !below_spec(dag, t, min_index, no_cache(dag.n()))
}

impl TipsManager {
    /// One biased walk from `start` towards the tips; returns the last
    /// transaction that passed every check, or `start`.
    pub fn random_walk(
        &self,
        dag: &Dag,
        visited: &Vec<bool>,
        diff: &Vec<i64>,
        start: usize,
        extra_tip: Option<usize>,
        ratings: &Vec<Option<i64>>,
        min_index: u32,
        cache: &mut Vec<bool>,
        rng: &mut StdRng,
    ) -> (tail: usize)
        requires
            dag.wf(),
            start < dag.n(),
            visited@.len() == dag.n(),
            diff@.len() == dag.balances@.len(),
            ratings@.len() == dag.n(),
            ratings_bounded(ratings@),
            old(cache)@.len() == dag.n(),
        ensures
            start <= tail < dag.n(),
            final(cache)@.len() == dag.n(),
            tail == start || acceptable_tail(dag, tail as int, min_index as int),
            dag.approvers(start as int).len() == 0 ==> tail == start,
            exists|p: Seq<int>|
                #[trigger] approver_chain(dag, p) && p.len() > 0 && p[0] == start && p.last() == tail,
            walk_result(
                dag,
                visited@,
                diff@,
                start as int,
                extra_tip,
                ratings@,
                min_index as int,
                old(cache)@,
                tail as int,
                final(cache)@,
            ),
    {
        let n = dag.txs.len();
        let ghost mut tip_path: Seq<int> = seq![start as int];
        let ghost mut tail_path: Seq<int> = seq![start as int];
        let mut my_visited = visited.clone();
        let mut my_diff = diff.clone();
        let mut tip = start;
        let mut tail = start;
        let mut done = false;
        let ghost mut p: Seq<int> = seq![start as int];
        let ghost mut vs: Seq<Seq<bool>> = seq![visited@];
        let ghost mut ds: Seq<Seq<i64>> = seq![diff@];
        let ghost mut cs: Seq<Seq<bool>> = seq![cache@];
        let ghost mi = min_index as int;
        while !done
            invariant
                dag.wf(),
                n == dag.n(),
                start <= tail <= tip < n,
                my_visited@.len() == n,
                my_diff@.len() == dag.balances@.len(),
                ratings@.len() == n,
                ratings_bounded(ratings@),
                cache@.len() == n,
                tail == start || acceptable_tail(dag, tail as int, min_index as int),
                tip == start || dag.approvers(start as int).len() > 0,
                tail == start || dag.approvers(start as int).len() > 0,
                approver_chain(dag, tip_path),
                tip_path.len() > 0 && tip_path[0] == start && tip_path.last() == tip,
                approver_chain(dag, tail_path),
                tail_path.len() > 0 && tail_path[0] == start && tail_path.last() == tail,
                mi == min_index as int,
                walk_trace(dag, ratings@, extra_tip, mi, p, vs, ds, cs),
                p[0] == start && vs[0] == visited@ && ds[0] == diff@ && cs[0] == old(cache)@,
                p.last() == tip,
                !done ==> vs.last() == my_visited@ && ds.last() == my_diff@ && cs.last() == cache@,
                !done ==> tail == if p.len() == 1 {
                    p[0]
                } else {
                    p[p.len() - 2]
                },
                done ==> walk_end(dag, extra_tip, mi, p, vs, ds, cs, tail as int, cache@),
            decreases n - tip + if done { 0int } else { 1int },
        {
            let tx = &dag.txs[tip];
            let ghost c0 = cache@;
            let ghost v0 = my_visited@;
            let ghost d0 = my_diff@;
            let ghost l = p.len() - 1;
            assert(dag.wf_tx(tip as int));
            if tx.kind == TxKind::HashOnly || !tx.solid {
                done = true;
            } else if !update_diff(dag, &mut my_visited, &mut my_diff, tip) {
                done = true;
            } else if below_max_depth(dag, tip, min_index, cache) {
                done = true;
            } else {
                proof {
                    lemma_not_below_without_cache(dag, tip as int, min_index as int, c0);
                    assert(hop_ok(dag, vs[l], ds[l], cs[l], mi, p[l]));
                }
                tail = tip;
                proof {
                    tail_path = tip_path;
                }
                if extra_tip == Some(tip) || tx.approvers.len() == 0 {
                    done = true;
                } else {
                    let next = if tx.approvers.len() == 1 {
                        assert(tx.approvers@.contains(tx.approvers@[0]));
                        tx.approvers[0]
                    } else {
                        proof {
                            assert forall|k: int| 0 <= k < tx.approvers@.len() implies #[trigger] tx.approvers@[k]
                                < ratings@.len() by {
                                assert(dag.approvers(tip as int)[k] == tx.approvers@[k]);
                            }
                        }
                        choose_approver(ratings, tip, &tx.approvers, rng)
                    };
                    proof {
                        let k = choose|k: int| 0 <= k < tx.approvers@.len() && tx.approvers@[k] == next;
                        assert(dag.approvers(tip as int)[k] == next);
                        assert(dag.approvers(tip as int).contains(next));
                        let q = tip_path.push(next as int);
                        assert(q[q.len() - 2] == tip);
                        assert(approver_chain(dag, q));
                        tip_path = q;
                        assert(next_hop(dag, ratings@, tip as int, next as int));
                        let p2 = p.push(next as int);
                        let vs2 = vs.push(my_visited@);
                        let ds2 = ds.push(my_diff@);
                        let cs2 = cs.push(cache@);
                        assert forall|i: int| 0 <= i < p2.len() - 1 implies {
                            &&& hop_ok(dag, vs2[i], ds2[i], cs2[i], mi, #[trigger] p2[i])
                            &&& extra_tip != Some(p2[i] as usize)
                            &&& next_hop(dag, ratings@, p2[i], p2[i + 1])
                            &&& vs2[i + 1] == visited_after(dag, vs2[i], p2[i])
                            &&& ds2[i + 1] == diff_after(dag, vs2[i], ds2[i], p2[i])
                            &&& cs2[i + 1] == cache_after_check(dag, cs2[i], p2[i], mi)
                        } by {
                            if i < l {
                                assert(p2[i] == p[i] && p2[i + 1] == p[i + 1]);
                                assert(vs2[i] == vs[i] && vs2[i + 1] == vs[i + 1]);
                                assert(ds2[i] == ds[i] && ds2[i + 1] == ds[i + 1]);
                                assert(cs2[i] == cs[i] && cs2[i + 1] == cs[i + 1]);
                            }
                        }
                        assert(walk_trace(dag, ratings@, extra_tip, mi, p2, vs2, ds2, cs2));
                        p = p2;
                        vs = vs2;
                        ds = ds2;
                        cs = cs2;
                    }
                    tip = next;
                }
            }
        }
        assert(walk_trace(dag, ratings@, extra_tip, mi, p, vs, ds, cs));
        assert(walk_end(dag, extra_tip, mi, p, vs, ds, cs, tail as int, cache@));
        assert(approver_chain(dag, tail_path));
        tail
    }
}

} // verus!
