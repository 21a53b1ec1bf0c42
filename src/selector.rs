use vstd::prelude::*;

use rand::rngs::StdRng;
use rand::Rng;

use crate::dag::Dag;
use crate::ledger::{diff_after, diff_ok, update_diff, visited_after};
use crate::depth::no_cache;
use crate::rating::{rated_from, serial_update_ratings};
use crate::dag::reached_from;
use crate::walk::{acceptable_tail, walk_result};

verus! {

/// Default bound on the depth a caller may ask for.
pub const MAX_DEPTH: u32 = 15;

/// Relies on rand's `Rng::gen::<bool>`: a fair coin; nothing is known of it.
#[verifier::external_body]
fn coin(rng: &mut StdRng) -> (r: bool) {
    rng.gen::<bool>()
}

/// Why a selection could not run.
#[derive(Clone, Copy, Debug, PartialEq, Eq, Structural)]
pub enum SelectionError {
    /// The store breaks its invariant, e.g. through a cycle of references.
    IntegrityError,
    /// The entry point lies outside the store.
    ReferenceInvalid,
}

/// What the milestone tracker reports, read once per selection.
#[derive(Clone, Copy, Debug)]
pub struct MilestoneState {
    pub latest_index: u32,
    pub latest_solid_index: u32,
    pub latest_solid_hash: usize,
}

/// `a - b`, or 0 where `b` exceeds `a`.
pub open spec fn sat_sub(a: int, b: int) -> int {
    if a > b {
        a - b
    } else {
        0
    }
}

/// Slot `k` holds the milestone with the smallest index `>= lo`, and no
/// earlier slot holds one with that index.
pub open spec fn is_first_closest(dag: &Dag, lo: int, k: int) -> bool {
    let ms = dag.milestones@;
    &&& 0 <= k < ms.len()
    &&& ms[k].index >= lo
    &&& forall|j: int| 0 <= j < k ==> (#[trigger] ms[j]).index < lo || ms[j].index > ms[k].index
    &&& forall|j: int| k < j < ms.len() ==> (#[trigger] ms[j]).index < lo || ms[j].index >= ms[k].index
}

proof fn lemma_first_closest_unique(dag: &Dag, lo: int, k1: int, k2: int)
    requires
        is_first_closest(dag, lo, k1),
        is_first_closest(dag, lo, k2),
    ensures
        k1 == k2,
{
    let ms = dag.milestones@;
    if k1 < k2 {
        assert(ms[k1].index < lo || ms[k1].index > ms[k2].index);
        assert(ms[k2].index < lo || ms[k2].index >= ms[k1].index);
    } else if k2 < k1 {
        assert(ms[k2].index < lo || ms[k2].index > ms[k1].index);
        assert(ms[k1].index < lo || ms[k1].index >= ms[k2].index);
    }
}

/// `is_first_closest` among the slots below `i`.
pub open spec fn closest_upto(dag: &Dag, lo: int, k: int, i: int) -> bool {
    let ms = dag.milestones@;
    &&& 0 <= k < i
    &&& ms[k].index >= lo
    &&& forall|j: int| 0 <= j < k ==> (#[trigger] ms[j]).index < lo || ms[j].index > ms[k].index
    &&& forall|j: int| k < j < i ==> (#[trigger] ms[j]).index < lo || ms[j].index >= ms[k].index
}

/// The milestone transaction with the smallest index `>= min_index`.
pub fn find_closest_next_milestone(dag: &Dag, min_index: u32) -> (r: Option<usize>)
    ensures
        match r {
            Some(k) => is_first_closest(dag, min_index as int, k as int),
            None => forall|j: int| 0 <= j < dag.milestones@.len() ==> (#[trigger] dag.milestones@[j]).index < min_index,
        },
{
    let ghost lo = min_index as int;
    let mut best: Option<usize> = None;
    let mut i: usize = 0;
    while i < dag.milestones.len()
        invariant
            i <= dag.milestones@.len(),
            lo == min_index as int,
            best is Some ==> closest_upto(dag, lo, best->0 as int, i as int),
            best is None ==> forall|j: int| 0 <= j < i ==> (#[trigger] dag.milestones@[j]).index < lo,
        decreases dag.milestones@.len() - i,
    {
        let idx = dag.milestones[i].index;
        if idx >= min_index {
            match best {
                None => {
                    best = Some(i);
                },
                Some(k) => {
                    if idx < dag.milestones[k].index {
                        best = Some(i);
                    }
                },
            }
        }
        i = i + 1;
    }
    best
}

/// Where the walks of a selection start.
pub open spec fn entry_spec(
    dag: &Dag,
    ms: MilestoneState,
    reference: Option<usize>,
    extra_tip: Option<usize>,
    depth: int,
) -> int {
    let lo = sat_sub(ms.latest_solid_index as int, depth + 1);
    match extra_tip {
        None => match reference {
            Some(r) => r as int,
            None => ms.latest_solid_hash as int,
        },
        Some(_) => if exists|k: int| is_first_closest(dag, lo, k) {
            dag.milestones@[choose|k: int| is_first_closest(dag, lo, k)].tx as int
        } else {
            ms.latest_solid_hash as int
        },
    }
}

/// The tail with the highest count; ties are settled by a fair coin.
/// `None` when every count is zero.
pub fn plurality(counts: &Vec<u64>, rng: &mut StdRng) -> (r: Option<usize>)
    ensures
        r is None <==> forall|j: int| 0 <= j < counts@.len() ==> #[trigger] counts@[j] == 0,
        r is Some ==> r->0 < counts@.len() && counts@[r->0 as int] > 0,
        r is Some ==> forall|j: int| 0 <= j < counts@.len() ==> #[trigger] counts@[j] <= counts@[r->0 as int],
{
    let mut best: usize = 0;
    let mut best_count: u64 = 0;
    let mut i: usize = 0;
    while i < counts.len()
        invariant
            i <= counts@.len(),
            best_count == 0 || (best < i && counts@[best as int] == best_count),
            forall|j: int| 0 <= j < i ==> #[trigger] counts@[j] <= best_count,
        decreases counts@.len() - i,
    {
        let c = counts[i];
        if c > best_count {
            best = i;
            best_count = c;
        } else if c == best_count && c > 0 && coin(rng) {
            best = i;
        }
        i = i + 1;
    }
    if best_count == 0 {
        None
    } else {
        assert(counts@[best as int] > 0);
        Some(best)
    }
}

/// How often `u` occurs in `s`.
pub open spec fn count(s: Seq<int>, u: int) -> nat
    decreases s.len(),
{
    if s.len() == 0 {
        0
    } else {
        count(s.drop_last(), u) + if s.last() == u {
            1nat
        } else {
            0nat
        }
    }
}

/// `tails[i]` is the outcome of walk `i` from `tip`, each walk starting from
/// the depth cache the previous one left.
pub open spec fn walks_run(
    dag: &Dag,
    visited: Seq<bool>,
    diff: Seq<i64>,
    tip: int,
    extra_tip: Option<usize>,
    r: Seq<Option<i64>>,
    min_index: int,
    tails: Seq<int>,
    caches: Seq<Seq<bool>>,
) -> bool {
    &&& caches.len() == tails.len() + 1
    &&& forall|i: int| 0 <= i < tails.len() ==> 0 <= #[trigger] tails[i] < dag.n()
    &&& forall|i: int|
        0 <= i < tails.len() ==> walk_result(
            dag,
            visited,
            diff,
            tip,
            extra_tip,
            r,
            min_index,
            caches[i],
            #[trigger] tails[i],
            caches[i + 1],
        )
}

/// `t` occurs in `tails` at least as often as any other value, and at least once.
pub open spec fn is_plurality(tails: Seq<int>, t: int) -> bool {
    &&& count(tails, t) >= 1
    &&& forall|u: int| #[trigger] count(tails, u) <= count(tails, t)
}

proof fn lemma_count_push(s: Seq<int>, t: int, u: int)
    ensures
        count(s.push(t), u) == count(s, u) + if t == u {
            1nat
        } else {
            0nat
        },
{
    assert(s.push(t).drop_last() =~= s);
}

proof fn lemma_count_outside(s: Seq<int>, n: int, u: int)
    requires
        forall|i: int| 0 <= i < s.len() ==> 0 <= #[trigger] s[i] < n,
        u < 0 || u >= n,
    ensures
        count(s, u) == 0,
    decreases s.len(),
{
    if s.len() > 0 {
        assert(s.drop_last().len() == s.len() - 1);
        assert forall|i: int| 0 <= i < s.drop_last().len() implies 0 <= #[trigger] s.drop_last()[i] < n by {
            assert(s.drop_last()[i] == s[i]);
        }
        lemma_count_outside(s.drop_last(), n, u);
        assert(s.last() == s[s.len() - 1]);
    }
}

/// Tip selection: configuration of one participant.
#[derive(Clone, Copy, Debug)]
pub struct TipsManager {
    pub max_depth: u32,
    pub milestone_start_index: u32,
    pub testnet: bool,
}

impl TipsManager {
    pub fn new(max_depth: u32, testnet: bool, milestone_start_index: u32) -> (t: Self)
        ensures
            t.max_depth == max_depth,
            t.testnet == testnet,
            t.milestone_start_index == milestone_start_index,
    {
        TipsManager { max_depth, milestone_start_index, testnet }
    }

    /// Runs `iterations` walks from `tip` and returns the most frequent tail.
    pub fn markov_chain_monte_carlo(
        &self,
        dag: &Dag,
        visited: &Vec<bool>,
        diff: &Vec<i64>,
        tip: usize,
        extra_tip: Option<usize>,
        ratings: &Vec<Option<i64>>,
        iterations: u32,
        min_index: u32,
        cache: &mut Vec<bool>,
        rng: &mut StdRng,
    ) -> (r: Option<usize>)
        requires
            dag.wf(),
            tip < dag.n(),
            visited@.len() == dag.n(),
            diff@.len() == dag.balances@.len(),
            ratings@.len() == dag.n(),
            crate::rating::ratings_bounded(ratings@),
            old(cache)@.len() == dag.n(),
        ensures
            r is None <==> iterations == 0,
            r is Some ==> tip <= r->0 < dag.n(),
            r is Some ==> r->0 == tip || acceptable_tail(dag, r->0 as int, min_index as int),
            r is Some ==> reached_from(dag, tip as int, r->0 as int),
            exists|tails: Seq<int>, caches: Seq<Seq<bool>>|
                #[trigger] walks_run(
                    dag,
                    visited@,
                    diff@,
                    tip as int,
                    extra_tip,
                    ratings@,
                    min_index as int,
                    tails,
                    caches,
                ) && tails.len() == iterations && caches[0] == old(cache)@ && caches.last()
                    == final(cache)@ && (r is Some ==> is_plurality(tails, r->0 as int)),
    {
        let n = dag.txs.len();
        let ghost mut tails: Seq<int> = Seq::empty();
        let ghost mut caches: Seq<Seq<bool>> = seq![cache@];
        let ghost mi = min_index as int;
        let mut counts: Vec<u64> = Vec::new();
        let mut j: usize = 0;
        while j < n
            invariant
                j <= n,
                counts@.len() == j,
                forall|x: int| 0 <= x < j ==> #[trigger] counts@[x] == 0,
            decreases n - j,
        {
            counts.push(0);
            j = j + 1;
        }
        let mut it: u32 = 0;
        while it < iterations
            invariant
                dag.wf(),
                n == dag.n(),
                tip < n,
                visited@.len() == n,
                diff@.len() == dag.balances@.len(),
                ratings@.len() == n,
                crate::rating::ratings_bounded(ratings@),
                cache@.len() == n,
                it <= iterations,
                counts@.len() == n,
                forall|x: int| 0 <= x < n ==> #[trigger] counts@[x] <= it,
                forall|x: int|
                    0 <= x < n && #[trigger] counts@[x] > 0 ==> tip <= x && (x == tip || acceptable_tail(
                        dag,
                        x,
                        min_index as int,
                    )),
                forall|x: int| 0 <= x < n && #[trigger] counts@[x] > 0 ==> reached_from(dag, tip as int, x),
                it > 0 ==> exists|x: int| 0 <= x < n && #[trigger] counts@[x] > 0,
                mi == min_index as int,
                walks_run(dag, visited@, diff@, tip as int, extra_tip, ratings@, mi, tails, caches),
                tails.len() == it,
                caches[0] == old(cache)@,
                caches.last() == cache@,
                forall|x: int| 0 <= x < n ==> #[trigger] counts@[x] == count(tails, x),
            decreases iterations - it,
        {
            let ghost c0 = cache@;
            let t = self.random_walk(dag, visited, diff, tip, extra_tip, ratings, min_index, cache, rng);
            let c = counts[t];
            counts.set(t, c + 1);
            assert(counts@[t as int] > 0);
            proof {
                let t2 = tails.push(t as int);
                let c2 = caches.push(cache@);
                assert forall|x: int| 0 <= x < n implies #[trigger] counts@[x] == count(t2, x) by {
                    lemma_count_push(tails, t as int, x);
                }
                assert forall|i: int| 0 <= i < t2.len() implies walk_result(
                    dag,
                    visited@,
                    diff@,
                    tip as int,
                    extra_tip,
                    ratings@,
                    mi,
                    c2[i],
                    #[trigger] t2[i],
                    c2[i + 1],
                ) by {
                    if i < tails.len() {
                        assert(t2[i] == tails[i] && c2[i] == caches[i] && c2[i + 1] == caches[i + 1]);
                    } else {
                        assert(c2[i] == c0);
                    }
                }
                assert forall|i: int| 0 <= i < t2.len() implies 0 <= #[trigger] t2[i] < dag.n() by {
                    if i < tails.len() {
                        assert(t2[i] == tails[i]);
                    }
                }
                tails = t2;
                caches = c2;
            }
            it = it + 1;
        }
        let r = plurality(&counts, rng);
        proof {
            if it > 0 {
                let x = choose|x: int| 0 <= x < n && #[trigger] counts@[x] > 0;
                assert(counts@[x] != 0);
            }
            if r is Some {
                let b = r->0 as int;
                assert(counts@[b] as int == count(tails, b));
                assert forall|u: int| #[trigger] count(tails, u) <= count(tails, b) by {
                    if 0 <= u < n {
                        assert(counts@[u] <= counts@[b]);
                    } else {
                        lemma_count_outside(tails, n as int, u);
                    }
                }
            }
        }
        r
    }

    /// The node has caught up with the milestones.
    pub open spec fn synced(&self, ms: MilestoneState) -> bool {
        ms.latest_solid_index > self.milestone_start_index || ms.latest_index
            == self.milestone_start_index
    }

    pub open spec fn clamped_depth(&self, depth: u32) -> int {
        if depth > self.max_depth {
            self.max_depth as int
        } else {
            depth as int
        }
    }

    /// Milestone index below which a candidate counts as too deep.
    pub open spec fn min_index_spec(&self, ms: MilestoneState, depth: u32) -> int {
        sat_sub(ms.latest_solid_index as int, 2 * self.clamped_depth(depth))
    }

    /// Where the walks start: the reference, or the latest solid milestone,
    /// or, for a second tip, the closest milestone within `depth`.
    pub fn entry_point(
        &self,
        dag: &Dag,
        ms: MilestoneState,
        reference: Option<usize>,
        extra_tip: Option<usize>,
        depth: u32,
    ) -> (e: usize)
        ensures
            e as int == entry_spec(dag, ms, reference, extra_tip, depth as int),
    {
        match extra_tip {
            None => match reference {
                Some(r) => r,
                None => ms.latest_solid_hash,
            },
            Some(_) => {
                let lo: u32 = if ms.latest_solid_index as u64 > depth as u64 + 1 {
                    ((ms.latest_solid_index as u64) - (depth as u64 + 1)) as u32
                } else {
                    0
                };
                assert(lo as int == sat_sub(ms.latest_solid_index as int, depth as int + 1));
                match find_closest_next_milestone(dag, lo) {
                    Some(k) => {
                        proof {
                            let c = choose|k: int| is_first_closest(dag, lo as int, k);
                            lemma_first_closest_unique(dag, lo as int, k as int, c);
                        }
                        let t = dag.milestones[k].tx;
                        assert(exists|k: int| is_first_closest(dag, lo as int, k));
                        t
                    },
                    None => {
                        proof {
                            if exists|k: int| is_first_closest(dag, lo as int, k) {
                                let c = choose|k: int| is_first_closest(dag, lo as int, k);
                                assert(dag.milestones@[c].index < lo);
                            }
                        }
                        ms.latest_solid_hash
                    },
                }
            },
        }
    }

    /// Selects a tip for a new transaction to approve; on success the entry
    /// point and its ancestors are folded into `visited` and `diff`.
    ///
    /// A store that breaks its invariant is an integrity error and an entry
    /// point outside the store an invalid reference; a node that has not
    /// caught up, or an entry point whose ledger does not balance, yields
    /// `Ok(None)`.
    pub fn transaction_to_approve(
        &self,
        dag: &Dag,
        ms: MilestoneState,
        visited: &mut Vec<bool>,
        diff: &mut Vec<i64>,
        reference: Option<usize>,
        extra_tip: Option<usize>,
        depth: u32,
        iterations: u32,
        rng: &mut StdRng,
    ) -> (r: Result<Option<usize>, SelectionError>)
        requires
            old(visited)@.len() == dag.n(),
            old(diff)@.len() == dag.balances@.len(),
        ensures
            !dag.wf() ==> r == Err::<Option<usize>, SelectionError>(SelectionError::IntegrityError),
            ({
                let e = entry_spec(dag, ms, reference, extra_tip, self.clamped_depth(depth));
                let valid = dag.wf() && self.synced(ms) && 0 <= e < dag.n();
                let proceeds = valid && diff_ok(dag, old(visited)@, old(diff)@, e);
                let min_index = self.min_index_spec(ms, depth);
                &&& dag.wf() && !self.synced(ms) ==> r == Ok::<Option<usize>, SelectionError>(None)
                &&& dag.wf() && self.synced(ms) && !(0 <= e < dag.n()) ==> r == Err::<
                    Option<usize>,
                    SelectionError,
                >(SelectionError::ReferenceInvalid)
                &&& valid ==> r is Ok
                &&& (r matches Ok(Some(_))) <==> proceeds && iterations > 0
                &&& proceeds ==> final(visited)@ == visited_after(dag, old(visited)@, e)
                    && final(diff)@ == diff_after(dag, old(visited)@, old(diff)@, e)
                &&& !proceeds ==> final(visited)@ == old(visited)@ && final(diff)@ == old(diff)@
                &&& forall|t: usize|
                    r == Ok::<Option<usize>, SelectionError>(Some(t)) ==> {
                        &&& reached_from(dag, e, t as int)
                        &&& e <= t < dag.n()
                        &&& (t == e || acceptable_tail(dag, t as int, min_index))
                        &&& exists|rs: Seq<Option<i64>>, tails: Seq<int>, caches: Seq<Seq<bool>>|
                            #[trigger] walks_run(
                                dag,
                                visited_after(dag, old(visited)@, e),
                                diff_after(dag, old(visited)@, old(diff)@, e),
                                e,
                                extra_tip,
                                rs,
                                min_index,
                                tails,
                                caches,
                            ) && rated_from(dag, old(visited)@, extra_tip is None, e, rs)
                                && tails.len() == iterations && caches[0] == no_cache(dag.n())
                                && is_plurality(tails, t as int)
                    }
            }),
    {
        if !dag.is_wf() {
            return Err(SelectionError::IntegrityError);
        }
        let d: u32 = if depth > self.max_depth {
            self.max_depth
        } else {
            depth
        };
        if !(ms.latest_solid_index > self.milestone_start_index || ms.latest_index
            == self.milestone_start_index) {
            return Ok(None);
        }
        let e = self.entry_point(dag, ms, reference, extra_tip, d);
        let n = dag.txs.len();
        if e >= n {
            return Err(SelectionError::ReferenceInvalid);
        }
        let ghost v0 = visited@;
        let ratings = serial_update_ratings(dag, visited, e, extra_tip.is_none());
        if !update_diff(dag, visited, diff, e) {
            return Ok(None);
        }
        let min_index: u32 = if ms.latest_solid_index as u64 > 2 * (d as u64) {
            ((ms.latest_solid_index as u64) - 2 * (d as u64)) as u32
        } else {
            0
        };
        let mut cache: Vec<bool> = Vec::new();
        let mut j: usize = 0;
        while j < n
            invariant
                j <= n,
                cache@.len() == j,
                forall|x: int| 0 <= x < j ==> !#[trigger] cache@[x],
            decreases n - j,
        {
            cache.push(false);
            j = j + 1;
        }
        assert(cache@ =~= no_cache(n as int));
        let res = self.markov_chain_monte_carlo(
            dag,
            visited,
            diff,
            e,
            extra_tip,
            &ratings,
            iterations,
            min_index,
            &mut cache,
            rng,
        );
        proof {
            if res is Some {
                let t = res->0;
                let (tails, caches) = choose|tails: Seq<int>, caches: Seq<Seq<bool>>|
                    #[trigger] walks_run(dag, visited@, diff@, e as int, extra_tip, ratings@, min_index as int, tails, caches)
                        && tails.len() == iterations && caches[0] == no_cache(n as int)
                        && (res is Some ==> is_plurality(tails, res->0 as int));
                assert(walks_run(dag, visited@, diff@, e as int, extra_tip, ratings@, min_index as int, tails, caches));
                assert(rated_from(dag, v0, extra_tip is None, e as int, ratings@));
            }
        }
        Ok(res)
    }
}

} // verus!
