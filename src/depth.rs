use vstd::prelude::*;

use crate::dag::Dag;

verus! {

/// Whether the backward search from `h` meets a transaction confirmed below
/// `min_index`, or an unconfirmed transaction already in `cache`.
pub open spec fn blocked(dag: &Dag, h: int, min_index: int, cache: Seq<bool>) -> bool
    decreases h,
{
    if h < 0 {
        false
    } else {
        let s = dag.snapshot(h);
        if 0 < s < min_index {
            true
        } else if s == 0 {
            cache[h] || (0 < h && ((0 <= dag.trunk(h) < h && blocked(dag, dag.trunk(h), min_index, cache))
                || (0 <= dag.branch(h) < h && blocked(dag, dag.branch(h), min_index, cache))))
        } else {
            false
        }
    }
}

/// `tip` lies below the allowed depth.
pub open spec fn below_spec(dag: &Dag, tip: int, min_index: int, cache: Seq<bool>) -> bool {
    dag.snapshot(tip) < min_index && blocked(dag, tip, min_index, cache)
}

pub open spec fn no_cache(n: int) -> Seq<bool> {
    Seq::new(n as nat, |i: int| false)
}

/// Decides whether `tip` lies below the allowed depth; a tip found to be
/// within it is recorded in `cache`.
pub fn below_max_depth(dag: &Dag, tip: usize, min_index: u32, cache: &mut Vec<bool>) -> (r: bool)
    requires
        dag.wf(),
        tip < dag.n(),
        old(cache)@.len() == dag.n(),
    ensures
        r == below_spec(dag, tip as int, min_index as int, old(cache)@),
        final(cache)@ == if !r && dag.snapshot(tip as int) < min_index {
            old(cache)@.update(tip as int, true)
        } else {
            old(cache)@
        },
{
    if dag.txs[tip].snapshot_index >= min_index {
        return false;
    }
    let ghost c = cache@;
    let n = dag.txs.len();
    let mut mark: Vec<bool> = Vec::new();
    let mut j: usize = 0;
    while j <= tip
        invariant
            j <= tip + 1,
            tip < n,
            mark@.len() == j,
            forall|h: int| 0 <= h < j ==> (#[trigger] mark@[h]) == (h == tip),
        decreases tip + 1 - j,
    {
        mark.push(j == tip);
        j = j + 1;
    }
    assert(mark@[tip as int]);
    let mut i: usize = tip + 1;
    while i > 0
        invariant
            dag.wf(),
            tip < dag.n(),
            cache@ == c,
            c == old(cache)@,
            dag.snapshot(tip as int) < min_index,
            c.len() == dag.n(),
            i <= tip + 1,
            mark@.len() == tip + 1,
            blocked(dag, tip as int, min_index as int, c) == exists|h: int|
                0 <= h < i && #[trigger] mark@[h] && blocked(dag, h, min_index as int, c),
        decreases i,
    {
        i = i - 1;
        if mark[i] {
            let tx = &dag.txs[i];
            let s = tx.snapshot_index;
            assert(dag.wf_tx(i as int));
            if 0 < s && s < min_index {
                assert(blocked(dag, i as int, min_index as int, c));
                assert(mark@[i as int]);
                return true;
            }
            if s == 0 {
                if cache[i] {
                    assert(blocked(dag, i as int, min_index as int, c));
                    assert(mark@[i as int]);
                    assert(exists|h: int|
                        0 <= h < i + 1 && #[trigger] mark@[h] && blocked(dag, h, min_index as int, c));
                    return true;
                }
                if i > 0 {
                    let ghost m0 = mark@;
                    mark.set(tx.trunk, true);
                    mark.set(tx.branch, true);
                    proof {
                        let t = tx.trunk as int;
                        let b = tx.branch as int;
                        let bi = blocked(dag, i as int, min_index as int, c);
                        assert(bi == (blocked(dag, t, min_index as int, c) || blocked(dag, b, min_index as int, c)));
                        if blocked(dag, tip as int, min_index as int, c) {
                            let w = choose|h: int|
                                0 <= h < i + 1 && #[trigger] m0[h] && blocked(dag, h, min_index as int, c);
                            if w == i {
                                if blocked(dag, t, min_index as int, c) {
                                    assert(mark@[t]);
                                } else {
                                    assert(mark@[b]);
                                }
                            } else {
                                assert(mark@[w]);
                            }
                        } else {
                            assert forall|h: int| 0 <= h < i && #[trigger] mark@[h] implies !blocked(dag, h, min_index as int, c) by {
                                if h != t && h != b {
                                    assert(m0[h]);
                                }
                            }
                        }
                    }
                } else {
                    assert(!blocked(dag, 0, min_index as int, c));
                }
            } else {
                assert(!blocked(dag, i as int, min_index as int, c));
            }
        }
    }
    cache.set(tip, true);
    false
}

/// A cache can only turn a search towards "below": what is blocked under a
/// smaller cache stays blocked under a larger one.
proof fn lemma_blocked_cache_monotone(dag: &Dag, h: int, min_index: int, c1: Seq<bool>, c2: Seq<bool>)
    requires
        c1.len() == c2.len(),
        forall|j: int| 0 <= j < c1.len() && #[trigger] c1[j] ==> c2[j],
        blocked(dag, h, min_index, c1),
        h < c1.len(),
    ensures
        blocked(dag, h, min_index, c2),
    decreases h,
{
    if h >= 0 && dag.snapshot(h) == 0 && !c1[h] {
        let t = dag.trunk(h);
        let b = dag.branch(h);
        if 0 <= t < h && blocked(dag, t, min_index, c1) {
            lemma_blocked_cache_monotone(dag, t, min_index, c1, c2);
        } else {
            lemma_blocked_cache_monotone(dag, b, min_index, c1, c2);
        }
    }
}

/// A tip judged within depth under any cache is also within depth when
/// judged with an empty cache.
pub proof fn lemma_not_below_without_cache(dag: &Dag, tip: int, min_index: int, cache: Seq<bool>)
    requires
        0 <= tip < dag.n(),
        cache.len() == dag.n(),
        !below_spec(dag, tip, min_index, cache),
    ensures
        !below_spec(dag, tip, min_index, no_cache(dag.n())),
{
    if below_spec(dag, tip, min_index, no_cache(dag.n())) {
        lemma_blocked_cache_monotone(dag, tip, min_index, no_cache(dag.n()), cache);
    }
}

} // verus!
