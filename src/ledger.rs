use vstd::prelude::*;

use crate::dag::Dag;

verus! {

/// `p` walks from `h` down trunk/branch references through unvisited
/// transactions.
pub open spec fn is_path(dag: &Dag, vis: Seq<bool>, h: int, p: Seq<int>) -> bool {
    &&& p.len() > 0
    &&& p[0] == h
    &&& forall|j: int| 0 <= j < p.len() ==> 0 <= #[trigger] p[j] <= h && !vis[p[j]]
    &&& forall|j: int| 0 <= j < p.len() - 1 ==> dag.references(#[trigger] p[j], p[j + 1])
}

/// `i` is `h` or one of its ancestors, reached through unvisited
/// transactions only, and is itself unvisited.
pub open spec fn needed(dag: &Dag, vis: Seq<bool>, h: int, i: int) -> bool {
    exists|p: Seq<int>| #[trigger] is_path(dag, vis, h, p) && p.last() == i
}

proof fn lemma_path_extend(dag: &Dag, vis: Seq<bool>, h: int, k: int, i: int)
    requires
        needed(dag, vis, h, k),
        dag.references(k, i),
        0 <= i <= h,
        !vis[i],
    ensures
        needed(dag, vis, h, i),
{
    let p = choose|p: Seq<int>| #[trigger] is_path(dag, vis, h, p) && p.last() == k;
    let q = p.push(i);
    assert(q[q.len() - 2] == k);
    assert(is_path(dag, vis, h, q));
}

proof fn lemma_path_back(dag: &Dag, vis: Seq<bool>, h: int, i: int)
    requires
        dag.wf(),
        h < dag.n(),
        needed(dag, vis, h, i),
        i != h,
    ensures
        !vis[i],
        0 <= i < h,
        exists|k: int| i < k <= h && #[trigger] needed(dag, vis, h, k) && dag.references(k, i),
{
    let p = choose|p: Seq<int>| #[trigger] is_path(dag, vis, h, p) && p.last() == i;
    let k = p[p.len() - 2];
    let q = p.drop_last();
    assert(is_path(dag, vis, h, q));
    assert(q.last() == k);
    assert(dag.references(p[p.len() - 2], p[p.len() - 1]));
    assert(0 <= k <= h);
    assert(dag.wf_tx(k));
    assert(needed(dag, vis, h, k));
}

/// Sum of the values that the needed transactions below `k` move on `a`.
pub open spec fn spent(dag: &Dag, vis: Seq<bool>, h: int, a: int, k: int) -> int
    decreases k,
{
    if k <= 0 {
        0
    } else {
        spent(dag, vis, h, a, k - 1) + if needed(dag, vis, h, k - 1) && dag.address(k - 1) == a {
            dag.value(k - 1)
        } else {
            0
        }
    }
}

/// Delta of `a` once `h` and its unvisited ancestors are folded in.
pub open spec fn delta_after(dag: &Dag, vis: Seq<bool>, diff: Seq<i64>, h: int, a: int) -> int {
    diff[a] + spent(dag, vis, h, a, h + 1)
}

/// Folding `h` in keeps every balance non-negative and representable, and
/// every transaction folded in is solid.
pub open spec fn diff_ok(dag: &Dag, vis: Seq<bool>, diff: Seq<i64>, h: int) -> bool {
    &&& forall|i: int| 0 <= i <= h && #[trigger] needed(dag, vis, h, i) ==> dag.txs@[i].solid
    &&& forall|a: int|
        0 <= a < diff.len() ==> {
            let d = #[trigger] delta_after(dag, vis, diff, h, a);
            &&& i64::MIN <= d <= i64::MAX
            &&& dag.balances@[a] + d >= 0
        }
}

pub open spec fn visited_after(dag: &Dag, vis: Seq<bool>, h: int) -> Seq<bool> {
    Seq::new(vis.len(), |i: int| vis[i] || needed(dag, vis, h, i))
}

pub open spec fn diff_after(dag: &Dag, vis: Seq<bool>, diff: Seq<i64>, h: int) -> Seq<i64> {
    Seq::new(diff.len(), |a: int| delta_after(dag, vis, diff, h, a) as i64)
}

/// Marks `h` and its unvisited ancestors.
fn needed_marks(dag: &Dag, visited: &Vec<bool>, h: usize) -> (m: Vec<bool>)
    requires
        dag.wf(),
        h < dag.n(),
        visited@.len() == dag.n(),
    ensures
        m@.len() == dag.n(),
        forall|i: int| 0 <= i < dag.n() ==> #[trigger] m@[i] == needed(dag, visited@, h as int, i),
{
    let n = dag.txs.len();
    let ghost vis = visited@;
    let mut mark: Vec<bool> = Vec::new();
    let mut j: usize = 0;
    while j < n
        invariant
            j <= n,
            h < n,
            n == dag.n(),
            vis == visited@,
            vis.len() == n,
            mark@.len() == j,
            forall|x: int| 0 <= x < j ==> (#[trigger] mark@[x]) == (x == h && !vis[h as int]),
        decreases n - j,
    {
        mark.push(j == h && !visited[h]);
        j = j + 1;
    }
    let mut i: usize = h + 1;
    while i > 0
        invariant
            dag.wf(),
            n == dag.n(),
            h < n,
            vis == visited@,
            vis.len() == n,
            i <= h + 1,
            mark@.len() == n,
            forall|x: int| i <= x < n ==> (#[trigger] mark@[x]) == needed(dag, vis, h as int, x),
            forall|x: int|
                0 <= x < i ==> (#[trigger] mark@[x]) == ((x == h && !vis[h as int]) || (!vis[x]
                    && exists|k: int|
                    i <= k <= h && #[trigger] needed(dag, vis, h as int, k) && dag.references(k, x))),
        decreases i,
    {
        i = i - 1;
        proof {
            let ii = i as int;
            let hh = h as int;
            if ii == hh {
                if !vis[hh] {
                    let p = seq![hh];
                    assert(is_path(dag, vis, hh, p));
                }
                if needed(dag, vis, hh, hh) {
                    let p = choose|p: Seq<int>| #[trigger] is_path(dag, vis, hh, p) && p.last() == hh;
                    assert(p[0] == hh);
                }
            } else {
                if needed(dag, vis, hh, ii) {
                    lemma_path_back(dag, vis, hh, ii);
                    let k = choose|k: int| ii < k <= hh && #[trigger] needed(dag, vis, hh, k) && dag.references(k, ii);
                    assert(ii + 1 <= k <= hh);
                    assert(mark@[ii]);
                }
                if mark@[ii] {
                    let k = choose|k: int| ii + 1 <= k <= hh && #[trigger] needed(dag, vis, hh, k) && dag.references(k, ii);
                    lemma_path_extend(dag, vis, hh, k, ii);
                }
            }
        }
        assert(mark@[i as int] == needed(dag, vis, h as int, i as int));
        let ghost m0 = mark@;
        if mark[i] && i > 0 {
            let tx = &dag.txs[i];
            assert(dag.wf_tx(i as int));
            if !visited[tx.trunk] {
                mark.set(tx.trunk, true);
            }
            if !visited[tx.branch] {
                mark.set(tx.branch, true);
            }
        }
        proof {
            assert forall|x: int| 0 <= x < i implies (#[trigger] mark@[x]) == ((x == h && !vis[h as int])
                || (!vis[x] && exists|k: int|
                i <= k <= h && #[trigger] needed(dag, vis, h as int, k) && dag.references(k, x))) by {
                assert(x != h);
                let here = needed(dag, vis, h as int, i as int) && dag.references(i as int, x);
                if exists|k: int|
                    i + 1 <= k <= h && #[trigger] needed(dag, vis, h as int, k) && dag.references(k, x) {
                    let k = choose|k: int|
                        i + 1 <= k <= h && #[trigger] needed(dag, vis, h as int, k) && dag.references(k, x);
                    assert(i <= k <= h);
                }
                if !vis[x] && here {
                    assert(mark@[x]);
                }
                if !vis[x] && exists|k: int|
                    i <= k <= h && #[trigger] needed(dag, vis, h as int, k) && dag.references(k, x) {
                    let k = choose|k: int|
                        i <= k <= h && #[trigger] needed(dag, vis, h as int, k) && dag.references(k, x);
                    if k > i {
                        assert(m0[x]);
                    }
                }
            }
            assert forall|x: int| i <= x < n implies (#[trigger] mark@[x]) == needed(dag, vis, h as int, x) by {
                if x == i {
                    assert(mark@[x] == m0[x]);
                }
            }
        }
    }
    mark
}

proof fn lemma_spent_bounds(dag: &Dag, vis: Seq<bool>, h: int, a: int, k: int)
    requires
        0 <= k <= dag.n(),
    ensures
        -0x8000_0000_0000_0000 * k <= spent(dag, vis, h, a, k) <= 0x7fff_ffff_ffff_ffff * k,
    decreases k,
{
    if k > 0 {
        lemma_spent_bounds(dag, vis, h, a, k - 1);
    }
}

/// For each address, its delta plus what the marked transactions move on it.
fn accumulate(dag: &Dag, visited: &Vec<bool>, marks: &Vec<bool>, diff: &Vec<i64>, h: usize) -> (acc:
    Vec<i128>)
    requires
        dag.wf(),
        h < dag.n(),
        marks@.len() == dag.n(),
        forall|i: int| 0 <= i < dag.n() ==> #[trigger] marks@[i] == needed(dag, visited@, h as int, i),
        diff@.len() == dag.balances@.len(),
    ensures
        acc@.len() == diff@.len(),
        forall|a: int|
            0 <= a < diff@.len() ==> #[trigger] acc@[a] as int == delta_after(dag, visited@, diff@, h as int, a),
{
    let ghost vis = visited@;
    let mut acc: Vec<i128> = Vec::new();
    let mut a: usize = 0;
    while a < diff.len()
        invariant
            a <= diff@.len(),
            acc@.len() == a,
            forall|x: int| 0 <= x < a ==> #[trigger] acc@[x] as int == diff@[x] as int,
        decreases diff@.len() - a,
    {
        acc.push(diff[a] as i128);
        a = a + 1;
    }
    let n = dag.txs.len();
    let mut i: usize = 0;
    while i <= h
        invariant
            dag.wf(),
            n == dag.n(),
            h < n,
            i <= h + 1,
            vis == visited@,
            marks@.len() == n,
            forall|x: int| 0 <= x < n ==> #[trigger] marks@[x] == needed(dag, vis, h as int, x),
            diff@.len() == dag.balances@.len(),
            acc@.len() == diff@.len(),
            forall|x: int|
                0 <= x < diff@.len() ==> #[trigger] acc@[x] as int == diff@[x] + spent(dag, vis, h as int, x, i as int),
        decreases h + 1 - i,
    {
        if marks[i] {
            let tx = &dag.txs[i];
            assert(dag.wf_tx(i as int));
            let ad = tx.address;
            proof {
                lemma_spent_bounds(dag, vis, h as int, ad as int, i as int);
            }
            let cur = acc[ad];
            acc.set(ad, cur + tx.value as i128);
        }
        i = i + 1;
    }
    acc
}

/// Folds `h` and its unvisited ancestors into `visited` and `diff`, all or
/// nothing: on success every balance stays non-negative.
pub fn update_diff(dag: &Dag, visited: &mut Vec<bool>, diff: &mut Vec<i64>, h: usize) -> (r: bool)
    requires
        dag.wf(),
        h < dag.n(),
        old(visited)@.len() == dag.n(),
        old(diff)@.len() == dag.balances@.len(),
    ensures
        r == diff_ok(dag, old(visited)@, old(diff)@, h as int),
        r ==> final(visited)@ == visited_after(dag, old(visited)@, h as int),
        r ==> final(diff)@ == diff_after(dag, old(visited)@, old(diff)@, h as int),
        !r ==> final(visited)@ == old(visited)@,
        !r ==> final(diff)@ == old(diff)@,
{
    let ghost vis = visited@;
    let n = dag.txs.len();
    let marks = needed_marks(dag, visited, h);
    let mut i: usize = 0;
    while i < n
        invariant
            n == dag.n(),
            vis == visited@,
            h < n,
            marks@.len() == n,
            forall|x: int| 0 <= x < n ==> #[trigger] marks@[x] == needed(dag, vis, h as int, x),
            i <= n,
            forall|x: int| 0 <= x < i && #[trigger] needed(dag, vis, h as int, x) ==> dag.txs@[x].solid,
        decreases n - i,
    {
        if marks[i] && !dag.txs[i].solid {
            return false;
        }
        i = i + 1;
    }
    let acc = accumulate(dag, visited, &marks, diff, h);
    let mut a: usize = 0;
    while a < acc.len()
        invariant
            acc@.len() == diff@.len(),
            diff@.len() == dag.balances@.len(),
            a <= acc@.len(),
            vis == visited@,
            forall|x: int|
                0 <= x < diff@.len() ==> #[trigger] acc@[x] as int == delta_after(dag, vis, diff@, h as int, x),
            forall|x: int|
                0 <= x < a ==> {
                    let d = #[trigger] acc@[x] as int;
                    &&& i64::MIN <= d <= i64::MAX
                    &&& dag.balances@[x] + d >= 0
                },
        decreases acc@.len() - a,
    {
        let d = acc[a];
        if d < i64::MIN as i128 || d > i64::MAX as i128 || (dag.balances[a] as i128) + d < 0 {
            assert(acc@[a as int] as int == delta_after(dag, vis, diff@, h as int, a as int));
            return false;
        }
        a = a + 1;
    }
    assert forall|x: int| 0 <= x < diff@.len() implies {
        let d = #[trigger] delta_after(dag, vis, diff@, h as int, x);
        &&& i64::MIN <= d <= i64::MAX
        &&& dag.balances@[x] + d >= 0
    } by {
        assert(acc@[x] as int == delta_after(dag, vis, diff@, h as int, x));
    }
    let ghost d0 = diff@;
    let mut a: usize = 0;
    while a < acc.len()
        invariant
            acc@.len() == d0.len(),
            diff@.len() == d0.len(),
            a <= acc@.len(),
            forall|x: int| 0 <= x < d0.len() ==> #[trigger] acc@[x] as int == delta_after(dag, vis, d0, h as int, x),
            forall|x: int| 0 <= x < d0.len() ==> i64::MIN <= #[trigger] delta_after(dag, vis, d0, h as int, x) <= i64::MAX,
            forall|x: int| 0 <= x < a ==> #[trigger] diff@[x] == delta_after(dag, vis, d0, h as int, x) as i64,
            forall|x: int| a <= x < d0.len() ==> #[trigger] diff@[x] == d0[x],
        decreases acc@.len() - a,
    {
        assert(i64::MIN <= delta_after(dag, vis, d0, h as int, a as int) <= i64::MAX);
        diff.set(a, acc[a] as i64);
        a = a + 1;
    }
    assert(diff@ =~= diff_after(dag, vis, d0, h as int));
    let mut i: usize = 0;
    while i < n
        invariant
            n == dag.n(),
            vis.len() == n,
            visited@.len() == n,
            marks@.len() == n,
            forall|x: int| 0 <= x < n ==> #[trigger] marks@[x] == needed(dag, vis, h as int, x),
            i <= n,
            forall|x: int| 0 <= x < i ==> #[trigger] visited@[x] == (vis[x] || needed(dag, vis, h as int, x)),
            forall|x: int| i <= x < n ==> #[trigger] visited@[x] == vis[x],
        decreases n - i,
    {
        if marks[i] {
            visited.set(i, true);
        }
        i = i + 1;
    }
    assert(visited@ =~= visited_after(dag, vis, h as int));
    true
}

/// On success every balance plus its delta is non-negative.
pub proof fn lemma_update_keeps_balances(dag: &Dag, vis: Seq<bool>, diff: Seq<i64>, h: int, a: int)
    requires
        diff_ok(dag, vis, diff, h),
        0 <= a < diff.len(),
    ensures
        dag.balances@[a] + diff_after(dag, vis, diff, h)[a] >= 0,
{
    assert(i64::MIN <= delta_after(dag, vis, diff, h, a) <= i64::MAX);
}

proof fn lemma_nothing_needed_after(dag: &Dag, vis: Seq<bool>, h: int, i: int)
    requires
        0 <= h < vis.len(),
    ensures
        !needed(dag, visited_after(dag, vis, h), h, i),
{
    let v2 = visited_after(dag, vis, h);
    if needed(dag, v2, h, i) {
        let p = choose|p: Seq<int>| #[trigger] is_path(dag, v2, h, p) && p.last() == i;
        assert forall|j: int| 0 <= j < p.len() implies 0 <= #[trigger] p[j] <= h && !vis[p[j]] by {
            assert(!v2[p[j]]);
        }
        assert(is_path(dag, vis, h, p));
        assert(p[p.len() - 1] == i);
        assert(!v2[i]);
    }
}

proof fn lemma_spent_nothing(dag: &Dag, vis: Seq<bool>, h: int, a: int, k: int)
    requires
        0 <= h < vis.len(),
        k <= vis.len(),
    ensures
        spent(dag, visited_after(dag, vis, h), h, a, k) == 0,
    decreases k,
{
    if k > 0 {
        lemma_spent_nothing(dag, vis, h, a, k - 1);
        lemma_nothing_needed_after(dag, vis, h, k - 1);
    }
}

/// Folding the same transaction in a second time changes nothing: the
/// state after one fold is the state after two.
pub proof fn lemma_update_idempotent(dag: &Dag, vis: Seq<bool>, diff: Seq<i64>, h: int)
    requires
        dag.wf(),
        0 <= h < dag.n(),
        vis.len() == dag.n(),
        diff.len() == dag.balances@.len(),
        diff_ok(dag, vis, diff, h),
    ensures
        diff_ok(dag, visited_after(dag, vis, h), diff_after(dag, vis, diff, h), h),
        visited_after(dag, visited_after(dag, vis, h), h) == visited_after(dag, vis, h),
        diff_after(dag, visited_after(dag, vis, h), diff_after(dag, vis, diff, h), h) == diff_after(
            dag,
            vis,
            diff,
            h,
        ),
{
    let v2 = visited_after(dag, vis, h);
    let d2 = diff_after(dag, vis, diff, h);
    assert forall|a: int| 0 <= a < d2.len() implies #[trigger] delta_after(dag, v2, d2, h, a) == d2[a] by {
        lemma_spent_nothing(dag, vis, h, a, h + 1);
        assert(i64::MIN <= delta_after(dag, vis, diff, h, a) <= i64::MAX);
    }
    assert forall|i: int| 0 <= i < v2.len() implies !#[trigger] needed(dag, v2, h, i) by {
        lemma_nothing_needed_after(dag, vis, h, i);
    }
    assert forall|a: int| 0 <= a < d2.len() implies {
        let d = #[trigger] delta_after(dag, v2, d2, h, a);
        &&& i64::MIN <= d <= i64::MAX
        &&& dag.balances@[a] + d >= 0
    } by {
        lemma_spent_nothing(dag, vis, h, a, h + 1);
        assert(i64::MIN <= delta_after(dag, vis, diff, h, a) <= i64::MAX);
    }
    assert(visited_after(dag, v2, h) =~= v2);
    assert(diff_after(dag, v2, d2, h) =~= d2);
}

} // verus!
