use vstd::prelude::*;

verus! {

/// How much of a transaction the store holds.
#[derive(Clone, Copy, Debug, PartialEq, Eq, Structural)]
pub enum TxKind {
    Full,
    HashOnly,
}

/// One transaction of the local store, addressed by its position.
///
/// `trunk` and `branch` are positions of earlier transactions; `approvers`
/// lists the later transactions that reference this one.
#[derive(Clone, Debug)]
pub struct TxRecord {
    pub trunk: usize,
    pub branch: usize,
    pub address: usize,
    pub value: i64,
    pub snapshot_index: u32,
    pub kind: TxKind,
    pub solid: bool,
    pub approvers: Vec<usize>,
}

/// A milestone: its index and the position of its transaction.
#[derive(Clone, Copy, Debug)]
pub struct MilestoneRef {
    pub index: u32,
    pub tx: usize,
}

/// Read-only projection of the transaction store.
///
/// Position 0 is the genesis; every other transaction references two
/// earlier positions, so the approval relation is acyclic by construction.
#[derive(Clone, Debug)]
pub struct Dag {
    pub txs: Vec<TxRecord>,
    pub balances: Vec<i64>,
    pub milestones: Vec<MilestoneRef>,
}

impl Dag {
    pub open spec fn n(&self) -> int {
        self.txs@.len() as int
    }

    pub open spec fn trunk(&self, i: int) -> int {
        self.txs@[i].trunk as int
    }

    pub open spec fn branch(&self, i: int) -> int {
        self.txs@[i].branch as int
    }

    pub open spec fn approvers(&self, i: int) -> Seq<usize> {
        self.txs@[i].approvers@
    }

    pub open spec fn snapshot(&self, i: int) -> int {
        self.txs@[i].snapshot_index as int
    }

    pub open spec fn address(&self, i: int) -> int {
        self.txs@[i].address as int
    }

    pub open spec fn value(&self, i: int) -> int {
        self.txs@[i].value as int
    }

    /// Whether `i` references `j` as trunk or branch.
    pub open spec fn references(&self, i: int, j: int) -> bool {
        0 < i && (self.trunk(i) == j || self.branch(i) == j)
    }

    pub open spec fn wf_tx(&self, i: int) -> bool {
        &&& (0 < i ==> self.trunk(i) < i && self.branch(i) < i)
        &&& 0 <= self.address(i) < self.balances@.len()
        &&& self.approvers(i).no_duplicates()
        &&& forall|k: int|
            0 <= k < self.approvers(i).len() ==> {
                let a = #[trigger] self.approvers(i)[k] as int;
                &&& i < a < self.n()
                &&& self.references(a, i)
            }
    }

    /// Store invariant: references point backwards, approvers forwards, and
    /// every approver references the transaction it approves.
    pub open spec fn wf(&self) -> bool {
        &&& forall|i: int| 0 <= i < self.n() ==> #[trigger] self.wf_tx(i)
        &&& forall|m: int|
            0 <= m < self.milestones@.len() ==> (#[trigger] self.milestones@[m]).tx < self.n()
    }
    fn tx_is_wf(&self, i: usize) -> (r: bool)
        requires
            i < self.n(),
        ensures
            r == self.wf_tx(i as int),
    {
        let n = self.txs.len();
        let tx = &self.txs[i];
        if i > 0 && !(tx.trunk < i && tx.branch < i) {
            return false;
        }
        if tx.address >= self.balances.len() {
            return false;
        }
        let aps = &tx.approvers;
        let mut k: usize = 0;
        while k < aps.len()
            invariant
                n == self.n(),
                i < n,
                aps@ == self.approvers(i as int),
                k <= aps@.len(),
                forall|q: int|
                    0 <= q < k ==> {
                        let a = #[trigger] aps@[q] as int;
                        &&& (i as int) < a < n
                        &&& self.references(a, i as int)
                    },
                forall|q1: int, q2: int| 0 <= q1 < q2 < k ==> aps@[q1] != aps@[q2],
            decreases aps@.len() - k,
        {
            let a = aps[k];
            if !(i < a && a < n) {
                return false;
            }
            let at = &self.txs[a];
            if !(at.trunk == i || at.branch == i) {
                return false;
            }
            let mut q: usize = 0;
            while q < k
                invariant
                    q <= k < aps@.len(),
                    a == aps@[k as int],
                    aps@ == self.approvers(i as int),
                    forall|q1: int| 0 <= q1 < q ==> aps@[q1] != a,
                decreases k - q,
            {
                if aps[q] == a {
                    assert(aps@[q as int] == aps@[k as int]);
                    assert(!aps@.no_duplicates());
                    return false;
                }
                q = q + 1;
            }
            k = k + 1;
        }
        proof {
            assert(aps@.no_duplicates());
        }
        true
    }

    /// Checks the store invariant.
    pub fn is_wf(&self) -> (r: bool)
        ensures
            r == self.wf(),
    {
        let n = self.txs.len();
        let mut i: usize = 0;
        while i < n
            invariant
                n == self.n(),
                i <= n,
                forall|j: int| 0 <= j < i ==> #[trigger] self.wf_tx(j),
            decreases n - i,
        {
            if !self.tx_is_wf(i) {
                return false;
            }
            i = i + 1;
        }
        let mut m: usize = 0;
        while m < self.milestones.len()
            invariant
                n == self.n(),
                m <= self.milestones@.len(),
                forall|j: int| 0 <= j < m ==> (#[trigger] self.milestones@[j]).tx < n,
            decreases self.milestones@.len() - m,
        {
            if self.milestones[m].tx >= n {
                return false;
            }
            m = m + 1;
        }
        true
    }
}

/// `p` is a chain of approver hops: each element approves the one before.
pub open spec fn approver_chain(dag: &Dag, p: Seq<int>) -> bool {
    &&& forall|i: int| 0 <= i < p.len() ==> 0 <= #[trigger] p[i] < dag.n()
    &&& forall|i: int| 0 <= i < p.len() - 1 ==> dag.approvers(#[trigger] p[i]).contains(p[i + 1] as usize)
}

/// `t` is `from` or approves it directly or indirectly.
pub open spec fn reached_from(dag: &Dag, from: int, t: int) -> bool {
    exists|p: Seq<int>| #[trigger] approver_chain(dag, p) && p.len() > 0 && p[0] == from && p.last() == t
}

/// A prefix of a chain is a chain.
pub proof fn lemma_chain_prefix(dag: &Dag, p: Seq<int>, m: int)
    requires
        approver_chain(dag, p),
        0 < m <= p.len(),
    ensures
        approver_chain(dag, p.take(m)),
{
    let q = p.take(m);
    assert forall|i: int| 0 <= i < q.len() - 1 implies dag.approvers(#[trigger] q[i]).contains(q[i + 1] as usize) by {
        assert(q[i] == p[i] && q[i + 1] == p[i + 1]);
    }
}

/// Along a chain of approver hops positions strictly increase.
pub proof fn lemma_chain_increasing(dag: &Dag, p: Seq<int>, i: int, j: int)
    requires
        dag.wf(),
        approver_chain(dag, p),
        0 <= i <= j < p.len(),
    ensures
        p[j] >= p[i] + (j - i),
    decreases j - i,
{
    if i < j {
        lemma_chain_increasing(dag, p, i, j - 1);
        let prev = p[j - 1];
        assert(dag.approvers(prev).contains(p[j] as usize));
        let k = choose|k: int| 0 <= k < dag.approvers(prev).len() && dag.approvers(prev)[k] == p[j] as usize;
        assert(dag.wf_tx(prev));
    }
}

/// Reaching `k`, and `a` approving `k`, reaches `a`.
pub proof fn lemma_reach_step(dag: &Dag, e: int, k: int, a: int)
    requires
        reached_from(dag, e, k),
        dag.approvers(k).contains(a as usize),
        0 <= a < dag.n(),
    ensures
        reached_from(dag, e, a),
{
    let p = choose|p: Seq<int>| #[trigger] approver_chain(dag, p) && p.len() > 0 && p[0] == e && p.last() == k;
    let q = p.push(a);
    assert(q[q.len() - 2] == k);
    assert(approver_chain(dag, q));
}

/// What is reached lies at or after `e`; besides `e`, it approves something
/// reached before it.
pub proof fn lemma_reach_back(dag: &Dag, e: int, i: int)
    requires
        dag.wf(),
        reached_from(dag, e, i),
    ensures
        e <= i < dag.n(),
        i != e ==> exists|k: int|
            e <= k < i && #[trigger] reached_from(dag, e, k) && dag.approvers(k).contains(i as usize),
{
    let p = choose|p: Seq<int>| #[trigger] approver_chain(dag, p) && p.len() > 0 && p[0] == e && p.last() == i;
    lemma_chain_increasing(dag, p, 0, p.len() - 1);
    if i != e {
        let m = p.len() - 1;
        let k = p[m - 1];
        lemma_chain_prefix(dag, p, m);
        assert(p.take(m).last() == k);
        assert(p.take(m)[0] == e);
        lemma_chain_increasing(dag, p, 0, m - 1);
        assert(dag.approvers(k).contains(p[m] as usize));
        let j = choose|j: int| 0 <= j < dag.approvers(k).len() && dag.approvers(k)[j] == i as usize;
        assert(dag.wf_tx(k));
        assert(reached_from(dag, e, k));
    }
}

} // verus!
