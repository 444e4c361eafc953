use vstd::prelude::*;

verus! {

/// `done` after one pass in which each branch not yet done reported `ready`.
pub open spec fn after_pass(done: Seq<bool>, ready: Seq<bool>) -> Seq<bool> {
    Seq::new(done.len(), |i: int| done[i] || ready[i])
}

/// Every branch has completed.
pub open spec fn all_done(done: Seq<bool>) -> bool {
    forall|i: int| 0 <= i < done.len() ==> done[i]
}

/// The completion record of a join of several branches. Every pass polls,
/// in order, each branch that has not completed; the join completes once all
/// of them have.
pub struct Join {
    /// Which branches have completed.
    pub done: Vec<bool>,
}

impl Join {
    /// A join of `branches` branches, none completed.
    pub fn new(branches: usize) -> (r: Join)
        ensures
            r.done@ == Seq::new(branches as nat, |i: int| false),
    {
        let mut done: Vec<bool> = Vec::new();
        let mut i: usize = 0;
        while i < branches
            invariant
                i <= branches,
                done@ == Seq::new(i as nat, |j: int| false),
            decreases branches - i,
        {
            done.push(false);
            i += 1;
            proof {
                assert(done@ =~= Seq::new(i as nat, |j: int| false));
            }
        }
        Join { done }
    }

    /// Whether branch `i` is to be polled in this pass.
    pub fn needs_poll(&self, i: usize) -> (r: bool)
        requires
            i < self.done@.len(),
        ensures
            r == !self.done@[i as int],
    {
        !self.done[i]
    }

    /// The branches to poll in this pass, in order: every one that has not
    /// completed, by increasing index.
    pub fn pending_branches(&self) -> (r: Vec<usize>)
        ensures
            forall|a: int, b: int| 0 <= a < b < r@.len() ==> r@[a] < r@[b],
            forall|k: int| 0 <= k < r@.len() ==> r@[k] < self.done@.len() && !self.done@[r@[k] as int],
            forall|i: int| 0 <= i < self.done@.len() && !self.done@[i] ==> r@.contains(i as usize),
    {
        let mut r: Vec<usize> = Vec::new();
        let mut i: usize = 0;
        while i < self.done.len()
            invariant
                i <= self.done@.len(),
                forall|a: int, b: int| 0 <= a < b < r@.len() ==> r@[a] < r@[b],
                forall|k: int| 0 <= k < r@.len() ==> r@[k] < i && !self.done@[r@[k] as int],
                forall|j: int| 0 <= j < i && !self.done@[j] ==> r@.contains(j as usize),
            decreases self.done@.len() - i,
        {
            if !self.done[i] {
                let ghost before = r@;
                r.push(i);
                proof {
                    assert(r@[before.len() as int] == i);
                    assert forall|j: int| 0 <= j < i + 1 && !self.done@[j] implies r@.contains(j as usize) by {
                        if j < i {
                            let w = choose|w: int| 0 <= w < before.len() && before[w] == j as usize;
                            assert(r@[w] == j as usize);
                        } else {
                            assert(r@[before.len() as int] == j as usize);
                        }
                    }
                }
            }
            i += 1;
        }
        r
    }

    /// Whether every branch has completed.
    pub fn is_complete(&self) -> (r: bool)
        ensures
            r == all_done(self.done@),
    {
        let mut i: usize = 0;
        while i < self.done.len()
            invariant
                i <= self.done@.len(),
                forall|j: int| 0 <= j < i ==> self.done@[j],
            decreases self.done@.len() - i,
        {
            if !self.done[i] {
                return false;
            }
            i += 1;
        }
        true
    }

    /// Records a pass: `ready[i]` is what branch `i` reported, for each
    /// branch that was polled; the others are ignored. Returns whether the
    /// join has now completed.
    pub fn pass(&mut self, ready: &Vec<bool>) -> (complete: bool)
        requires
            ready@.len() == old(self).done@.len(),
        ensures
            final(self).done@ == after_pass(old(self).done@, ready@),
            complete == all_done(final(self).done@),
    {
        let mut next: Vec<bool> = Vec::new();
        let mut i: usize = 0;
        while i < self.done.len()
            invariant
                i <= self.done@.len(),
                ready@.len() == self.done@.len(),
                next@.len() == i,
                forall|j: int| 0 <= j < i ==> next@[j] == (self.done@[j] || ready@[j]),
            decreases self.done@.len() - i,
        {
            next.push(self.done[i] || ready[i]);
            i += 1;
        }
        proof {
            assert(next@ =~= after_pass(self.done@, ready@));
        }
        self.done = next;
        self.is_complete()
    }
}

/// Completion flags and poll counts of a join after `p` passes, where branch
/// `i` reports ready on its `c[i]`-th poll.
pub open spec fn join_run(c: Seq<nat>, p: nat) -> (Seq<bool>, Seq<nat>)
    decreases p,
{
    if p == 0 {
        (Seq::new(c.len(), |i: int| false), Seq::new(c.len(), |i: int| 0nat))
    } else {
        let (done, polls) = join_run(c, (p - 1) as nat);
        let ready = Seq::new(c.len(), |i: int| polls[i] + 1 >= c[i]);
        (
            after_pass(done, ready),
            Seq::new(c.len(), |i: int| if done[i] { polls[i] } else { polls[i] + 1 }),
        )
    }
}

/// When branch `i` completes on its `c[i]`-th poll, after `p` passes it has
/// been polled `min(p, c[i])` times, never again once complete, and the join
/// has completed exactly when `p` reaches the largest `c[i]`.
pub proof fn lemma_join_completion(c: Seq<nat>, p: nat)
    requires
        forall|i: int| 0 <= i < c.len() ==> c[i] >= 1,
    ensures
        join_run(c, p).0.len() == c.len(),
        join_run(c, p).1.len() == c.len(),
        forall|i: int| 0 <= i < c.len() ==> join_run(c, p).0[i] == (p >= c[i]),
        forall|i: int| 0 <= i < c.len() ==> join_run(c, p).1[i] == if p <= c[i] { p } else { c[i] },
        all_done(join_run(c, p).0) <==> (forall|i: int| 0 <= i < c.len() ==> p >= c[i]),
    decreases p,
{
    if p > 0 {
        lemma_join_completion(c, (p - 1) as nat);
    }
    let d = join_run(c, p).0;
    if all_done(d) {
        assert forall|i: int| 0 <= i < c.len() implies p >= c[i] by {
            assert(d[i]);
        }
    }
    if forall|i: int| 0 <= i < c.len() ==> p >= c[i] {
        assert forall|i: int| 0 <= i < d.len() implies d[i] by {
            assert(p >= c[i]);
        }
    }
}

} // verus!
