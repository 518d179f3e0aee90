//! Suspense contexts, resources and the pending-count invariant.
//!
//! A `SuspenseContext` holds a live count of the resources registered
//! beneath its boundary that are still pending; its boundary is ready
//! exactly when the count is zero.  Resources hold their owning context as
//! an index into the runtime's context table, checked for liveness before
//! every mutation — a non-owning reference, so a resource that settles after
//! its scope was disposed silently does nothing instead of resurrecting it.
//!
//! The runtime's well-formedness ties the two tables together: an alive
//! context's count equals the number of pending resources it owns.  Every
//! mutator preserves it, and it is what rules a torn or negative count out.

use vstd::prelude::*;
use crate::tree::Outcome;

verus! {

/// Where a resource's asynchronous operation stands.  A resource is created
/// pending (construction fires the operation at once) and settles exactly
/// once; failure settles like success.
#[derive(Clone, Copy, PartialEq, Eq, Structural, Debug)]
pub enum ResourceState {
    Pending,
    Resolved,
}

/// One resource: its state, the outcome its operation settles to, and the
/// context it registered with when it was created, if any.
#[derive(Clone, Copy, PartialEq, Eq, Structural, Debug)]
pub struct ResourceSlot {
    pub state: ResourceState,
    pub value: Outcome,
    pub owner: Option<usize>,
}

/// A suspense boundary's scope: alive until the boundary's subtree is
/// disposed, with the live count of pending resources registered under it.
#[derive(Clone, Copy, PartialEq, Eq, Structural, Debug)]
pub struct SuspenseContext {
    pub alive: bool,
    pub pending: u64,
}

impl SuspenseContext {
    /// A fresh scope: alive, nothing pending.
    pub fn new() -> (s: Self)
        ensures
            s.alive,
            s.pending == 0,
    {
        SuspenseContext { alive: true, pending: 0 }
    }

    /// A resource registers as pending.  Safe to call at any time after the
    /// boundary's render call has returned.
    pub fn track_pending(&mut self)
        requires
            old(self).pending < u64::MAX,
        ensures
            final(self).alive == old(self).alive,
            final(self).pending == old(self).pending + 1,
    {
        self.pending = self.pending + 1;
    }

    /// A registered resource settles.  Safe to call at any time after the
    /// boundary's render call has returned.
    pub fn track_resolved(&mut self)
        requires
            old(self).pending > 0,
        ensures
            final(self).alive == old(self).alive,
            final(self).pending == old(self).pending - 1,
    {
        self.pending = self.pending - 1;
    }

    /// The boundary is ready when nothing registered under it is pending.
    pub fn ready(&self) -> (r: bool)
        ensures
            r == (self.pending == 0),
    {
        self.pending == 0
    }

    /// The raw count, so an orchestrator can special-case "nothing pending".
    pub fn pending_resources(&self) -> (n: u64)
        ensures
            n == self.pending,
    {
        self.pending
    }
}

/// How much one resource slot contributes to context `c`'s count: one if it
/// is pending and owned by `c`, zero otherwise.
pub open spec fn slot_contrib(s: ResourceSlot, c: int) -> nat {
    match s.owner {
        Option::Some(d) => if d as int == c && s.state is Pending {
            1
        } else {
            0
        },
        Option::None => 0,
    }
}

/// Number of pending resources owned by context `c`.
pub open spec fn count_pending(rs: Seq<ResourceSlot>, c: int) -> nat
    decreases rs.len(),
{
    if rs.len() == 0 {
        0
    } else {
        count_pending(rs.drop_last(), c) + slot_contrib(rs.last(), c)
    }
}

/// A slot's owner, if any, is a valid index into a context table of `n_ctx`
/// entries.
pub open spec fn owner_bounded(s: ResourceSlot, n_ctx: int) -> bool {
    match s.owner {
        Option::Some(d) => (d as int) < n_ctx,
        Option::None => true,
    }
}

pub proof fn lemma_count_push(rs: Seq<ResourceSlot>, x: ResourceSlot, c: int)
    ensures
        count_pending(rs.push(x), c) == count_pending(rs, c) + slot_contrib(x, c),
{
    assert(rs.push(x).drop_last() =~= rs);
    assert(rs.push(x).last() == x);
}

pub proof fn lemma_count_update(rs: Seq<ResourceSlot>, i: int, x: ResourceSlot, c: int)
    requires
        0 <= i < rs.len(),
    ensures
        count_pending(rs.update(i, x), c) == count_pending(rs, c) - slot_contrib(rs[i], c)
            + slot_contrib(x, c),
    decreases rs.len(),
{
    if i == rs.len() - 1 {
        assert(rs.update(i, x).drop_last() =~= rs.drop_last());
        assert(rs.update(i, x).last() == x);
    } else {
        assert(rs.update(i, x).drop_last() =~= rs.drop_last().update(i, x));
        assert(rs.update(i, x).last() == rs.last());
        lemma_count_update(rs.drop_last(), i, x, c);
    }
}

pub proof fn lemma_count_zero(rs: Seq<ResourceSlot>, c: int)
    requires
        forall|j: int| 0 <= j < rs.len() ==> slot_contrib(#[trigger] rs[j], c) == 0,
    ensures
        count_pending(rs, c) == 0,
    decreases rs.len(),
{
    if rs.len() > 0 {
        lemma_count_zero(rs.drop_last(), c);
    }
}

pub proof fn lemma_count_le_len(rs: Seq<ResourceSlot>, c: int)
    ensures
        count_pending(rs, c) <= rs.len(),
    decreases rs.len(),
{
    if rs.len() > 0 {
        lemma_count_le_len(rs.drop_last(), c);
    }
}

pub proof fn lemma_count_pos(rs: Seq<ResourceSlot>, i: int, c: int)
    requires
        0 <= i < rs.len(),
        slot_contrib(rs[i], c) == 1,
    ensures
        count_pending(rs, c) >= 1,
    decreases rs.len(),
{
    if i == rs.len() - 1 {
    } else {
        lemma_count_pos(rs.drop_last(), i, c);
    }
}

/// The scope table and the resource table of one render pass.
pub struct Runtime {
    pub contexts: Vec<SuspenseContext>,
    pub resources: Vec<ResourceSlot>,
}

impl Runtime {
    /// An alive context's count equals the number of pending resources it
    /// owns, and every owner index is in bounds.
    pub open spec fn wf(self) -> bool {
        &&& forall|j: int|
            0 <= j < self.resources@.len() ==> owner_bounded(
                #[trigger] self.resources@[j],
                self.contexts@.len() as int,
            )
        &&& forall|c: int|
            0 <= c < self.contexts@.len() && (#[trigger] self.contexts@[c]).alive
                ==> self.contexts@[c].pending as nat == count_pending(self.resources@, c)
    }

    pub fn new() -> (s: Self)
        ensures
            s.wf(),
            s.contexts@.len() == 0,
            s.resources@.len() == 0,
    {
        Runtime { contexts: Vec::new(), resources: Vec::new() }
    }

    /// Install a fresh suspense context and hand back its handle.
    pub fn create_context(&mut self) -> (cid: usize)
        requires
            old(self).wf(),
        ensures
            final(self).wf(),
            cid == old(self).contexts@.len(),
            final(self).contexts@ == old(self).contexts@.push(
                SuspenseContext { alive: true, pending: 0 },
            ),
            final(self).resources@ == old(self).resources@,
    {
        let cid = self.contexts.len();
        self.contexts.push(SuspenseContext::new());
        proof {
            assert forall|j: int| 0 <= j < self.resources@.len() implies slot_contrib(
                #[trigger] self.resources@[j],
                cid as int,
            ) == 0 by {
                assert(owner_bounded(self.resources@[j], old(self).contexts@.len() as int));
            }
            lemma_count_zero(self.resources@, cid as int);
        }
        cid
    }

    /// Create a resource.  Construction fires its asynchronous operation, so
    /// the resource starts pending; if it was created under an active
    /// context, that context's count goes up at once and comes back down
    /// when the resource settles.
    pub fn create_resource(&mut self, owner: Option<usize>, value: Outcome) -> (rid: usize)
        requires
            old(self).wf(),
            old(self).resources@.len() < usize::MAX,
            owner matches Some(c) ==> (c as int) < old(self).contexts@.len() && old(self).contexts@[c as int].alive,
        ensures
            final(self).wf(),
            rid == old(self).resources@.len(),
            final(self).resources@ == old(self).resources@.push(
                ResourceSlot { state: ResourceState::Pending, value, owner },
            ),
            owner is None ==> final(self).contexts@ == old(self).contexts@,
            owner matches Some(c) ==> final(self).contexts@ == old(self).contexts@.update(
                c as int,
                SuspenseContext {
                    alive: true,
                    pending: (old(self).contexts@[c as int].pending + 1) as u64,
                },
            ),
    {
        let rid = self.resources.len();
        let slot = ResourceSlot { state: ResourceState::Pending, value, owner };
        proof {
            lemma_count_push(self.resources@, slot, 0);
        }
        match owner {
            Option::Some(c) => {
                proof {
                    lemma_count_le_len(self.resources@, c as int);
                    assert(usize::MAX as int <= u64::MAX as int);
                }
                self.resources.push(slot);
                let ctx = &mut self.contexts[c];
                ctx.track_pending();
                proof {
                    assert forall|d: int|
                        0 <= d < self.contexts@.len() && (#[trigger] self.contexts@[d]).alive
                            implies self.contexts@[d].pending as nat == count_pending(
                        self.resources@,
                        d,
                    ) by {
                        lemma_count_push(old(self).resources@, slot, d);
                    }
                }
            }
            Option::None => {
                self.resources.push(slot);
                proof {
                    assert forall|d: int|
                        0 <= d < self.contexts@.len() && (#[trigger] self.contexts@[d]).alive
                            implies self.contexts@[d].pending as nat == count_pending(
                        self.resources@,
                        d,
                    ) by {
                        lemma_count_push(old(self).resources@, slot, d);
                    }
                }
            }
        }
        rid
    }

    /// A resource's asynchronous operation completed: mark it resolved and,
    /// if its owning scope is still alive, take it off that scope's count.
    /// Against a disposed scope the decrement is a no-op — cancellation, not
    /// an error.  Returns the owning context's handle when this settlement
    /// made that context ready.
    pub fn settle(&mut self, rid: usize) -> (freed: Option<usize>)
        requires
            old(self).wf(),
            rid < old(self).resources@.len(),
            old(self).resources@[rid as int].state is Pending,
        ensures
            final(self).wf(),
            final(self).resources@ == old(self).resources@.update(
                rid as int,
                ResourceSlot {
                    state: ResourceState::Resolved,
                    value: old(self).resources@[rid as int].value,
                    owner: old(self).resources@[rid as int].owner,
                },
            ),
            (match old(self).resources@[rid as int].owner {
                Option::Some(c) => if old(self).contexts@[c as int].alive {
                    final(self).contexts@ == old(self).contexts@.update(
                        c as int,
                        SuspenseContext {
                            alive: true,
                            pending: (old(self).contexts@[c as int].pending - 1) as u64,
                        },
                    ) && freed == (if old(self).contexts@[c as int].pending == 1 {
                        Some(c)
                    } else {
                        None::<usize>
                    })
                } else {
                    final(self).contexts@ == old(self).contexts@ && freed is None
                },
                Option::None => final(self).contexts@ == old(self).contexts@ && freed is None,
            }),
    {
        let slot = self.resources[rid];
        let updated = ResourceSlot {
            state: ResourceState::Resolved,
            value: slot.value,
            owner: slot.owner,
        };
        self.resources[rid] = updated;
        proof {
            assert forall|d: int| true implies count_pending(self.resources@, d) == count_pending(
                old(self).resources@,
                d,
            ) - slot_contrib(old(self).resources@[rid as int], d) + slot_contrib(updated, d) by {
                lemma_count_update(old(self).resources@, rid as int, updated, d);
            }
        }
        match slot.owner {
            Option::Some(c) => {
                if self.contexts[c].alive {
                    proof {
                        lemma_count_pos(old(self).resources@, rid as int, c as int);
                    }
                    let was = self.contexts[c].pending_resources();
                    let ctx = &mut self.contexts[c];
                    ctx.track_resolved();
                    if was == 1 {
                        Some(c)
                    } else {
                        None
                    }
                } else {
                    None
                }
            }
            Option::None => None,
        }
    }

    /// Synchronous read: the settled outcome, or nothing while the resource
    /// is still pending.  Never blocks.
    pub fn read(&self, rid: usize) -> (r: Option<Outcome>)
        requires
            rid < self.resources@.len(),
        ensures
            r == (if self.resources@[rid as int].state is Resolved {
                Some(self.resources@[rid as int].value)
            } else {
                None::<Outcome>
            }),
    {
        let slot = self.resources[rid];
        match slot.state {
            ResourceState::Resolved => Some(slot.value),
            ResourceState::Pending => None,
        }
    }

    /// The resource's reactive key changed: fire the operation again.  The
    /// resource goes back to pending with the new eventual outcome, and its
    /// owning context's count goes up again — if the scope is still alive.
    pub fn refetch(&mut self, rid: usize, value: Outcome)
        requires
            old(self).wf(),
            rid < old(self).resources@.len(),
            old(self).resources@.len() < usize::MAX,
            old(self).resources@[rid as int].state is Resolved,
        ensures
            final(self).wf(),
            final(self).resources@ == old(self).resources@.update(
                rid as int,
                ResourceSlot {
                    state: ResourceState::Pending,
                    value,
                    owner: old(self).resources@[rid as int].owner,
                },
            ),
            (match old(self).resources@[rid as int].owner {
                Option::Some(c) => if old(self).contexts@[c as int].alive {
                    final(self).contexts@ == old(self).contexts@.update(
                        c as int,
                        SuspenseContext {
                            alive: true,
                            pending: (old(self).contexts@[c as int].pending + 1) as u64,
                        },
                    )
                } else {
                    final(self).contexts@ == old(self).contexts@
                },
                Option::None => final(self).contexts@ == old(self).contexts@,
            }),
    {
        let slot = self.resources[rid];
        let updated = ResourceSlot {
            state: ResourceState::Pending,
            value,
            owner: slot.owner,
        };
        self.resources[rid] = updated;
        proof {
            assert forall|d: int| true implies count_pending(self.resources@, d) == count_pending(
                old(self).resources@,
                d,
            ) - slot_contrib(old(self).resources@[rid as int], d) + slot_contrib(updated, d) by {
                lemma_count_update(old(self).resources@, rid as int, updated, d);
            }
        }
        match slot.owner {
            Option::Some(c) => {
                if self.contexts[c].alive {
                    proof {
                        lemma_count_le_len(self.resources@, c as int);
                        assert(usize::MAX as int <= u64::MAX as int);
                    }
                    let ctx = &mut self.contexts[c];
                    ctx.track_pending();
                }
            }
            Option::None => {}
        }
    }

    /// Tear the boundary's scope down.  Resources that settle afterwards
    /// find a dead scope and leave its count alone.
    pub fn dispose_context(&mut self, cid: usize)
        requires
            old(self).wf(),
            cid < old(self).contexts@.len(),
        ensures
            final(self).wf(),
            final(self).contexts@ == old(self).contexts@.update(
                cid as int,
                SuspenseContext {
                    alive: false,
                    pending: old(self).contexts@[cid as int].pending,
                },
            ),
            final(self).resources@ == old(self).resources@,
    {
        let ctx = self.contexts[cid];
        self.contexts[cid] = SuspenseContext { alive: false, pending: ctx.pending };
    }

    /// Settle every pending resource, in the completion order the caller
    /// hands in — asynchronous operations finish in any order, and no
    /// boundary may assume first-registered-resolves-first.  Returns the
    /// contexts in the order their counts reached zero: every alive context
    /// that had something pending fires exactly once, whatever the order;
    /// disposed contexts never fire.
    pub fn settle_all(&mut self, order: &Vec<usize>) -> (fired: Vec<usize>)
        requires
            old(self).wf(),
            forall|k: int|
                0 <= k < order@.len() ==> (#[trigger] order@[k] as int) < old(self).resources@.len(),
            order@.no_duplicates(),
            forall|k: int|
                0 <= k < order@.len() ==> old(self).resources@[#[trigger] order@[k] as int].state
                    is Pending,
            forall|r: int|
                0 <= r < old(self).resources@.len() && (#[trigger] old(self).resources@[r]).state is Pending ==> order@.contains(r as usize),
        ensures
            final(self).wf(),
            final(self).resources@.len() == old(self).resources@.len(),
            forall|r: int|
                0 <= r < old(self).resources@.len() ==> (#[trigger] final(self).resources@[r]).owner == old(self).resources@[r].owner && final(self).resources@[r].value == old(self).resources@[r].value,
            forall|r: int|
                0 <= r < old(self).resources@.len() ==> (#[trigger] final(self).resources@[r]).state is Resolved,
            final(self).contexts@.len() == old(self).contexts@.len(),
            forall|c: int|
                0 <= c < old(self).contexts@.len() ==> (#[trigger] final(self).contexts@[c]).alive == old(self).contexts@[c].alive,
            forall|c: int|
                0 <= c < old(self).contexts@.len() && (#[trigger] old(self).contexts@[c]).alive
                    ==> final(self).contexts@[c].pending == 0,
            fired@.no_duplicates(),
            forall|c: usize|
                fired@.contains(c) <==> ((c as int) < old(self).contexts@.len() && old(self).contexts@[c as int].alive && old(self).contexts@[c as int].pending > 0),
    {
        let n_res = self.resources.len();
        proof {
            assert(old(self).resources@.len() == n_res as int);
        }
        let mut fired: Vec<usize> = Vec::new();
        let mut k: usize = 0;
        while k < order.len()
            invariant
                self.wf(),
                k <= order@.len(),
                old(self).resources@.len() <= usize::MAX,
                forall|j: int|
                    0 <= j < order@.len() ==> (#[trigger] order@[j] as int) < old(self).resources@.len(),
                order@.no_duplicates(),
                forall|j: int|
                    0 <= j < order@.len() ==> old(self).resources@[#[trigger] order@[j] as int].state
                        is Pending,
                self.resources@.len() == old(self).resources@.len(),
                forall|r: int|
                    0 <= r < old(self).resources@.len() ==> (#[trigger] self.resources@[r]).owner
                        == old(self).resources@[r].owner && self.resources@[r].value == old(self).resources@[r].value,
                forall|r: int|
                    0 <= r < old(self).resources@.len() ==> ((#[trigger] self.resources@[r]).state
                        is Pending <==> (old(self).resources@[r].state is Pending
                        && !order@.subrange(0, k as int).contains(r as usize))),
                self.contexts@.len() == old(self).contexts@.len(),
                forall|c: int|
                    0 <= c < old(self).contexts@.len() ==> (#[trigger] self.contexts@[c]).alive
                        == old(self).contexts@[c].alive,
                forall|c: int|
                    0 <= c < old(self).contexts@.len() ==> (#[trigger] self.contexts@[c]).pending
                        <= old(self).contexts@[c].pending,
                fired@.no_duplicates(),
                forall|c: usize|
                    fired@.contains(c) <==> ((c as int) < old(self).contexts@.len() && old(self).contexts@[c as int].alive && old(self).contexts@[c as int].pending > 0
                        && self.contexts@[c as int].pending == 0),
            decreases order@.len() - k,
        {
            let ghost self0 = *self;
            let ghost fired0 = fired@;
            let rid = order[k];
            proof {
                assert forall|i: int| 0 <= i < k implies order@[i] != order@[k as int] by {}
                assert(!order@.subrange(0, k as int).contains(rid));
            }
            let freed = self.settle(rid);
            proof {
                match self0.resources@[rid as int].owner {
                    Option::Some(c2) => {
                        if self0.contexts@[c2 as int].alive {
                            lemma_count_pos(self0.resources@, rid as int, c2 as int);
                        }
                    },
                    Option::None => {},
                }
            }
            match freed {
                Option::Some(c) => {
                    proof {
                        assert(self0.contexts@[c as int].pending == 1);
                        assert(!fired0.contains(c));
                    }
                    fired.push(c);
                    proof {
                        assert(fired@ == fired0.push(c));
                        assert forall|i: int, j: int|
                            0 <= i < fired@.len() && 0 <= j < fired@.len() && i != j implies
                            fired@[i] != fired@[j] by {
                            if i < fired@.len() - 1 && j < fired@.len() - 1 {
                                assert(fired@[i] == fired0[i] && fired@[j] == fired0[j]);
                            } else if i == fired@.len() - 1 {
                                assert(fired@[j] == fired0[j]);
                                assert(fired0[j] != c);
                            } else {
                                assert(fired@[i] == fired0[i]);
                                assert(fired0[i] != c);
                            }
                        }
                        assert(fired@.no_duplicates());
                        assert forall|d: usize| #[trigger] fired@.contains(d) implies ((d as int)
                            < old(self).contexts@.len() && old(self).contexts@[d as int].alive
                            && old(self).contexts@[d as int].pending > 0
                            && self.contexts@[d as int].pending == 0) by {
                            let i = choose|i: int| 0 <= i < fired@.len() && fired@[i] == d;
                            if i == fired@.len() - 1 {
                                assert(d == c);
                            } else {
                                assert(fired0[i] == d);
                                assert(fired0.contains(d));
                            }
                        }
                        assert forall|d: usize| ((d as int) < old(self).contexts@.len() && old(
                            self,
                        ).contexts@[d as int].alive && old(self).contexts@[d as int].pending > 0
                            && self.contexts@[d as int].pending == 0) implies #[trigger]
                            fired@.contains(d) by {
                            if d == c {
                                assert(fired@[fired@.len() - 1] == c);
                            } else {
                                assert(self0.contexts@[d as int].pending == 0);
                                assert(fired0.contains(d));
                                let i = choose|i: int| 0 <= i < fired0.len() && fired0[i] == d;
                                assert(fired@[i] == d);
                            }
                        }
                    }
                }
                Option::None => {
                    proof {
                        assert forall|d: usize| #[trigger] fired@.contains(d) implies ((d as int)
                            < old(self).contexts@.len() && old(self).contexts@[d as int].alive
                            && old(self).contexts@[d as int].pending > 0
                            && self.contexts@[d as int].pending == 0) by {
                            if self0.resources@[rid as int].owner == Some(d)
                                && self0.contexts@[d as int].alive {
                                lemma_count_pos(self0.resources@, rid as int, d as int);
                            }
                        }
                        assert forall|d: usize| ((d as int) < old(self).contexts@.len() && old(
                            self,
                        ).contexts@[d as int].alive && old(self).contexts@[d as int].pending > 0
                            && self.contexts@[d as int].pending == 0) implies #[trigger]
                            fired@.contains(d) by {
                            assert(self0.contexts@[d as int].pending == 0);
                        }
                    }
                },
            }
            k = k + 1;
            proof {
                let sub_new = order@.subrange(0, k as int);
                let sub_old = order@.subrange(0, k as int - 1);
                assert(sub_new =~= sub_old.push(order@[k as int - 1]));
                assert forall|r: usize| #[trigger] sub_new.contains(r) implies (sub_old.contains(r)
                    || r == order@[k as int - 1]) by {
                    let i = choose|i: int| 0 <= i < sub_new.len() && sub_new[i] == r;
                    if i < sub_new.len() - 1 {
                        assert(sub_old[i] == r);
                    }
                }
                assert forall|r: usize| (sub_old.contains(r) || r == order@[k as int - 1])
                    implies #[trigger] sub_new.contains(r) by {
                    if sub_old.contains(r) {
                        let i = choose|i: int| 0 <= i < sub_old.len() && sub_old[i] == r;
                        assert(sub_new[i] == r);
                    } else {
                        assert(sub_new[sub_new.len() - 1] == r);
                    }
                }
                assert forall|r: int| 0 <= r < old(self).resources@.len() implies ((
                #[trigger] self.resources@[r]).state is Pending <==> (old(
                    self,
                ).resources@[r].state is Pending && !sub_new.contains(r as usize))) by {
                    let ru = r as usize;
                    assert(ru as int == r);
                    if r == rid as int {
                        assert(sub_new.contains(ru));
                    } else {
                        assert(self.resources@[r] == self0.resources@[r]);
                        assert(ru != order@[k as int - 1]);
                    }
                }
            }
        }
        proof {
            assert(order@.subrange(0, order@.len() as int) =~= order@);
            assert forall|r: int|
                0 <= r < old(self).resources@.len() implies !((#[trigger] self.resources@[r]).state
                is Pending) by {
                if old(self).resources@[r].state is Pending {
                    assert(order@.contains(r as usize));
                }
            }
            assert forall|c: int|
                0 <= c < old(self).contexts@.len() && (#[trigger] old(self).contexts@[c]).alive implies self.contexts@[c].pending == 0 by {
                assert forall|j: int|
                    0 <= j < self.resources@.len() implies slot_contrib(
                    #[trigger] self.resources@[j],
                    c,
                ) == 0 by {}
                lemma_count_zero(self.resources@, c);
            }
        }
        fired
    }

    /// Whether the boundary behind `cid` is ready.
    pub fn ready(&self, cid: usize) -> (r: bool)
        requires
            cid < self.contexts@.len(),
        ensures
            r == (self.contexts@[cid as int].pending == 0),
    {
        self.contexts[cid].ready()
    }

    /// The raw pending count of the boundary behind `cid`.
    pub fn pending_resources(&self, cid: usize) -> (n: u64)
        requires
            cid < self.contexts@.len(),
        ensures
            n == self.contexts@[cid as int].pending,
    {
        self.contexts[cid].pending_resources()
    }
}

/// A resource's reactive key changed: when the dirty flag of the
/// computation standing for the resource's re-fire hook is set, clear it
/// and fire the operation again with the outcome the new key maps to.  The
/// resource goes back to pending — nested, refreshed suspense — and
/// nothing happens when the hook was clean.
pub fn rerun_resource_if_dirty(
    rt: &mut Runtime,
    graph: &mut crate::reactive::ReactiveGraph,
    hook: usize,
    rid: usize,
    value: Outcome,
) -> (fired: bool)
    requires
        old(rt).wf(),
        old(graph).wf(),
        rid < old(rt).resources@.len(),
        old(rt).resources@.len() < usize::MAX,
        hook < old(graph).computations@.len(),
        old(rt).resources@[rid as int].state is Resolved,
    ensures
        final(rt).wf(),
        final(graph).wf(),
        fired == old(graph).computations@[hook as int].dirty,
        final(graph).computations@ == old(graph).computations@.update(
            hook as int,
            crate::reactive::ComputationSlot {
                alive: old(graph).computations@[hook as int].alive,
                dirty: false,
            },
        ),
        final(graph).signals@ == old(graph).signals@,
        !fired ==> final(rt).resources@ == old(rt).resources@ && final(rt).contexts@ == old(
            rt,
        ).contexts@,
        fired ==> final(rt).resources@ == old(rt).resources@.update(
            rid as int,
            ResourceSlot {
                state: ResourceState::Pending,
                value,
                owner: old(rt).resources@[rid as int].owner,
            },
        ),
{
    let was = graph.take_dirty(hook);
    if was {
        rt.refetch(rid, value);
    }
    was
}

/// Nearest-enclosing registration means an outer boundary never counts an
/// inner boundary's resources.  So once everything registered under the
/// inner boundary has settled, the inner count is zero — and an outer
/// boundary that owns no resource of its own observes zero pending as well,
/// whatever happened under the inner one.  Settling only ever decreases
/// counts (see `settle`), so readiness, once reached, is kept.
pub proof fn lemma_nested_boundary_release(rt: Runtime, inner: usize, outer: usize)
    requires
        rt.wf(),
        (inner as int) < rt.contexts@.len(),
        (outer as int) < rt.contexts@.len(),
        rt.contexts@[inner as int].alive,
        rt.contexts@[outer as int].alive,
        forall|j: int|
            0 <= j < rt.resources@.len() && (#[trigger] rt.resources@[j]).owner == Some(inner)
                ==> !(rt.resources@[j].state is Pending),
        forall|j: int|
            0 <= j < rt.resources@.len() ==> (#[trigger] rt.resources@[j]).owner != Some(outer),
    ensures
        rt.contexts@[inner as int].pending == 0,
        rt.contexts@[outer as int].pending == 0,
{
    assert forall|j: int| 0 <= j < rt.resources@.len() implies slot_contrib(
        #[trigger] rt.resources@[j],
        inner as int,
    ) == 0 by {}
    assert forall|j: int| 0 <= j < rt.resources@.len() implies slot_contrib(
        #[trigger] rt.resources@[j],
        outer as int,
    ) == 0 by {}
    lemma_count_zero(rt.resources@, inner as int);
    lemma_count_zero(rt.resources@, outer as int);
}

} // verus!
