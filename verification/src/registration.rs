//! The registration pass: evaluating children to discover resource reads.
//!
//! A suspense boundary always evaluates its children once, even though the
//! output may be discarded, because that is the only way resources below get
//! a chance to register.  `evaluate` walks a tree and performs exactly that
//! discovery against the runtime: every boundary installs a fresh context,
//! and every resource read registers — pending — with the nearest enclosing
//! context, or with the ambient one handed in from above.  The spec
//! functions `slots_of` and `ctxs_of` say, as pure functions of the tree,
//! which slots the pass appends; in particular each new context's count
//! comes out as `own_res` of its children, which is what the render
//! decision in the orchestrator turns on.

use vstd::prelude::*;
use crate::runtime::{Runtime, ResourceSlot, ResourceState, SuspenseContext};
use crate::tree::{Tree, n_bounds, n_res, own_res};

verus! {

/// Whether the ambient context handle is exactly index `c`.
pub open spec fn amb_is(amb: Option<usize>, c: int) -> bool {
    match amb {
        Option::Some(a) => a as int == c,
        Option::None => false,
    }
}

/// The resource slots the registration pass appends for `t`, in document
/// order, when the ambient context is `amb` and the subtree's first new
/// context gets index `cb`.
pub open spec fn slots_of(t: Tree, amb: Option<usize>, cb: int) -> Seq<ResourceSlot>
    decreases t,
{
    match t {
        Tree::Text(_) => seq![],
        Tree::Pair(a, b) => slots_of(*a, amb, cb) + slots_of(
            *b,
            amb,
            cb + n_bounds(*a) as int,
        ),
        Tree::Resource(o) => seq![
            ResourceSlot { state: ResourceState::Pending, value: o, owner: amb },
        ],
        Tree::Suspense(_, ch) => slots_of(*ch, Some(cb as usize), cb + 1),
    }
}

/// The contexts the registration pass appends for `t`, in document order:
/// one per boundary, alive, counting exactly the resources its children
/// register with it.
pub open spec fn ctxs_of(t: Tree) -> Seq<SuspenseContext>
    decreases t,
{
    match t {
        Tree::Text(_) => seq![],
        Tree::Pair(a, b) => ctxs_of(*a) + ctxs_of(*b),
        Tree::Resource(_) => seq![],
        Tree::Suspense(_, ch) => seq![
            SuspenseContext { alive: true, pending: own_res(*ch) as u64 },
        ] + ctxs_of(*ch),
    }
}

pub proof fn lemma_slots_len(t: Tree, amb: Option<usize>, cb: int)
    ensures
        slots_of(t, amb, cb).len() == n_res(t),
    decreases t,
{
    match t {
        Tree::Text(_) => {}
        Tree::Pair(a, b) => {
            lemma_slots_len(*a, amb, cb);
            lemma_slots_len(*b, amb, cb + n_bounds(*a) as int);
        }
        Tree::Resource(_) => {}
        Tree::Suspense(_, ch) => {
            lemma_slots_len(*ch, Some(cb as usize), cb + 1);
        }
    }
}

pub proof fn lemma_ctxs_len(t: Tree)
    ensures
        ctxs_of(t).len() == n_bounds(t),
    decreases t,
{
    match t {
        Tree::Text(_) => {}
        Tree::Pair(a, b) => {
            lemma_ctxs_len(*a);
            lemma_ctxs_len(*b);
        }
        Tree::Resource(_) => {}
        Tree::Suspense(_, ch) => {
            lemma_ctxs_len(*ch);
        }
    }
}

impl Runtime {
    /// Evaluate `t` once for registration under ambient context `amb`:
    /// install a context per boundary, register every resource read with its
    /// nearest enclosing context, and leave every other context untouched —
    /// except the ambient one, whose count goes up by the reads that belong
    /// to it directly.
    pub fn evaluate(&mut self, t: &Tree, amb: Option<usize>)
        requires
            old(self).wf(),
            amb matches Some(a) ==> (a as int) < old(self).contexts@.len() && old(self).contexts@[a as int].alive,
            old(self).resources@.len() + n_res(*t) <= usize::MAX,
            old(self).contexts@.len() + n_bounds(*t) <= usize::MAX,
        ensures
            final(self).wf(),
            final(self).resources@ == old(self).resources@ + slots_of(
                *t,
                amb,
                old(self).contexts@.len() as int,
            ),
            final(self).contexts@.len() == old(self).contexts@.len() + n_bounds(*t),
            forall|c: int|
                0 <= c < old(self).contexts@.len() && !amb_is(amb, c) ==> #[trigger] final(self).contexts@[c] == old(self).contexts@[c],
            amb matches Some(a) ==> final(self).contexts@[a as int].alive && final(self).contexts@[a as int].pending as int == old(self).contexts@[a as int].pending as int
                + own_res(*t) as int,
            forall|k: int|
                0 <= k < n_bounds(*t) ==> #[trigger] final(self).contexts@[old(self).contexts@.len() + k] == ctxs_of(*t)[k],
        decreases *t,
    {
        proof {
            lemma_ctxs_len(*t);
            lemma_slots_len(*t, amb, self.contexts@.len() as int);
        }
        match t {
            Tree::Text(_) => {
                proof {
                    assert(self.resources@ + slots_of(*t, amb, self.contexts@.len() as int)
                        =~= self.resources@);
                }
            }
            Tree::Pair(a, b) => {
                let ghost cb = self.contexts@.len() as int;
                let ghost rs0 = self.resources@;
                proof {
                    lemma_slots_len(**a, amb, cb);
                    lemma_ctxs_len(**a);
                }
                self.evaluate(a, amb);
                let ghost mid = *self;
                self.evaluate(b, amb);
                proof {
                    assert(rs0 + slots_of(**a, amb, cb) + slots_of(
                        **b,
                        amb,
                        cb + n_bounds(**a) as int,
                    ) =~= rs0 + slots_of(*t, amb, cb));
                    assert forall|k: int| 0 <= k < n_bounds(*t) implies self.contexts@[cb + k]
                        == ctxs_of(*t)[k] by {
                        if k < n_bounds(**a) {
                            assert(ctxs_of(*t)[k] == ctxs_of(**a)[k]);
                            assert(self.contexts@[cb + k] == mid.contexts@[cb + k]);
                            assert(mid.contexts@[cb + k] == ctxs_of(**a)[k]);
                        } else {
                            assert(ctxs_of(*t)[k] == ctxs_of(**b)[k - n_bounds(**a)]);
                            assert(self.contexts@[(cb + n_bounds(**a)) + (k - n_bounds(**a))]
                                == ctxs_of(**b)[k - n_bounds(**a)]);
                        }
                    }
                }
            }
            Tree::Resource(o) => {
                proof {
                    match amb {
                        Option::Some(a0) => {
                            crate::runtime::lemma_count_le_len(self.resources@, a0 as int);
                            assert(usize::MAX as int <= u64::MAX as int);
                        },
                        Option::None => {},
                    }
                }
                let _ = self.create_resource(amb, *o);
                proof {
                    assert(self.resources@ =~= old(self).resources@ + slots_of(
                        *t,
                        amb,
                        old(self).contexts@.len() as int,
                    ));
                }
            }
            Tree::Suspense(_, ch) => {
                let ghost cb = self.contexts@.len() as int;
                let cid = self.create_context();
                self.evaluate(ch, Some(cid));
                proof {
                    assert(Some(cb as usize) == Some(cid));
                    assert(self.resources@ =~= old(self).resources@ + slots_of(*t, amb, cb));
                    lemma_ctxs_len(**ch);
                    assert(self.contexts@[cb].alive);
                    assert(self.contexts@[cb].pending as int == own_res(**ch) as int);
                    assert(own_res(**ch) <= u64::MAX) by {
                        crate::tree::lemma_own_res_le(**ch);
                        assert(usize::MAX as int <= u64::MAX as int);
                    }
                    assert(self.contexts@[cb] == ctxs_of(*t)[0]);
                    assert forall|k: int| 0 <= k < n_bounds(*t) implies self.contexts@[cb + k]
                        == ctxs_of(*t)[k] by {
                        if k > 0 {
                            assert(ctxs_of(*t)[k] == ctxs_of(**ch)[k - 1]);
                            assert(self.contexts@[(cb + 1) + (k - 1)] == ctxs_of(**ch)[k - 1]);
                        }
                    }
                }
            }
        }
    }
}

} // verus!
