//! The suspense boundary orchestrator.
//!
//! `Suspense` runs one boundary through its render pass: mint the
//! boundary's identifier, install a fresh context, evaluate the children
//! once — always, since that is what lets resources below register — and
//! then decide between real content and fallback.  In client mode the
//! decision reads the context's readiness; in the server modes it reads the
//! raw pending count, but the verified outcome is the same: children are
//! shown exactly when no resource registered with this boundary.  Before
//! returning, the identifier cursor is restored to just past this
//! boundary's subtree, so sibling boundaries mint correct identifiers no
//! matter how long resolution takes.

use vstd::prelude::*;
use crate::hydration::HydrationCtx;
use crate::runtime::Runtime;
use crate::registration::slots_of;
use crate::tree::{Tree, n_bounds, n_res, own_res, initial_markup};
use crate::render::{render_initial, append_bytes, bounds_in, clone_bytes};

verus! {

/// Which render driver is asking for this boundary.
#[derive(Clone, Copy, PartialEq, Eq, Structural, Debug)]
pub enum RenderMode {
    Client,
    ServerString,
    OutOfOrder,
    InOrder,
}

/// The rendered representation of a boundary: a suspense node carrying its
/// structural identifier and the markup the pass decided on.
pub enum Rendered {
    Markup(Vec<u8>),
    Suspense(u64, Box<Rendered>),
}

/// Render one suspense boundary.
///
/// The result is always a `Rendered::Suspense` node under the freshly
/// minted identifier.  Its body is the children's initial markup when no
/// resource registered with this boundary — whether or not deeper
/// boundaries are still pending below — and the fallback otherwise; in the
/// streaming modes the driver later pairs the fallback with the replacement
/// chunk carrying the same identifier.  The runtime is left with the
/// boundary's context installed (count: the children's directly registered
/// reads) and every resource read registered with its nearest context.
#[allow(non_snake_case)]
pub fn Suspense(
    rt: &mut Runtime,
    hy: &mut HydrationCtx,
    fallback: Vec<u8>,
    children: &Tree,
    mode: RenderMode,
) -> (v: Rendered)
    requires
        old(rt).wf(),
        old(rt).resources@.len() + n_res(*children) <= usize::MAX,
        old(rt).contexts@.len() + 1 + n_bounds(*children) <= usize::MAX,
        old(hy).cursor as nat + 1 + n_bounds(*children) <= u64::MAX,
    ensures
        final(rt).wf(),
        final(rt).resources@ == old(rt).resources@ + slots_of(
            *children,
            Some(old(rt).contexts@.len() as usize),
            old(rt).contexts@.len() as int + 1,
        ),
        final(rt).contexts@.len() == old(rt).contexts@.len() + 1 + n_bounds(*children),
        forall|c: int|
            0 <= c < old(rt).contexts@.len() ==> #[trigger] final(rt).contexts@[c] == old(
                rt,
            ).contexts@[c],
        final(rt).contexts@[old(rt).contexts@.len() as int].alive,
        final(rt).contexts@[old(rt).contexts@.len() as int].pending as int == own_res(
            *children,
        ) as int,
        final(hy).cursor == old(hy).cursor + 1 + n_bounds(*children),
        ({
            &&& v matches Rendered::Suspense(id, inner)
            &&& id == old(hy).cursor
            &&& (*inner) matches Rendered::Markup(m)
            &&& m@ == (if own_res(*children) == 0 {
                initial_markup(*children, old(hy).cursor as nat + 1)
            } else {
                fallback@
            })
        }),
{
    let id = hy.next_component();
    let cid = rt.create_context();

    // Children are evaluated unconditionally: even when the output below is
    // discarded in favour of the fallback, this is what registers every
    // resource read with its nearest enclosing context.
    rt.evaluate(children, Some(cid));

    let show_children = match mode {
        RenderMode::Client => rt.ready(cid),
        RenderMode::ServerString | RenderMode::OutOfOrder | RenderMode::InOrder => {
            rt.pending_resources(cid) == 0
        },
    };

    let body: Vec<u8> = if show_children {
        let mut out: Vec<u8> = Vec::new();
        let mut pass = HydrationCtx { cursor: id + 1 };
        render_initial(children, &mut pass, &mut out);
        proof {
            assert(Seq::<u8>::empty() + initial_markup(*children, id as nat + 1)
                =~= initial_markup(*children, id as nat + 1));
        }
        out
    } else {
        let mut out: Vec<u8> = Vec::new();
        append_bytes(&mut out, &fallback);
        proof {
            assert(Seq::<u8>::empty() + fallback@ =~= fallback@);
        }
        out
    };

    // Restore the cursor to just past this boundary's subtree, whichever
    // branch was taken above.
    let nb = bounds_in(children);
    hy.continue_from(id + nb);

    Rendered::Suspense(id, Box::new(Rendered::Markup(body)))
}

/// Client-interactive readiness poll for a mounted boundary.  The live view
/// calls this whenever the boundary's context may have changed: while
/// something is still pending the fallback stays, and the first poll after
/// the count reaches zero swaps in the children in place, under the same
/// identifier — no string round trip, no rebuilt node.
pub fn client_poll(
    rt: &Runtime,
    cid: usize,
    id: u64,
    children_markup: &Vec<u8>,
    fallback: &Vec<u8>,
) -> (v: Rendered)
    requires
        cid < rt.contexts@.len(),
    ensures
        ({
            &&& v matches Rendered::Suspense(vid, inner)
            &&& vid == id
            &&& (*inner) matches Rendered::Markup(m)
            &&& m@ == (if rt.contexts@[cid as int].pending == 0 {
                children_markup@
            } else {
                fallback@
            })
        }),
{
    let body = if rt.ready(cid) {
        clone_bytes(children_markup)
    } else {
        clone_bytes(fallback)
    };
    Rendered::Suspense(id, Box::new(Rendered::Markup(body)))
}

} // verus!
