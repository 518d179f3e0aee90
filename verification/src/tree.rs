//! The static view tree and the mathematical model of its markup.
//!
//! A `Tree` describes a view before any render pass: literal markup, sibling
//! composition, resource reads and suspense boundaries.  A `Resource` leaf
//! carries the outcome its asynchronous operation will eventually settle to;
//! the engine never assumes *when* that happens.  The spec functions here
//! define, as pure functions of the tree and the identifier cursor, the
//! markup of every render mode: `content_markup` for a pass in which every
//! resource has settled, `initial_markup` for the first streaming pass (a
//! boundary with pending resources of its own shows its fallback),
//! `pending_ids` and `chunk_seq` for the placeholders of the initial pass and
//! the replacement chunks that complete them, and `id_seq` for the sequence
//! of identifiers any pass mints.

use vstd::prelude::*;

verus! {

/// The settled result of a resource's asynchronous operation.  Failure still
/// settles: it unblocks suspense and is rendered as an error state by the
/// children, never thrown across the boundary.
#[derive(Clone, Copy, PartialEq, Eq, Structural, Debug)]
pub enum Outcome {
    Success(u64),
    Failure(u64),
}

/// A static view tree.
///
/// - `Text`: literal markup bytes.
/// - `Pair`: two subtrees in document order.
/// - `Resource`: a read of an asynchronous resource; the payload is the
///   outcome the operation eventually settles to.
/// - `Suspense`: a boundary with fallback markup and inner children.
pub enum Tree {
    Text(Vec<u8>),
    Pair(Box<Tree>, Box<Tree>),
    Resource(Outcome),
    Suspense(Vec<u8>, Box<Tree>),
}

/// Number of suspense boundaries in the subtree, itself included.
pub open spec fn n_bounds(t: Tree) -> nat
    decreases t,
{
    match t {
        Tree::Text(_) => 0,
        Tree::Pair(a, b) => n_bounds(*a) + n_bounds(*b),
        Tree::Resource(_) => 0,
        Tree::Suspense(_, ch) => 1 + n_bounds(*ch),
    }
}

/// Number of resource reads anywhere in the subtree.
pub open spec fn n_res(t: Tree) -> nat
    decreases t,
{
    match t {
        Tree::Text(_) => 0,
        Tree::Pair(a, b) => n_res(*a) + n_res(*b),
        Tree::Resource(_) => 1,
        Tree::Suspense(_, ch) => n_res(*ch),
    }
}

/// Number of resource reads that register with the *nearest enclosing*
/// boundary of this subtree: reads under a deeper boundary register there
/// instead, so an outer boundary never double-counts an inner one's
/// resources.
pub open spec fn own_res(t: Tree) -> nat
    decreases t,
{
    match t {
        Tree::Text(_) => 0,
        Tree::Pair(a, b) => own_res(*a) + own_res(*b),
        Tree::Resource(_) => 1,
        Tree::Suspense(_, _) => 0,
    }
}

/// Decimal digits of `n`, as ASCII bytes.
pub open spec fn dec_digits(n: nat) -> Seq<u8>
    decreases n,
{
    if n < 10 {
        seq![(48 + n) as u8]
    } else {
        dec_digits(n / 10).push((48 + n % 10) as u8)
    }
}

/// Opening marker of a boundary: `<s` then the identifier then `>`.
pub open spec fn mark_open(id: nat) -> Seq<u8> {
    seq![60u8, 115u8] + dec_digits(id) + seq![62u8]
}

/// Closing marker of a boundary: `</s` then the identifier then `>`.
pub open spec fn mark_close(id: nat) -> Seq<u8> {
    seq![60u8, 47u8, 115u8] + dec_digits(id) + seq![62u8]
}

/// Markup of a settled resource read: the value's digits on success, `err:`
/// and the error's code on failure.
pub open spec fn outcome_markup(o: Outcome) -> Seq<u8> {
    match o {
        Outcome::Success(v) => dec_digits(v as nat),
        Outcome::Failure(e) => seq![101u8, 114u8, 114u8, 58u8] + dec_digits(e as nat),
    }
}

/// Markup of the subtree once every resource has settled, minting boundary
/// identifiers from cursor `c` in document order.  This is what a single-pass
/// server render produces and what a completed stream amounts to.
pub open spec fn content_markup(t: Tree, c: nat) -> Seq<u8>
    decreases t,
{
    match t {
        Tree::Text(s) => s@,
        Tree::Pair(a, b) => content_markup(*a, c) + content_markup(*b, c + n_bounds(*a)),
        Tree::Resource(o) => outcome_markup(o),
        Tree::Suspense(_, ch) => mark_open(c) + content_markup(*ch, c + 1) + mark_close(c),
    }
}

/// Markup of the initial streaming pass, while every resource is still
/// pending: a pending read renders nothing yet, and a boundary whose children
/// register at least one resource with it shows its fallback between its
/// markers instead of its children.
pub open spec fn initial_markup(t: Tree, c: nat) -> Seq<u8>
    decreases t,
{
    match t {
        Tree::Text(s) => s@,
        Tree::Pair(a, b) => initial_markup(*a, c) + initial_markup(*b, c + n_bounds(*a)),
        Tree::Resource(_) => seq![],
        Tree::Suspense(f, ch) => if own_res(*ch) == 0 {
            mark_open(c) + initial_markup(*ch, c + 1) + mark_close(c)
        } else {
            mark_open(c) + f@ + mark_close(c)
        },
    }
}

/// Identifiers of the boundaries that show their fallback in the initial
/// pass, in document order.
pub open spec fn pending_ids(t: Tree, c: nat) -> Seq<nat>
    decreases t,
{
    match t {
        Tree::Text(_) => seq![],
        Tree::Pair(a, b) => pending_ids(*a, c) + pending_ids(*b, c + n_bounds(*a)),
        Tree::Resource(_) => seq![],
        Tree::Suspense(_, ch) => if own_res(*ch) == 0 {
            pending_ids(*ch, c + 1)
        } else {
            seq![c]
        },
    }
}

/// Replacement chunks of out-of-order streaming, in document order: for each
/// boundary that showed its fallback, the settled markup of the whole
/// boundary, numbered by continuing from the boundary's own identifier.
/// `chunk_seq(t, c)[k]` replaces the placeholder with `pending_ids(t, c)[k]`.
pub open spec fn chunk_seq(t: Tree, c: nat) -> Seq<Seq<u8>>
    decreases t,
{
    match t {
        Tree::Text(_) => seq![],
        Tree::Pair(a, b) => chunk_seq(*a, c) + chunk_seq(*b, c + n_bounds(*a)),
        Tree::Resource(_) => seq![],
        Tree::Suspense(_, ch) => if own_res(*ch) == 0 {
            chunk_seq(*ch, c + 1)
        } else {
            seq![mark_open(c) + content_markup(*ch, c + 1) + mark_close(c)]
        },
    }
}

/// The sequence of identifiers a render pass mints for the subtree, from
/// cursor `c`.  No render mode and no resource state appears here: minting
/// order is a function of tree shape and cursor alone.
pub open spec fn id_seq(t: Tree, c: nat) -> Seq<nat>
    decreases t,
{
    match t {
        Tree::Text(_) => seq![],
        Tree::Pair(a, b) => id_seq(*a, c) + id_seq(*b, c + n_bounds(*a)),
        Tree::Resource(_) => seq![],
        Tree::Suspense(_, ch) => seq![c] + id_seq(*ch, c + 1),
    }
}

/// Concatenation of a sequence of byte chunks.
pub open spec fn flat_all(cs: Seq<Vec<u8>>) -> Seq<u8>
    decreases cs.len(),
{
    if cs.len() == 0 {
        seq![]
    } else {
        flat_all(cs.drop_last()) + cs.last()@
    }
}

/// A subtree's nearest-boundary reads are among all its reads.
pub proof fn lemma_own_res_le(t: Tree)
    ensures
        own_res(t) <= n_res(t),
    decreases t,
{
    match t {
        Tree::Text(_) => {}
        Tree::Pair(a, b) => {
            lemma_own_res_le(*a);
            lemma_own_res_le(*b);
        }
        Tree::Resource(_) => {}
        Tree::Suspense(_, ch) => {}
    }
}

/// `pending_ids` and `chunk_seq` walk the tree in step: the placeholder list
/// and the chunk list always have the same length.
pub proof fn lemma_pending_chunk_len(t: Tree, c: nat)
    ensures
        pending_ids(t, c).len() == chunk_seq(t, c).len(),
    decreases t,
{
    match t {
        Tree::Text(_) => {}
        Tree::Pair(a, b) => {
            lemma_pending_chunk_len(*a, c);
            lemma_pending_chunk_len(*b, c + n_bounds(*a));
        }
        Tree::Resource(_) => {}
        Tree::Suspense(_, ch) => {
            if own_res(*ch) == 0 {
                lemma_pending_chunk_len(*ch, c + 1);
            }
        }
    }
}

/// At most one placeholder per boundary.
pub proof fn lemma_pending_le_bounds(t: Tree, c: nat)
    ensures
        pending_ids(t, c).len() <= n_bounds(t),
    decreases t,
{
    match t {
        Tree::Text(_) => {}
        Tree::Pair(a, b) => {
            lemma_pending_le_bounds(*a, c);
            lemma_pending_le_bounds(*b, c + n_bounds(*a));
        }
        Tree::Resource(_) => {}
        Tree::Suspense(_, ch) => {
            if own_res(*ch) == 0 {
                lemma_pending_le_bounds(*ch, c + 1);
            }
        }
    }
}

/// A pass mints exactly one identifier per boundary.
pub proof fn lemma_id_seq_len(t: Tree, c: nat)
    ensures
        id_seq(t, c).len() == n_bounds(t),
    decreases t,
{
    match t {
        Tree::Text(_) => {}
        Tree::Pair(a, b) => {
            lemma_id_seq_len(*a, c);
            lemma_id_seq_len(*b, c + n_bounds(*a));
        }
        Tree::Resource(_) => {}
        Tree::Suspense(_, ch) => {
            lemma_id_seq_len(*ch, c + 1);
        }
    }
}

/// Placeholder identifiers are strictly increasing in document order and lie
/// within the identifier range of the subtree that minted them.
pub proof fn lemma_pending_ids_increasing(t: Tree, c: nat)
    ensures
        forall|k: int|
            0 <= k < pending_ids(t, c).len() ==> c <= #[trigger] pending_ids(t, c)[k] < c
                + n_bounds(t),
        forall|k1: int, k2: int|
            0 <= k1 < k2 < pending_ids(t, c).len() ==> pending_ids(t, c)[k1] < pending_ids(
                t,
                c,
            )[k2],
    decreases t,
{
    match t {
        Tree::Text(_) => {}
        Tree::Pair(a, b) => {
            lemma_pending_ids_increasing(*a, c);
            lemma_pending_ids_increasing(*b, c + n_bounds(*a));
            let pa = pending_ids(*a, c);
            let pb = pending_ids(*b, c + n_bounds(*a));
            assert(forall|k: int|
                0 <= k < pending_ids(t, c).len() ==> #[trigger] pending_ids(t, c)[k] == (if k
                    < pa.len() {
                    pa[k]
                } else {
                    pb[k - pa.len()]
                }));
        }
        Tree::Resource(_) => {}
        Tree::Suspense(_, ch) => {
            if own_res(*ch) == 0 {
                lemma_pending_ids_increasing(*ch, c + 1);
                assert(forall|k: int|
                    0 <= k < pending_ids(t, c).len() ==> #[trigger] pending_ids(t, c)[k]
                        == pending_ids(*ch, c + 1)[k]);
            }
        }
    }
}

/// With no resources anywhere beneath it, a subtree renders its real content
/// already in the initial pass — no fallback is ever shown, no placeholder is
/// emitted and no replacement chunk is owed.
pub proof fn lemma_no_resources_immediate(t: Tree, c: nat)
    requires
        n_res(t) == 0,
    ensures
        initial_markup(t, c) == content_markup(t, c),
        pending_ids(t, c) == Seq::<nat>::empty(),
        chunk_seq(t, c) == Seq::<Seq<u8>>::empty(),
    decreases t,
{
    match t {
        Tree::Text(_) => {
            assert(pending_ids(t, c) =~= Seq::<nat>::empty());
            assert(chunk_seq(t, c) =~= Seq::<Seq<u8>>::empty());
        }
        Tree::Pair(a, b) => {
            lemma_no_resources_immediate(*a, c);
            lemma_no_resources_immediate(*b, c + n_bounds(*a));
            assert(pending_ids(t, c) =~= Seq::<nat>::empty());
            assert(chunk_seq(t, c) =~= Seq::<Seq<u8>>::empty());
        }
        Tree::Resource(_) => {}
        Tree::Suspense(_, ch) => {
            lemma_own_res_le(*ch);
            lemma_no_resources_immediate(*ch, c + 1);
        }
    }
}

} // verus!
