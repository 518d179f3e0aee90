//! The four render drivers.
//!
//! All four consume the same tree and the same identifier allocator:
//! `render_to_string` is the single-pass server string (the caller drives
//! every resource to resolution first), `render_initial` is the immediate
//! first pass of the streaming modes (fallbacks in place of pending
//! boundaries), `render_out_of_order` adds the replacement chunks in
//! whatever completion order the caller observed, and `render_in_order`
//! yields chunks whose concatenation is exactly the single-pass output.
//! `minted_ids` is the identifier trace of a pass: its contract mentions no
//! resource state at all, which is the determinism the hydration contract
//! needs.

use vstd::prelude::*;
use crate::hydration::HydrationCtx;
use crate::tree::{
    Tree, Outcome, n_bounds, own_res, dec_digits, mark_open, mark_close, outcome_markup,
    content_markup, initial_markup, pending_ids, chunk_seq, id_seq, flat_all,
    lemma_pending_chunk_len,
};

verus! {

/// Append the bytes of `src` to `dst`.
pub fn append_bytes(dst: &mut Vec<u8>, src: &Vec<u8>)
    ensures
        final(dst)@ == old(dst)@ + src@,
{
    let mut i: usize = 0;
    while i < src.len()
        invariant
            i <= src@.len(),
            dst@ == old(dst)@ + src@.subrange(0, i as int),
        decreases src@.len() - i,
    {
        proof {
            assert(src@.subrange(0, i + 1 as int) =~= src@.subrange(0, i as int).push(
                src@[i as int],
            ));
        }
        dst.push(src[i]);
        i = i + 1;
    }
    proof {
        assert(src@.subrange(0, src@.len() as int) =~= src@);
    }
}

/// A fresh vector with the same bytes.
pub fn clone_bytes(src: &Vec<u8>) -> (r: Vec<u8>)
    ensures
        r@ == src@,
{
    let mut r: Vec<u8> = Vec::new();
    append_bytes(&mut r, src);
    proof {
        assert(Seq::<u8>::empty() + src@ =~= src@);
    }
    r
}

/// Append the decimal digits of `n`.
pub fn push_dec(out: &mut Vec<u8>, n: u64)
    ensures
        final(out)@ == old(out)@ + dec_digits(n as nat),
    decreases n,
{
    if n < 10 {
        out.push((48 + n) as u8);
        proof {
            assert(out@ =~= old(out)@ + dec_digits(n as nat));
        }
    } else {
        push_dec(out, n / 10);
        out.push((48 + n % 10) as u8);
        proof {
            assert(out@ =~= old(out)@ + dec_digits(n as nat));
        }
    }
}

/// Append a boundary's opening marker.
pub fn push_mark_open(out: &mut Vec<u8>, id: u64)
    ensures
        final(out)@ == old(out)@ + mark_open(id as nat),
{
    out.push(60);
    out.push(115);
    push_dec(out, id);
    out.push(62);
    proof {
        assert(out@ =~= old(out)@ + mark_open(id as nat));
    }
}

/// Append a boundary's closing marker.
pub fn push_mark_close(out: &mut Vec<u8>, id: u64)
    ensures
        final(out)@ == old(out)@ + mark_close(id as nat),
{
    out.push(60);
    out.push(47);
    out.push(115);
    push_dec(out, id);
    out.push(62);
    proof {
        assert(out@ =~= old(out)@ + mark_close(id as nat));
    }
}

/// Append the markup of a settled outcome.
pub fn push_outcome(out: &mut Vec<u8>, o: &Outcome)
    ensures
        final(out)@ == old(out)@ + outcome_markup(*o),
{
    match o {
        Outcome::Success(v) => {
            push_dec(out, *v);
        }
        Outcome::Failure(e) => {
            out.push(101);
            out.push(114);
            out.push(114);
            out.push(58);
            push_dec(out, *e);
            proof {
                assert(out@ =~= old(out)@ + outcome_markup(*o));
            }
        }
    }
}

/// Whether any resource read registers with this subtree's nearest
/// enclosing boundary.
pub fn has_own_res(t: &Tree) -> (r: bool)
    ensures
        r == (own_res(*t) > 0),
    decreases *t,
{
    match t {
        Tree::Text(_) => false,
        Tree::Pair(a, b) => {
            if has_own_res(a) {
                true
            } else {
                has_own_res(b)
            }
        }
        Tree::Resource(_) => true,
        Tree::Suspense(_, _) => false,
    }
}

/// The number of boundaries in the subtree.
pub fn bounds_in(t: &Tree) -> (n: u64)
    requires
        n_bounds(*t) <= u64::MAX,
    ensures
        n == n_bounds(*t),
    decreases *t,
{
    match t {
        Tree::Text(_) => 0,
        Tree::Pair(a, b) => bounds_in(a) + bounds_in(b),
        Tree::Resource(_) => 0,
        Tree::Suspense(_, ch) => 1 + bounds_in(ch),
    }
}

/// Render the subtree with every resource settled: the single-pass server
/// output, appended to `out`.
pub fn render_content(t: &Tree, hy: &mut HydrationCtx, out: &mut Vec<u8>)
    requires
        old(hy).cursor as nat + n_bounds(*t) <= u64::MAX,
    ensures
        final(out)@ == old(out)@ + content_markup(*t, old(hy).cursor as nat),
        final(hy).cursor == old(hy).cursor + n_bounds(*t),
    decreases *t,
{
    match t {
        Tree::Text(s) => {
            append_bytes(out, s);
        }
        Tree::Pair(a, b) => {
            render_content(a, hy, out);
            render_content(b, hy, out);
            proof {
                assert(out@ =~= old(out)@ + content_markup(*t, old(hy).cursor as nat));
            }
        }
        Tree::Resource(o) => {
            push_outcome(out, o);
        }
        Tree::Suspense(_, ch) => {
            let id = hy.next_component();
            push_mark_open(out, id);
            render_content(ch, hy, out);
            push_mark_close(out, id);
            proof {
                assert(out@ =~= old(out)@ + content_markup(*t, old(hy).cursor as nat));
            }
        }
    }
}

/// Render the initial streaming pass, appended to `out`: pending reads
/// render nothing yet, and a boundary with pending resources of its own
/// shows its fallback — while its identifier cursor still skips the whole
/// subtree, so later siblings mint the same identifiers they would in any
/// other pass.
pub fn render_initial(t: &Tree, hy: &mut HydrationCtx, out: &mut Vec<u8>)
    requires
        old(hy).cursor as nat + n_bounds(*t) <= u64::MAX,
    ensures
        final(out)@ == old(out)@ + initial_markup(*t, old(hy).cursor as nat),
        final(hy).cursor == old(hy).cursor + n_bounds(*t),
    decreases *t,
{
    match t {
        Tree::Text(s) => {
            append_bytes(out, s);
        }
        Tree::Pair(a, b) => {
            render_initial(a, hy, out);
            render_initial(b, hy, out);
            proof {
                assert(out@ =~= old(out)@ + initial_markup(*t, old(hy).cursor as nat));
            }
        }
        Tree::Resource(_) => {
            proof {
                assert(old(out)@ + initial_markup(*t, old(hy).cursor as nat) =~= old(out)@);
            }
        }
        Tree::Suspense(f, ch) => {
            let id = hy.next_component();
            push_mark_open(out, id);
            if has_own_res(ch) {
                append_bytes(out, f);
                push_mark_close(out, id);
                let nb = bounds_in(ch);
                hy.continue_from(id + nb);
            } else {
                render_initial(ch, hy, out);
                push_mark_close(out, id);
            }
            proof {
                assert(out@ =~= old(out)@ + initial_markup(*t, old(hy).cursor as nat));
            }
        }
    }
}

/// Single-pass server rendering: one complete string, assuming the caller
/// has driven every resource to resolution first.
pub fn render_to_string(t: &Tree, hy: &mut HydrationCtx) -> (out: Vec<u8>)
    requires
        old(hy).cursor as nat + n_bounds(*t) <= u64::MAX,
    ensures
        out@ == content_markup(*t, old(hy).cursor as nat),
        final(hy).cursor == old(hy).cursor + n_bounds(*t),
{
    let mut out: Vec<u8> = Vec::new();
    render_content(t, hy, &mut out);
    proof {
        assert(Seq::<u8>::empty() + content_markup(*t, old(hy).cursor as nat) =~= content_markup(
            *t,
            old(hy).cursor as nat,
        ));
    }
    out
}

/// The deferred producers of the initial pass, in document order: for each
/// boundary that showed its fallback, its identifier and the settled markup
/// of the whole boundary.  Each producer continues identifier numbering
/// from the boundary's own identifier, exactly as the original pass did.
pub fn collect_pending(t: &Tree, hy: &mut HydrationCtx, acc: &mut Vec<(u64, Vec<u8>)>)
    requires
        old(hy).cursor as nat + n_bounds(*t) <= u64::MAX,
        old(acc)@.len() + n_bounds(*t) <= usize::MAX,
    ensures
        final(hy).cursor == old(hy).cursor + n_bounds(*t),
        final(acc)@.len() == old(acc)@.len() + pending_ids(*t, old(hy).cursor as nat).len(),
        forall|i: int| 0 <= i < old(acc)@.len() ==> #[trigger] final(acc)@[i] == old(acc)@[i],
        forall|k: int|
            0 <= k < pending_ids(*t, old(hy).cursor as nat).len() ==> (#[trigger] final(acc)@[old(acc)@.len() + k]).0 as nat == pending_ids(*t, old(hy).cursor as nat)[k]
                && final(acc)@[old(acc)@.len() + k].1@ == chunk_seq(*t, old(hy).cursor as nat)[k],
    decreases *t,
{
    proof {
        lemma_pending_chunk_len(*t, old(hy).cursor as nat);
        crate::tree::lemma_pending_ids_increasing(*t, old(hy).cursor as nat);
    }
    match t {
        Tree::Text(_) => {}
        Tree::Pair(a, b) => {
            let ghost c = hy.cursor as nat;
            let ghost acc0 = acc@;
            proof {
                lemma_pending_chunk_len(**a, c);
                crate::tree::lemma_pending_ids_increasing(**a, c);
            }
            collect_pending(a, hy, acc);
            let ghost acc1 = acc@;
            proof {
                crate::tree::lemma_pending_le_bounds(**a, c);
                crate::tree::lemma_pending_le_bounds(**b, c + n_bounds(**a));
            }
            collect_pending(b, hy, acc);
            proof {
                let pa = pending_ids(**a, c);
                let pb = pending_ids(**b, c + n_bounds(**a));
                assert forall|k: int| 0 <= k < pending_ids(*t, c).len() implies (#[trigger] acc@[
                    acc0.len() + k]).0 as nat == pending_ids(*t, c)[k] && acc@[acc0.len() + k].1@
                    == chunk_seq(*t, c)[k] by {
                    if k < pa.len() {
                        assert(pending_ids(*t, c)[k] == pa[k]);
                        assert(chunk_seq(*t, c)[k] == chunk_seq(**a, c)[k]);
                        assert(acc@[acc0.len() + k] == acc1[acc0.len() + k]);
                    } else {
                        assert(pending_ids(*t, c)[k] == pb[k - pa.len()]);
                        assert(chunk_seq(*t, c)[k] == chunk_seq(**b, c + n_bounds(**a))[k
                            - pa.len()]);
                        assert((acc@[acc1.len() + (k - pa.len())]).0 as nat == pb[k - pa.len()]);
                    }
                }
            }
        }
        Tree::Resource(_) => {}
        Tree::Suspense(_, ch) => {
            let id = hy.next_component();
            if has_own_res(ch) {
                let mut body: Vec<u8> = Vec::new();
                push_mark_open(&mut body, id);
                let mut producer_ids = HydrationCtx::new();
                producer_ids.continue_from(id);
                render_content(ch, &mut producer_ids, &mut body);
                push_mark_close(&mut body, id);
                proof {
                    assert(body@ =~= mark_open(id as nat) + content_markup(
                        **ch,
                        id as nat + 1,
                    ) + mark_close(id as nat));
                }
                acc.push((id, body));
                let nb = bounds_in(ch);
                hy.continue_from(id + nb);
                proof {
                    assert(acc@[old(acc)@.len() as int].1@ == chunk_seq(*t, old(hy).cursor as nat)[0]);
                }
            } else {
                collect_pending(ch, hy, acc);
                proof {
                    assert forall|k: int| 0 <= k < pending_ids(*t, old(hy).cursor as nat).len()
                        implies (#[trigger] acc@[old(acc)@.len() + k]).0 as nat == pending_ids(
                        *t,
                        old(hy).cursor as nat,
                    )[k] && acc@[old(acc)@.len() + k].1@ == chunk_seq(*t, old(hy).cursor as nat)[k] by {
                        assert(pending_ids(*t, old(hy).cursor as nat)[k] == pending_ids(
                            **ch,
                            old(hy).cursor as nat + 1,
                        )[k]);
                        assert(chunk_seq(*t, old(hy).cursor as nat)[k] == chunk_seq(
                            **ch,
                            old(hy).cursor as nat + 1,
                        )[k]);
                    }
                }
            }
        }
    }
}

/// Out-of-order streaming: the immediate document with fallbacks in place,
/// and one replacement chunk per placeholder, emitted in whatever order the
/// boundaries' resources finished — `order[j]` names the placeholder whose
/// chunk is emitted `j`-th.
pub fn render_out_of_order(t: &Tree, hy: &mut HydrationCtx, order: &Vec<usize>) -> (r: (
    Vec<u8>,
    Vec<(u64, Vec<u8>)>,
))
    requires
        old(hy).cursor as nat + n_bounds(*t) <= u64::MAX,
        n_bounds(*t) <= usize::MAX,
        order@.len() == pending_ids(*t, old(hy).cursor as nat).len(),
        forall|j: int|
            0 <= j < order@.len() ==> (#[trigger] order@[j]) < pending_ids(
                *t,
                old(hy).cursor as nat,
            ).len(),
    ensures
        r.0@ == initial_markup(*t, old(hy).cursor as nat),
        r.1@.len() == order@.len(),
        forall|j: int|
            0 <= j < order@.len() ==> (#[trigger] r.1@[j]).0 as nat == pending_ids(
                *t,
                old(hy).cursor as nat,
            )[order@[j] as int] && r.1@[j].1@ == chunk_seq(*t, old(hy).cursor as nat)[order@[j] as int],
        final(hy).cursor == old(hy).cursor + n_bounds(*t),
{
    let ghost c = hy.cursor as nat;
    let start = hy.peek();
    let mut initial: Vec<u8> = Vec::new();
    render_initial(t, hy, &mut initial);
    proof {
        assert(Seq::<u8>::empty() + initial_markup(*t, c) =~= initial_markup(*t, c));
        lemma_pending_chunk_len(*t, c);
        crate::tree::lemma_pending_ids_increasing(*t, c);
    }
    let mut producer_ids = HydrationCtx { cursor: start };
    let mut pairs: Vec<(u64, Vec<u8>)> = Vec::new();
    collect_pending(t, &mut producer_ids, &mut pairs);
    proof {
        assert forall|k: int| 0 <= k < pending_ids(*t, c).len() implies (#[trigger] pairs@[k]).0
            as nat == pending_ids(*t, c)[k] && pairs@[k].1@ == chunk_seq(*t, c)[k] by {
            assert((pairs@[0 + k]).0 as nat == pending_ids(*t, c)[k]);
            assert(pairs@[0 + k].1@ == chunk_seq(*t, c)[k]);
        }
    }
    let mut chunks: Vec<(u64, Vec<u8>)> = Vec::new();
    let mut j: usize = 0;
    while j < order.len()
        invariant
            j <= order@.len(),
            order@.len() == pending_ids(*t, c).len(),
            forall|i: int|
                0 <= i < order@.len() ==> (#[trigger] order@[i]) < pending_ids(*t, c).len(),
            pairs@.len() == pending_ids(*t, c).len(),
            forall|k: int|
                0 <= k < pending_ids(*t, c).len() ==> (#[trigger] pairs@[k]).0 as nat
                    == pending_ids(*t, c)[k] && pairs@[k].1@ == chunk_seq(*t, c)[k],
            chunks@.len() == j,
            forall|i: int|
                0 <= i < j ==> (#[trigger] chunks@[i]).0 as nat == pending_ids(*t, c)[order@[i] as int]
                    && chunks@[i].1@ == chunk_seq(*t, c)[order@[i] as int],
        decreases order@.len() - j,
    {
        let k = order[j];
        let id = pairs[k].0;
        let body = clone_bytes(&pairs[k].1);
        chunks.push((id, body));
        j = j + 1;
    }
    (initial, chunks)
}

/// In-order streaming of one subtree: bytes accumulate in `cur`, and each
/// pending boundary flushes what was emitted before it as a chunk — the
/// stream holds further bytes back until the boundary settles — then its
/// settled content follows as its own chunks.  Whatever the chunk cuts, the
/// concatenation is the settled content of the subtree.
fn in_order_rec(t: &Tree, hy: &mut HydrationCtx, chunks: &mut Vec<Vec<u8>>, cur: Vec<u8>) -> (cur2:
    Vec<u8>)
    requires
        old(hy).cursor as nat + n_bounds(*t) <= u64::MAX,
    ensures
        flat_all(final(chunks)@) + cur2@ == flat_all(old(chunks)@) + cur@ + content_markup(
            *t,
            old(hy).cursor as nat,
        ),
        final(hy).cursor == old(hy).cursor + n_bounds(*t),
    decreases *t,
{
    let ghost cur0 = cur@;
    match t {
        Tree::Text(s) => {
            let mut cur = cur;
            append_bytes(&mut cur, s);
            proof {
                assert(flat_all(chunks@) + cur@ =~= flat_all(chunks@) + cur0 + content_markup(
                    *t,
                    old(hy).cursor as nat,
                ));
            }
            cur
        }
        Tree::Pair(a, b) => {
            let cur = in_order_rec(a, hy, chunks, cur);
            let cur = in_order_rec(b, hy, chunks, cur);
            proof {
                assert(flat_all(chunks@) + cur@ =~= flat_all(old(chunks)@) + cur0
                    + content_markup(*t, old(hy).cursor as nat));
            }
            cur
        }
        Tree::Resource(o) => {
            let mut cur = cur;
            push_outcome(&mut cur, o);
            proof {
                assert(flat_all(chunks@) + cur@ =~= flat_all(chunks@) + cur0 + content_markup(
                    *t,
                    old(hy).cursor as nat,
                ));
            }
            cur
        }
        Tree::Suspense(_, ch) => {
            let ghost c = hy.cursor as nat;
            let id = hy.next_component();
            proof {
                assert(content_markup(*t, c) == mark_open(c) + content_markup(**ch, c + 1)
                    + mark_close(c));
            }
            if has_own_res(ch) {
                let mut cur = cur;
                push_mark_open(&mut cur, id);
                let ghost flushed = chunks@;
                chunks.push(cur);
                let ghost chunks1 = chunks@;
                proof {
                    assert(chunks1.drop_last() =~= flushed);
                    assert(flat_all(chunks1) == flat_all(flushed) + (cur0 + mark_open(c)));
                }
                let fresh: Vec<u8> = Vec::new();
                let ghost fresh0 = fresh@;
                let mut cur2 = in_order_rec(ch, hy, chunks, fresh);
                let ghost cur2pre = cur2@;
                let ghost chunks2 = chunks@;
                push_mark_close(&mut cur2, id);
                proof {
                    assert(flat_all(chunks2) + cur2pre == flat_all(chunks1) + fresh0
                        + content_markup(**ch, c + 1));
                    assert(cur2@ == cur2pre + mark_close(c));
                    assert(fresh0 =~= Seq::<u8>::empty());
                    assert(flat_all(chunks2) + cur2@ =~= (flat_all(chunks2) + cur2pre)
                        + mark_close(c));
                    assert((flat_all(chunks2) + cur2pre) + mark_close(c) =~= ((flat_all(flushed)
                        + (cur0 + mark_open(c))) + fresh0 + content_markup(**ch, c + 1))
                        + mark_close(c));
                    assert(((flat_all(flushed) + (cur0 + mark_open(c))) + fresh0 + content_markup(
                        **ch,
                        c + 1,
                    )) + mark_close(c) =~= flat_all(flushed) + cur0 + (mark_open(c)
                        + content_markup(**ch, c + 1) + mark_close(c)));
                }
                cur2
            } else {
                let mut cur = cur;
                push_mark_open(&mut cur, id);
                let ghost cur1 = cur@;
                let mut cur2 = in_order_rec(ch, hy, chunks, cur);
                let ghost cur2pre = cur2@;
                let ghost chunks2 = chunks@;
                push_mark_close(&mut cur2, id);
                proof {
                    assert(flat_all(chunks2) + cur2pre == flat_all(old(chunks)@) + cur1
                        + content_markup(**ch, c + 1));
                    assert(cur2@ == cur2pre + mark_close(c));
                    assert(flat_all(chunks2) + cur2@ =~= (flat_all(chunks2) + cur2pre)
                        + mark_close(c));
                    assert((flat_all(chunks2) + cur2pre) + mark_close(c) =~= (flat_all(old(
                        chunks,
                    )@) + (cur0 + mark_open(c)) + content_markup(**ch, c + 1)) + mark_close(c));
                    assert((flat_all(old(chunks)@) + (cur0 + mark_open(c)) + content_markup(
                        **ch,
                        c + 1,
                    )) + mark_close(c) =~= flat_all(old(chunks)@) + cur0 + (mark_open(c)
                        + content_markup(**ch, c + 1) + mark_close(c)));
                }
                cur2
            }
        }
    }
}

/// In-order streaming: chunks in strict document order, splitting at every
/// boundary that had to be waited for.  Concatenated, the chunks are
/// exactly the single-pass server output — the ordering-preservation
/// guarantee.
pub fn render_in_order(t: &Tree, hy: &mut HydrationCtx) -> (chunks: Vec<Vec<u8>>)
    requires
        old(hy).cursor as nat + n_bounds(*t) <= u64::MAX,
    ensures
        flat_all(chunks@) == content_markup(*t, old(hy).cursor as nat),
        final(hy).cursor == old(hy).cursor + n_bounds(*t),
{
    let mut chunks: Vec<Vec<u8>> = Vec::new();
    let cur: Vec<u8> = Vec::new();
    let last = in_order_rec(t, hy, &mut chunks, cur);
    let ghost before = chunks@;
    chunks.push(last);
    proof {
        assert(chunks@.drop_last() =~= before);
        assert(flat_all(chunks@) == flat_all(before) + chunks@.last()@);
        assert(flat_all(before) + last@ =~= content_markup(*t, old(hy).cursor as nat));
    }
    chunks
}

/// The identifiers one render pass mints for `t`, in order.  The contract
/// speaks of the tree and the cursor alone — no resource state, no render
/// mode — which is exactly the hydration guarantee: a pass on the client
/// mints the same sequence the server's pass minted.
pub fn minted_ids(t: &Tree, hy: &mut HydrationCtx) -> (ids: Vec<u64>)
    requires
        old(hy).cursor as nat + n_bounds(*t) <= u64::MAX,
        n_bounds(*t) <= usize::MAX,
    ensures
        ids@.len() == id_seq(*t, old(hy).cursor as nat).len(),
        forall|k: int|
            0 <= k < ids@.len() ==> (#[trigger] ids@[k]) as nat == id_seq(
                *t,
                old(hy).cursor as nat,
            )[k],
        final(hy).cursor == old(hy).cursor + n_bounds(*t),
{
    let mut ids: Vec<u64> = Vec::new();
    minted_ids_rec(t, hy, &mut ids);
    proof {
        let ghost c = old(hy).cursor as nat;
        assert forall|k: int| 0 <= k < ids@.len() implies (#[trigger] ids@[k]) as nat == id_seq(
            *t,
            c,
        )[k] by {
            assert((ids@[0 + k]) as nat == id_seq(*t, c)[k]);
        }
    }
    ids
}

fn minted_ids_rec(t: &Tree, hy: &mut HydrationCtx, ids: &mut Vec<u64>)
    requires
        old(hy).cursor as nat + n_bounds(*t) <= u64::MAX,
        old(ids)@.len() + n_bounds(*t) <= usize::MAX,
    ensures
        final(ids)@.len() == old(ids)@.len() + id_seq(*t, old(hy).cursor as nat).len(),
        forall|i: int| 0 <= i < old(ids)@.len() ==> #[trigger] final(ids)@[i] == old(ids)@[i],
        forall|k: int|
            0 <= k < id_seq(*t, old(hy).cursor as nat).len() ==> (#[trigger] final(ids)@[old(ids)@.len() + k]) as nat == id_seq(*t, old(hy).cursor as nat)[k],
        final(hy).cursor == old(hy).cursor + n_bounds(*t),
    decreases *t,
{
    proof {
        crate::tree::lemma_id_seq_len(*t, old(hy).cursor as nat);
    }
    match t {
        Tree::Text(_) => {}
        Tree::Pair(a, b) => {
            let ghost c = hy.cursor as nat;
            let ghost ids0 = ids@;
            proof {
                crate::tree::lemma_id_seq_len(**a, c);
                crate::tree::lemma_id_seq_len(**b, c + n_bounds(**a));
            }
            minted_ids_rec(a, hy, ids);
            let ghost ids1 = ids@;
            minted_ids_rec(b, hy, ids);
            proof {
                let sa = id_seq(**a, c);
                let sb = id_seq(**b, c + n_bounds(**a));
                assert forall|k: int| 0 <= k < id_seq(*t, c).len() implies (#[trigger] ids@[
                    ids0.len() + k]) as nat == id_seq(*t, c)[k] by {
                    if k < sa.len() {
                        assert(id_seq(*t, c)[k] == sa[k]);
                        assert(ids@[ids0.len() + k] == ids1[ids0.len() + k]);
                    } else {
                        assert(id_seq(*t, c)[k] == sb[k - sa.len()]);
                        assert((ids@[ids1.len() + (k - sa.len())]) as nat == sb[k - sa.len()]);
                    }
                }
            }
        }
        Tree::Resource(_) => {}
        Tree::Suspense(_, ch) => {
            let ghost c = hy.cursor as nat;
            let id = hy.next_component();
            ids.push(id);
            let ghost ids1 = ids@;
            proof {
                crate::tree::lemma_id_seq_len(**ch, c + 1);
            }
            minted_ids_rec(ch, hy, ids);
            proof {
                assert forall|k: int| 0 <= k < id_seq(*t, c).len() implies (#[trigger] ids@[old(ids)@.len() + k]) as nat == id_seq(*t, c)[k] by {
                    if k == 0 {
                        assert(ids@[old(ids)@.len() as int] == ids1[old(ids)@.len() as int]);
                        assert(id_seq(*t, c)[0] == c);
                    } else {
                        assert(id_seq(*t, c)[k] == id_seq(**ch, c + 1)[k - 1]);
                        assert((ids@[ids1.len() + (k - 1)]) as nat == id_seq(**ch, c + 1)[k - 1]);
                    }
                }
            }
        }
    }
}

} // verus!
