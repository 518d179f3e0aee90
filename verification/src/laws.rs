//! The engine's cross-cutting guarantees, stated over the same spec
//! functions the drivers' contracts use.

use vstd::prelude::*;
use crate::tree::{
    Tree, content_markup, pending_ids, id_seq, flat_all, lemma_pending_ids_increasing,
};

verus! {

/// Identifier determinism: two identifier traces of the same static tree
/// from the same starting cursor are equal, whatever the render mode or the
/// resource timing of either pass — `minted_ids`' contract ties each trace
/// to `id_seq`, which depends on the tree and the cursor alone.
pub proof fn lemma_identifier_determinism(ids1: Seq<u64>, ids2: Seq<u64>, t: Tree, c: nat)
    requires
        ids1.len() == id_seq(t, c).len(),
        forall|k: int| 0 <= k < ids1.len() ==> (#[trigger] ids1[k]) as nat == id_seq(t, c)[k],
        ids2.len() == id_seq(t, c).len(),
        forall|k: int| 0 <= k < ids2.len() ==> (#[trigger] ids2[k]) as nat == id_seq(t, c)[k],
    ensures
        ids1 == ids2,
{
    assert forall|k: int| 0 <= k < ids1.len() implies ids1[k] == ids2[k] by {
        assert(ids1[k] as nat == id_seq(t, c)[k]);
        assert(ids2[k] as nat == id_seq(t, c)[k]);
    }
    assert(ids1 =~= ids2);
}

/// The replacement identifiers of an out-of-order emission: chunk `j`
/// replaces the placeholder `order[j]` names.
pub open spec fn emitted_ids(t: Tree, c: nat, order: Seq<usize>) -> Seq<nat> {
    Seq::new(order.len(), |j: int| pending_ids(t, c)[order[j] as int])
}

/// Out-of-order completeness: with the chunks emitted in completion order
/// `order` — any permutation of the placeholders, since resources finish in
/// any order — every placeholder identifier of the initial pass has exactly
/// one replacement chunk: each is covered, and no identifier is replaced
/// twice.
pub proof fn lemma_out_of_order_coverage(t: Tree, c: nat, order: Seq<usize>)
    requires
        pending_ids(t, c).len() <= usize::MAX,
        order.len() == pending_ids(t, c).len(),
        forall|j: int| 0 <= j < order.len() ==> (#[trigger] order[j]) < pending_ids(t, c).len(),
        order.no_duplicates(),
        forall|i: usize| (i as int) < pending_ids(t, c).len() ==> order.contains(i),
    ensures
        emitted_ids(t, c, order).len() == pending_ids(t, c).len(),
        forall|i: int|
            0 <= i < pending_ids(t, c).len() ==> emitted_ids(t, c, order).contains(
                #[trigger] pending_ids(t, c)[i],
            ),
        emitted_ids(t, c, order).no_duplicates(),
{
    lemma_pending_ids_increasing(t, c);
    let emitted = emitted_ids(t, c, order);
    assert forall|i: int| 0 <= i < pending_ids(t, c).len() implies emitted.contains(
        #[trigger] pending_ids(t, c)[i],
    ) by {
        let iu = i as usize;
        assert(iu as int == i);
        assert(order.contains(iu));
        let j = choose|j: int| 0 <= j < order.len() && order[j] == iu;
        assert(emitted[j] == pending_ids(t, c)[i]);
    }
    assert forall|j1: int, j2: int|
        0 <= j1 < emitted.len() && 0 <= j2 < emitted.len() && j1 != j2 implies emitted[j1]
        != emitted[j2] by {
        assert(order[j1] != order[j2]);
        if (order[j1] as int) < (order[j2] as int) {
            assert(pending_ids(t, c)[order[j1] as int] < pending_ids(t, c)[order[j2] as int]);
        } else {
            assert(pending_ids(t, c)[order[j2] as int] < pending_ids(t, c)[order[j1] as int]);
        }
    }
}

/// Ordering preservation: the concatenated in-order byte stream equals the
/// single-pass server string — both drivers' contracts name the same
/// `content_markup`, for any number of nested boundaries and whatever chunk
/// cuts the resolution timing forced.
pub proof fn lemma_in_order_matches_single_pass(
    chunks: Seq<Vec<u8>>,
    single: Seq<u8>,
    t: Tree,
    c: nat,
)
    requires
        flat_all(chunks) == content_markup(t, c),
        single == content_markup(t, c),
    ensures
        flat_all(chunks) == single,
{
}

} // verus!
