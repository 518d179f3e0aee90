use suspense_engine::hydration::{hydration_matches, HydrationCtx};
use suspense_engine::render::{
    minted_ids, render_in_order, render_initial, render_out_of_order, render_to_string,
};
use suspense_engine::runtime::{ResourceState, Runtime};
use suspense_engine::suspense_component::{client_poll, RenderMode, Rendered, Suspense};
use suspense_engine::tree::{Outcome, Tree};

fn text(s: &[u8]) -> Tree {
    Tree::Text(s.to_vec())
}

fn pair(a: Tree, b: Tree) -> Tree {
    Tree::Pair(Box::new(a), Box::new(b))
}

fn boundary(fallback: &[u8], children: Tree) -> Tree {
    Tree::Suspense(fallback.to_vec(), Box::new(children))
}

/// One boundary around a resource that resolves to `42`.
fn tree_42() -> Tree {
    boundary(b"loading", pair(text(b"value="), Tree::Resource(Outcome::Success(42))))
}

/// Two pending boundaries among plain text, the second nesting text and a
/// failing resource.
fn tree_two_boundaries() -> Tree {
    pair(
        text(b"a"),
        pair(
            boundary(b"f1", Tree::Resource(Outcome::Success(1))),
            pair(
                text(b"b"),
                boundary(b"f2", pair(text(b"x"), Tree::Resource(Outcome::Failure(2)))),
            ),
        ),
    )
}

#[test]
fn hydration_ids_are_strictly_increasing() {
    let mut hy = HydrationCtx::new();
    assert_eq!(hy.peek(), 0);
    assert_eq!(hy.next_component(), 0);
    assert_eq!(hy.next_component(), 1);
    hy.continue_from(10);
    assert_eq!(hy.peek(), 11);
    assert_eq!(hy.next_component(), 11);
}

#[test]
fn single_pass_renders_42() {
    let t = tree_42();
    let mut hy = HydrationCtx::new();
    let out = render_to_string(&t, &mut hy);
    assert_eq!(out, b"<s0>value=42</s0>".to_vec());
    assert_eq!(hy.peek(), 1);
}

#[test]
fn out_of_order_replaces_fallback_with_42() {
    let t = tree_42();
    let mut hy = HydrationCtx::new();
    let order = vec![0usize];
    let (initial, chunks) = render_out_of_order(&t, &mut hy, &order);
    assert_eq!(initial, b"<s0>loading</s0>".to_vec());
    assert_eq!(chunks.len(), 1);
    assert_eq!(chunks[0].0, 0);
    assert_eq!(chunks[0].1, b"<s0>value=42</s0>".to_vec());
}

#[test]
fn out_of_order_chunk_order_is_unconstrained() {
    let t = tree_two_boundaries();
    let mut hy = HydrationCtx::new();
    let order = vec![1usize, 0usize];
    let (initial, chunks) = render_out_of_order(&t, &mut hy, &order);
    assert_eq!(initial, b"a<s0>f1</s0>b<s1>f2</s1>".to_vec());
    // Every placeholder has exactly one chunk, later-registered first here.
    assert_eq!(chunks.len(), 2);
    assert_eq!(chunks[0].0, 1);
    assert_eq!(chunks[0].1, b"<s1>xerr:2</s1>".to_vec());
    assert_eq!(chunks[1].0, 0);
    assert_eq!(chunks[1].1, b"<s0>1</s0>".to_vec());
}

#[test]
fn in_order_concatenation_matches_single_pass() {
    let t = tree_two_boundaries();
    let mut hy = HydrationCtx::new();
    let chunks = render_in_order(&t, &mut hy);
    let mut joined: Vec<u8> = Vec::new();
    for c in &chunks {
        joined.extend_from_slice(c);
    }
    let mut hy2 = HydrationCtx::new();
    let single = render_to_string(&t, &mut hy2);
    assert_eq!(joined, single);
    assert_eq!(joined, b"a<s0>1</s0>b<s1>xerr:2</s1>".to_vec());
    // The stream was cut at each boundary that had to be waited for.
    assert!(chunks.len() > 1);
}

#[test]
fn identifier_sequences_are_deterministic() {
    let t = tree_two_boundaries();
    let mut hy1 = HydrationCtx::new();
    let ids1 = minted_ids(&t, &mut hy1);
    let mut hy2 = HydrationCtx::new();
    let ids2 = minted_ids(&t, &mut hy2);
    assert_eq!(ids1, ids2);
    assert_eq!(ids1, vec![0, 1]);
}

#[test]
fn no_resources_render_children_in_every_mode() {
    let t = boundary(b"fallback", pair(text(b"hi"), boundary(b"inner", text(b"there"))));
    // Initial streaming pass equals the settled single pass: no fallback.
    let mut hy = HydrationCtx::new();
    let mut initial: Vec<u8> = Vec::new();
    render_initial(&t, &mut hy, &mut initial);
    let mut hy2 = HydrationCtx::new();
    let single = render_to_string(&t, &mut hy2);
    assert_eq!(initial, single);
    assert_eq!(initial, b"<s0>hi<s1>there</s1></s0>".to_vec());
    // No placeholder, so no replacement chunk is owed.
    let mut hy3 = HydrationCtx::new();
    let order: Vec<usize> = Vec::new();
    let (_, chunks) = render_out_of_order(&t, &mut hy3, &order);
    assert!(chunks.is_empty());
    // The orchestrator shows children at once, in client and server modes.
    for mode in [
        RenderMode::Client,
        RenderMode::ServerString,
        RenderMode::OutOfOrder,
        RenderMode::InOrder,
    ] {
        let mut rt = Runtime::new();
        let mut hy4 = HydrationCtx::new();
        let children = pair(text(b"hi"), boundary(b"inner", text(b"there")));
        let v = Suspense(&mut rt, &mut hy4, b"fallback".to_vec(), &children, mode);
        match v {
            Rendered::Suspense(id, inner) => {
                assert_eq!(id, 0);
                match *inner {
                    Rendered::Markup(m) => assert_eq!(m, b"hi<s1>there</s1>".to_vec()),
                    _ => panic!("expected markup"),
                }
            }
            _ => panic!("expected a suspense node"),
        }
    }
}

#[test]
fn pending_resource_shows_fallback_and_counts_one() {
    let mut rt = Runtime::new();
    let mut hy = HydrationCtx::new();
    let children = pair(text(b"value="), Tree::Resource(Outcome::Success(42)));
    let v = Suspense(&mut rt, &mut hy, b"loading".to_vec(), &children, RenderMode::OutOfOrder);
    match v {
        Rendered::Suspense(id, inner) => {
            assert_eq!(id, 0);
            match *inner {
                Rendered::Markup(m) => assert_eq!(m, b"loading".to_vec()),
                _ => panic!("expected markup"),
            }
        }
        _ => panic!("expected a suspense node"),
    }
    assert_eq!(rt.contexts.len(), 1);
    assert_eq!(rt.pending_resources(0), 1);
    assert!(!rt.ready(0));
    // Sibling numbering continues past the boundary's subtree.
    assert_eq!(hy.peek(), 1);
}

#[test]
fn failed_resource_still_unblocks_the_boundary() {
    let mut rt = Runtime::new();
    let cid = rt.create_context();
    let rid = rt.create_resource(Some(cid), Outcome::Failure(7));
    assert!(!rt.ready(cid));
    assert_eq!(rt.read(rid), None);
    let freed = rt.settle(rid);
    // Failure settles like success: the boundary reaches ready...
    assert_eq!(freed, Some(cid));
    assert!(rt.ready(cid));
    // ...and the children observe an error value, not `42`.
    assert_eq!(rt.read(rid), Some(Outcome::Failure(7)));
    let t = boundary(b"loading", Tree::Resource(Outcome::Failure(7)));
    let mut hy = HydrationCtx::new();
    let out = render_to_string(&t, &mut hy);
    assert_eq!(out, b"<s0>err:7</s0>".to_vec());
}

#[test]
fn dispose_before_resolution_is_absorbed() {
    let mut rt = Runtime::new();
    let cid = rt.create_context();
    let rid = rt.create_resource(Some(cid), Outcome::Success(42));
    assert_eq!(rt.pending_resources(cid), 1);
    rt.dispose_context(cid);
    // The scope is gone; the late settlement must be a silent no-op.
    let freed = rt.settle(rid);
    assert_eq!(freed, None);
    assert!(!rt.contexts[cid].alive);
    assert_eq!(rt.contexts[cid].pending, 1);
    assert_eq!(rt.resources[rid].state, ResourceState::Resolved);
}

#[test]
fn inner_resolution_lets_outer_observe_zero() {
    let mut rt = Runtime::new();
    let t = boundary(b"outer-fb", boundary(b"inner-fb", Tree::Resource(Outcome::Success(5))));
    rt.evaluate(&t, None);
    let outer = 0usize;
    let inner = 1usize;
    // Nearest-enclosing registration: the inner boundary owns the read.
    assert_eq!(rt.pending_resources(outer), 0);
    assert_eq!(rt.pending_resources(inner), 1);
    let freed = rt.settle(0);
    assert_eq!(freed, Some(inner));
    assert!(rt.ready(inner));
    assert!(rt.ready(outer));
}

#[test]
fn settle_all_fires_each_pending_boundary_once() {
    let mut rt = Runtime::new();
    let t = tree_two_boundaries();
    rt.evaluate(&t, None);
    assert_eq!(rt.contexts.len(), 2);
    assert_eq!(rt.pending_resources(0), 1);
    assert_eq!(rt.pending_resources(1), 1);
    // Completion order reversed against registration order.
    let order = vec![1usize, 0usize];
    let fired = rt.settle_all(&order);
    assert_eq!(fired, vec![1, 0]);
    assert!(rt.ready(0));
    assert!(rt.ready(1));
    assert_eq!(rt.read(0), Some(Outcome::Success(1)));
    assert_eq!(rt.read(1), Some(Outcome::Failure(2)));
}

#[test]
fn refetch_on_key_change_suspends_again() {
    let mut rt = Runtime::new();
    let cid = rt.create_context();
    let rid = rt.create_resource(Some(cid), Outcome::Success(1));
    rt.settle(rid);
    assert!(rt.ready(cid));
    assert_eq!(rt.read(rid), Some(Outcome::Success(1)));
    // The reactive key changed: the operation fires again.
    rt.refetch(rid, Outcome::Success(2));
    assert!(!rt.ready(cid));
    assert_eq!(rt.read(rid), None);
    rt.settle(rid);
    assert!(rt.ready(cid));
    assert_eq!(rt.read(rid), Some(Outcome::Success(2)));
}

#[test]
fn resource_without_context_settles_quietly() {
    let mut rt = Runtime::new();
    let rid = rt.create_resource(None, Outcome::Success(9));
    let freed = rt.settle(rid);
    assert_eq!(freed, None);
    assert_eq!(rt.read(rid), Some(Outcome::Success(9)));
}

#[test]
fn client_poll_swaps_fallback_for_children_in_place() {
    let mut rt = Runtime::new();
    let mut hy = HydrationCtx::new();
    let children = Tree::Resource(Outcome::Success(42));
    let v = Suspense(&mut rt, &mut hy, b"loading".to_vec(), &children, RenderMode::Client);
    let id = match v {
        Rendered::Suspense(id, _) => id,
        _ => panic!("expected a suspense node"),
    };
    let cid = 0usize;
    let shown = b"42".to_vec();
    let fb = b"loading".to_vec();
    // Still pending: the fallback stays.
    match client_poll(&rt, cid, id, &shown, &fb) {
        Rendered::Suspense(vid, inner) => {
            assert_eq!(vid, id);
            match *inner {
                Rendered::Markup(m) => assert_eq!(m, fb),
                _ => panic!("expected markup"),
            }
        }
        _ => panic!("expected a suspense node"),
    }
    // The resource settles; the next poll swaps in the children.
    rt.settle(0);
    match client_poll(&rt, cid, id, &shown, &fb) {
        Rendered::Suspense(vid, inner) => {
            assert_eq!(vid, id);
            match *inner {
                Rendered::Markup(m) => assert_eq!(m, shown),
                _ => panic!("expected markup"),
            }
        }
        _ => panic!("expected a suspense node"),
    }
}

#[test]
fn hydration_mismatch_is_detected() {
    let t = tree_two_boundaries();
    let mut server_pass = HydrationCtx::new();
    let server = minted_ids(&t, &mut server_pass);
    let mut client_pass = HydrationCtx::new();
    let client = minted_ids(&t, &mut client_pass);
    assert!(hydration_matches(&server, &client));
    // A client replaying a different tree diverges and must re-render.
    let other = boundary(b"f", text(b"x"));
    let mut other_pass = HydrationCtx::new();
    let diverged = minted_ids(&other, &mut other_pass);
    assert!(!hydration_matches(&server, &diverged));
}

#[test]
fn continue_from_realigns_out_of_band_renders() {
    // A producer re-rendering a boundary's children continues numbering from
    // the boundary's identifier, minting the same inner identifiers as the
    // initial pass would have.
    let children = boundary(b"inner", text(b"deep"));
    let t = boundary(b"outer", children);
    let mut hy = HydrationCtx::new();
    let ids = minted_ids(&t, &mut hy);
    assert_eq!(ids, vec![0, 1]);
    let mut replay = HydrationCtx::new();
    replay.continue_from(0);
    let inner = boundary(b"inner", text(b"deep"));
    let ids2 = minted_ids(&inner, &mut replay);
    assert_eq!(ids2, vec![1]);
}
