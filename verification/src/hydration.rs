//! Structural identifier allocation.
//!
//! During a render pass every suspense boundary is given an identifier from a
//! monotonically increasing cursor.  The sequence in which identifiers are
//! minted is a function of tree shape alone, so a client replaying the same
//! view tree re-derives exactly the identifiers the server used.  "Continue
//! from" resets the cursor to just past a previously minted identifier, so a
//! subtree rendered out of its original document position does not
//! desynchronize numbering.

use vstd::prelude::*;

verus! {

/// Allocator of strictly increasing structural identifiers for one render
/// pass.  `cursor` is the identifier the next mint will return.
#[derive(Clone, Copy)]
pub struct HydrationCtx {
    pub cursor: u64,
}

impl HydrationCtx {
    /// A fresh allocator, numbering from zero.
    pub fn new() -> (s: Self)
        ensures
            s.cursor == 0,
    {
        HydrationCtx { cursor: 0 }
    }

    /// Mint the next identifier and advance the cursor.
    pub fn next_component(&mut self) -> (id: u64)
        requires
            old(self).cursor < u64::MAX,
        ensures
            id == old(self).cursor,
            final(self).cursor == old(self).cursor + 1,
    {
        let id = self.cursor;
        self.cursor = self.cursor + 1;
        id
    }

    /// Resume numbering just past a previously minted identifier.
    pub fn continue_from(&mut self, id: u64)
        requires
            id < u64::MAX,
        ensures
            final(self).cursor == id + 1,
    {
        self.cursor = id + 1;
    }

    /// The identifier the next mint would return, without minting it.
    pub fn peek(&self) -> (id: u64)
        ensures
            id == self.cursor,
    {
        self.cursor
    }
}

/// Compare the identifier sequence the client minted against the server's.
/// Divergence is a hydration mismatch: attaching to the server markup would
/// pair the wrong nodes, so the caller degrades that subtree to a full
/// client re-render instead of attaching.
pub fn hydration_matches(server: &Vec<u64>, client: &Vec<u64>) -> (r: bool)
    ensures
        r == (server@ == client@),
{
    if server.len() != client.len() {
        return false;
    }
    let mut i: usize = 0;
    while i < server.len()
        invariant
            i <= server@.len(),
            server@.len() == client@.len(),
            forall|j: int| 0 <= j < i ==> #[trigger] server@[j] == client@[j],
        decreases server@.len() - i,
    {
        if server[i] != client[i] {
            return false;
        }
        i = i + 1;
    }
    proof {
        assert(server@ =~= client@);
    }
    true
}

} // verus!
