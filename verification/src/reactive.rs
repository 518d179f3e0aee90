//! The reactive graph: signals and the computations that observe them.
//!
//! A signal is a mutable cell with a version counter and a set of
//! subscriber computations.  Reading a signal inside a tracking scope
//! registers the reading computation as a subscriber; writing a signal
//! bumps its version and marks every live subscriber dirty, which is what
//! re-runs effects and re-fires resources whose input key changed.
//! Subscriptions hold computations as table indices checked for liveness —
//! a computation never keeps its sources alive, and marking a disposed
//! computation is a no-op.

use vstd::prelude::*;

verus! {

/// A mutable reactive cell: its current value, how often it was written,
/// and the computations observing it.
pub struct SignalSlot {
    pub value: u64,
    pub version: u64,
    pub subscribers: Vec<usize>,
}

/// A derived computation (an effect, a memo, a resource's re-fire hook):
/// alive until its owning scope is disposed, dirty when an observed signal
/// changed since it last ran.
#[derive(Clone, Copy, PartialEq, Eq, Structural, Debug)]
pub struct ComputationSlot {
    pub alive: bool,
    pub dirty: bool,
}

/// The signal and computation tables of one reactive system.
pub struct ReactiveGraph {
    pub signals: Vec<SignalSlot>,
    pub computations: Vec<ComputationSlot>,
}

impl ReactiveGraph {
    /// Every subscription points into the computation table.
    pub open spec fn wf(self) -> bool {
        forall|s: int, j: int|
            0 <= s < self.signals@.len() && 0 <= j < self.signals@[s].subscribers@.len() ==> (
            #[trigger] self.signals@[s].subscribers@[j] as int) < self.computations@.len()
    }

    pub fn new() -> (g: Self)
        ensures
            g.wf(),
            g.signals@.len() == 0,
            g.computations@.len() == 0,
    {
        ReactiveGraph { signals: Vec::new(), computations: Vec::new() }
    }

    /// A fresh cell with no subscribers yet.
    pub fn create_signal(&mut self, value: u64) -> (sid: usize)
        requires
            old(self).wf(),
        ensures
            final(self).wf(),
            sid == old(self).signals@.len(),
            final(self).signals@.len() == old(self).signals@.len() + 1,
            forall|s: int|
                0 <= s < old(self).signals@.len() ==> #[trigger] final(self).signals@[s] == old(self).signals@[s],
            final(self).signals@[sid as int].value == value,
            final(self).signals@[sid as int].version == 0,
            final(self).signals@[sid as int].subscribers@.len() == 0,
            final(self).computations@ == old(self).computations@,
    {
        let sid = self.signals.len();
        self.signals.push(SignalSlot { value, version: 0, subscribers: Vec::new() });
        sid
    }

    /// A fresh computation.  It starts dirty: it has not run yet.
    pub fn create_computation(&mut self) -> (cid: usize)
        requires
            old(self).wf(),
        ensures
            final(self).wf(),
            cid == old(self).computations@.len(),
            final(self).computations@ == old(self).computations@.push(
                ComputationSlot { alive: true, dirty: true },
            ),
            final(self).signals@ == old(self).signals@,
    {
        let cid = self.computations.len();
        self.computations.push(ComputationSlot { alive: true, dirty: true });
        cid
    }

    /// Whether `cid` already observes `sid`.
    pub fn subscribed(&self, sid: usize, cid: usize) -> (r: bool)
        requires
            sid < self.signals@.len(),
        ensures
            r == self.signals@[sid as int].subscribers@.contains(cid),
    {
        let subs = &self.signals[sid].subscribers;
        let mut i: usize = 0;
        while i < subs.len()
            invariant
                i <= subs@.len(),
                subs@ == self.signals@[sid as int].subscribers@,
                forall|j: int| 0 <= j < i ==> subs@[j] != cid,
            decreases subs@.len() - i,
        {
            if subs[i] == cid {
                return true;
            }
            i = i + 1;
        }
        false
    }

    /// Read a signal.  Outside a tracking scope this is just the value;
    /// inside one, the reading computation subscribes — once — so later
    /// writes reach it.
    pub fn read_signal(&mut self, sid: usize, observer: Option<usize>) -> (v: u64)
        requires
            old(self).wf(),
            sid < old(self).signals@.len(),
            observer matches Some(c) ==> (c as int) < old(self).computations@.len(),
        ensures
            final(self).wf(),
            v == old(self).signals@[sid as int].value,
            final(self).computations@ == old(self).computations@,
            final(self).signals@.len() == old(self).signals@.len(),
            forall|s: int|
                0 <= s < old(self).signals@.len() && s != sid as int ==> #[trigger] final(self).signals@[s] == old(self).signals@[s],
            final(self).signals@[sid as int].value == old(self).signals@[sid as int].value,
            final(self).signals@[sid as int].version == old(self).signals@[sid as int].version,
            final(self).signals@[sid as int].subscribers@ == (match observer {
                Option::Some(c) => if old(self).signals@[sid as int].subscribers@.contains(c) {
                    old(self).signals@[sid as int].subscribers@
                } else {
                    old(self).signals@[sid as int].subscribers@.push(c)
                },
                Option::None => old(self).signals@[sid as int].subscribers@,
            }),
    {
        match observer {
            Option::Some(c) => {
                if !self.subscribed(sid, c) {
                    let slot = &mut self.signals[sid];
                    slot.subscribers.push(c);
                }
            },
            Option::None => {},
        }
        self.signals[sid].value
    }

    /// Write a signal: store the value, bump the version, and mark every
    /// live subscriber dirty.  A subscriber whose scope was disposed is
    /// skipped — the handle is checked for liveness, never followed blindly.
    pub fn set_signal(&mut self, sid: usize, value: u64)
        requires
            old(self).wf(),
            sid < old(self).signals@.len(),
            old(self).signals@[sid as int].version < u64::MAX,
        ensures
            final(self).wf(),
            final(self).signals@.len() == old(self).signals@.len(),
            forall|s: int|
                0 <= s < old(self).signals@.len() && s != sid as int ==> #[trigger] final(self).signals@[s] == old(self).signals@[s],
            final(self).signals@[sid as int].value == value,
            final(self).signals@[sid as int].version == old(self).signals@[sid as int].version
                + 1,
            final(self).signals@[sid as int].subscribers@ == old(self).signals@[sid as int].subscribers@,
            final(self).computations@.len() == old(self).computations@.len(),
            forall|c: int|
                0 <= c < old(self).computations@.len() ==> (#[trigger] final(self).computations@[c]).alive == old(self).computations@[c].alive && final(self).computations@[c].dirty == (old(self).computations@[c].dirty || (old(self).computations@[c].alive && old(self).signals@[sid as int].subscribers@.contains(
                    c as usize,
                ))),
    {
        let slot = &mut self.signals[sid];
        slot.value = value;
        slot.version = slot.version + 1;
        let ghost subs = self.signals@[sid as int].subscribers@;
        let n = self.signals[sid].subscribers.len();
        let ncomp = self.computations.len();
        let mut i: usize = 0;
        while i < n
            invariant
                old(self).wf(),
                i <= n,
                ncomp == old(self).computations@.len(),
                n == subs.len(),
                self.signals@.len() == old(self).signals@.len(),
                sid < self.signals@.len(),
                self.signals@[sid as int].subscribers@ == subs,
                subs == old(self).signals@[sid as int].subscribers@,
                forall|s: int|
                    0 <= s < old(self).signals@.len() && s != sid as int ==> #[trigger] self.signals@[s]
                        == old(self).signals@[s],
                self.signals@[sid as int].value == value,
                self.signals@[sid as int].version == old(self).signals@[sid as int].version + 1,
                self.computations@.len() == old(self).computations@.len(),
                forall|c: int|
                    0 <= c < old(self).computations@.len() ==> (#[trigger] self.computations@[c]).alive
                        == old(self).computations@[c].alive && self.computations@[c].dirty == (old(self).computations@[c].dirty || (old(self).computations@[c].alive
                        && subs.subrange(0, i as int).contains(c as usize))),
            decreases n - i,
        {
            let cid = self.signals[sid].subscribers[i];
            let ghost pre = self.computations@;
            if self.computations[cid].alive {
                let dirty_slot = &mut self.computations[cid];
                dirty_slot.dirty = true;
            }
            i = i + 1;
            proof {
                let sub_new = subs.subrange(0, i as int);
                let sub_old = subs.subrange(0, i as int - 1);
                assert(sub_new =~= sub_old.push(subs[i as int - 1]));
                assert forall|c: usize| #[trigger] sub_new.contains(c) implies (sub_old.contains(c)
                    || c == subs[i as int - 1]) by {
                    let j = choose|j: int| 0 <= j < sub_new.len() && sub_new[j] == c;
                    if j < sub_new.len() - 1 {
                        assert(sub_old[j] == c);
                    }
                }
                assert forall|c: usize| (sub_old.contains(c) || c == subs[i as int - 1])
                    implies #[trigger] sub_new.contains(c) by {
                    if sub_old.contains(c) {
                        let j = choose|j: int| 0 <= j < sub_old.len() && sub_old[j] == c;
                        assert(sub_new[j] == c);
                    } else {
                        assert(sub_new[sub_new.len() - 1] == c);
                    }
                }
                assert forall|c: int| 0 <= c < old(self).computations@.len() implies ((
                #[trigger] self.computations@[c]).alive == old(self).computations@[c].alive
                    && self.computations@[c].dirty == (old(self).computations@[c].dirty || (old(self).computations@[c].alive && sub_new.contains(c as usize)))) by {
                    let cu = c as usize;
                    assert(cu as int == c);
                    if c == cid as int {
                        assert(sub_new.contains(cid));
                    } else {
                        assert(self.computations@[c] == pre[c]);
                    }
                }
            }
        }
        proof {
            assert(subs.subrange(0, n as int) =~= subs);
        }
    }

    /// Observe and clear a computation's dirty flag: the caller is about to
    /// re-run it.
    pub fn take_dirty(&mut self, cid: usize) -> (was: bool)
        requires
            old(self).wf(),
            cid < old(self).computations@.len(),
        ensures
            final(self).wf(),
            was == old(self).computations@[cid as int].dirty,
            final(self).computations@ == old(self).computations@.update(
                cid as int,
                ComputationSlot { alive: old(self).computations@[cid as int].alive, dirty: false },
            ),
            final(self).signals@ == old(self).signals@,
    {
        let was = self.computations[cid].dirty;
        let alive = self.computations[cid].alive;
        self.computations[cid] = ComputationSlot { alive, dirty: false };
        was
    }

    /// Dispose a computation's scope.  Its subscriptions remain as dead
    /// handles that later writes skip; it is never marked dirty again.
    pub fn dispose_computation(&mut self, cid: usize)
        requires
            old(self).wf(),
            cid < old(self).computations@.len(),
        ensures
            final(self).wf(),
            final(self).computations@ == old(self).computations@.update(
                cid as int,
                ComputationSlot { alive: false, dirty: old(self).computations@[cid as int].dirty },
            ),
            final(self).signals@ == old(self).signals@,
    {
        let dirty = self.computations[cid].dirty;
        self.computations[cid] = ComputationSlot { alive: false, dirty };
    }
}

} // verus!
