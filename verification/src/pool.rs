//! Pooled, multi-tenant runtimes: a collection of independent runtime
//! instances keyed by a session identifier, for a host process serving many
//! mutually isolated reactive graphs. Isolation is per session: an entry is
//! created on connect, addressed by its key, and destroyed on disconnect;
//! no state is ever shared between entries.

use vstd::prelude::*;

use crate::ReactorError;
use crate::runtime::SingleClientRuntime;

verus! {

/// One pooled session: its identifier and its own runtime.
#[derive(Debug)]
pub struct PoolEntry {
    pub key: u64,
    pub rt: SingleClientRuntime,
}

/// The collection of sessions.
#[derive(Debug)]
pub struct PooledRuntime {
    pub sessions: Vec<PoolEntry>,
}

/// The session identifiers, in creation order.
pub open spec fn pool_keys(entries: Seq<PoolEntry>) -> Seq<u64> {
    entries.map_values(|e: PoolEntry| e.key)
}

impl PooledRuntime {
    /// No identifier names two sessions.
    pub open spec fn wf(&self) -> bool {
        forall|i: int, j: int|
            0 <= i < j < self.sessions@.len() ==> (#[trigger] self.sessions@[i]).key != (
            #[trigger] self.sessions@[j]).key
    }

    /// An empty pool.
    pub fn new() -> (r: PooledRuntime)
        ensures
            r.wf(),
            r.sessions@.len() == 0,
    {
        PooledRuntime { sessions: Vec::new() }
    }

    /// Finds the session named by `key`.
    pub fn session_index(&self, key: u64) -> (r: Option<usize>)
        ensures
            match r {
                Some(ix) => ix < self.sessions@.len() && self.sessions@[ix as int].key == key,
                None => forall|i: int|
                    0 <= i < self.sessions@.len() ==> (#[trigger] self.sessions@[i]).key != key,
            },
    {
        let mut i: usize = 0;
        while i < self.sessions.len()
            invariant
                i <= self.sessions@.len(),
                forall|j: int| 0 <= j < i ==> (#[trigger] self.sessions@[j]).key != key,
            decreases self.sessions@.len() - i,
        {
            if self.sessions[i].key == key {
                return Some(i);
            }
            i += 1;
        }
        None
    }

    /// Whether a session named `key` exists.
    pub fn contains_session(&self, key: u64) -> (r: bool)
        ensures
            r == pool_keys(self.sessions@).contains(key),
    {
        let r = self.session_index(key);
        proof {
            let ks = pool_keys(self.sessions@);
            match r {
                Some(ix) => {
                    assert(ks[ix as int] == key);
                    assert(ks.contains(key));
                },
                None => {
                    if ks.contains(key) {
                        let j = choose|j: int| 0 <= j < ks.len() && ks[j] == key;
                        assert(self.sessions@[j].key == key);
                    }
                },
            }
        }
        r.is_some()
    }

    /// Connects a new session: a fresh, unused runtime under `key`. The key
    /// must not name a session yet; callers check [`Self::contains_session`]
    /// first.
    pub fn create_session(&mut self, key: u64)
        requires
            old(self).wf(),
            !pool_keys(old(self).sessions@).contains(key),
        ensures
            final(self).wf(),
            final(self).sessions@.len() == old(self).sessions@.len() + 1,
            forall|i: int|
                0 <= i < old(self).sessions@.len() ==> (#[trigger] final(self).sessions@[i])
                    == old(self).sessions@[i],
            final(self).sessions@[old(self).sessions@.len() as int].key == key,
            final(self).sessions@[old(self).sessions@.len() as int].rt.inner.wf(),
            final(self).sessions@[old(self).sessions@.len() as int]
                .rt.inner.scope_tree.scopes@.len() == 0,
    {
        self.sessions.push(PoolEntry { key, rt: SingleClientRuntime::new() });
        proof {
            let pre = old(self).sessions@;
            assert forall|i: int, j: int|
                0 <= i < j < self.sessions@.len() implies (#[trigger] self.sessions@[i]).key != (
            #[trigger] self.sessions@[j]).key by {
                if j < pre.len() {
                } else {
                    assert(self.sessions@[j].key == key);
                    assert(pool_keys(pre)[i] == pre[i].key);
                    if pre[i].key == key {
                        assert(pool_keys(pre).contains(key));
                    }
                }
            }
        }
    }

    /// Exclusive access to the session at `ix`; sessions never share state.
    pub fn session_mut(&mut self, ix: usize) -> (r: &mut SingleClientRuntime)
        requires
            ix < old(self).sessions@.len(),
        ensures
            *r == old(self).sessions@[ix as int].rt,
            final(self).sessions@ == old(self).sessions@.update(
                ix as int,
                PoolEntry { key: old(self).sessions@[ix as int].key, rt: *final(r) },
            ),
    {
        let entry = &mut self.sessions[ix];
        &mut entry.rt
    }

    /// Disconnects the session named `key`, dropping its whole graph. Fails
    /// on an unknown key.
    pub fn destroy_session(&mut self, key: u64) -> (r: Result<(), ReactorError>)
        requires
            old(self).wf(),
        ensures
            final(self).wf(),
            match r {
                Ok(()) => pool_keys(old(self).sessions@).contains(key)
                    && final(self).sessions@.len() + 1 == old(self).sessions@.len() && !pool_keys(
                    final(self).sessions@,
                ).contains(key),
                Err(e) => e == ReactorError::UseAfterDispose && !pool_keys(
                    old(self).sessions@,
                ).contains(key) && *final(self) == *old(self),
            },
    {
        let ix = match self.session_index(key) {
            Some(ix) => ix,
            None => {
                proof {
                    if pool_keys(self.sessions@).contains(key) {
                        let j = choose|j: int|
                            0 <= j < pool_keys(self.sessions@).len() && pool_keys(
                                self.sessions@,
                            )[j] == key;
                        assert(self.sessions@[j].key == key);
                    }
                }
                return Err(ReactorError::UseAfterDispose);
            },
        };
        proof {
            assert(pool_keys(self.sessions@)[ix as int] == key);
            assert(pool_keys(self.sessions@).contains(key));
        }
        self.sessions.remove(ix);
        proof {
            let pre = old(self).sessions@;
            assert(forall|i: int|
                0 <= i < self.sessions@.len() ==> #[trigger] self.sessions@[i] == (if i
                    < ix as int {
                    pre[i]
                } else {
                    pre[i + 1]
                }));
            assert forall|i: int, j: int|
                0 <= i < j < self.sessions@.len() implies (#[trigger] self.sessions@[i]).key != (
            #[trigger] self.sessions@[j]).key by {}
            if pool_keys(self.sessions@).contains(key) {
                let j = choose|j: int|
                    0 <= j < pool_keys(self.sessions@).len() && pool_keys(self.sessions@)[j]
                        == key;
                assert(self.sessions@[j].key == key);
                if j < ix as int {
                    assert(pre[j].key == key && pre[ix as int].key == key);
                } else {
                    assert(pre[j + 1].key == key && pre[ix as int].key == key);
                }
                assert(false);
            }
        }
        Ok(())
    }
}

} // verus!
