//! Arena of scopes forming a tree. Scopes are stored in a growable array
//! owned by the runtime; handles are indices, never pointers, so the arena may
//! grow without dangling references. Disposing a scope marks the whole
//! subtree dead, and a child scope's lifetime never exceeds its parent's.

use vstd::prelude::*;

use crate::ReactorError;

verus! {

/// Cheap, copyable handle to one scope of a runtime's tree.
#[derive(Clone, Copy, Debug, PartialEq, Eq, Structural)]
pub struct Scope {
    pub sx: usize,
}

/// One node of the tree: a nullable parent link, the ordered children, and a
/// liveness mark cleared on disposal.
#[derive(Debug)]
pub struct ScopeData {
    pub parent: Option<usize>,
    pub children: Vec<usize>,
    pub alive: bool,
}

/// Parents precede their children in the arena.
pub open spec fn parents_wf(t: Seq<ScopeData>) -> bool {
    forall|j: int| 0 <= j < t.len() ==> ((#[trigger] t[j].parent) matches Some(p) ==> p < j)
}

/// Child links stay in bounds, below their parent.
pub open spec fn children_wf(t: Seq<ScopeData>) -> bool {
    forall|j: int, c: int|
        0 <= j < t.len() && 0 <= c < t[j].children@.len() ==> j < (#[trigger] t[j].children@[c])
            < t.len()
}

/// A live scope's parent is live: no child outlives its parent.
pub open spec fn liveness_wf(t: Seq<ScopeData>) -> bool {
    forall|j: int|
        0 <= j < t.len() ==> (((#[trigger] t[j]).alive && t[j].parent is Some) ==> t[t[
            j
        ].parent->Some_0 as int].alive)
}

/// Whether scope `j` lies in the subtree rooted at `s`, following parent
/// links upward. Parents always precede children in the arena, which bounds
/// the walk.
pub open spec fn in_subtree(t: Seq<ScopeData>, s: int, j: int) -> bool
    decreases j,
{
    if j == s {
        true
    } else {
        match t[j].parent {
            Some(p) => {
                if p < j {
                    in_subtree(t, s, p as int)
                } else {
                    false
                }
            },
            None => false,
        }
    }
}

/// The arena of scopes.
#[derive(Debug)]
pub struct ScopeTree {
    pub scopes: Vec<ScopeData>,
}

impl ScopeTree {
    /// Tree soundness.
    pub open spec fn wf(&self) -> bool {
        &&& parents_wf(self.scopes@)
        &&& children_wf(self.scopes@)
        &&& liveness_wf(self.scopes@)
    }

    /// Whether scope `s` exists and has not been disposed.
    pub open spec fn spec_alive(&self, s: int) -> bool {
        0 <= s < self.scopes@.len() && self.scopes@[s].alive
    }

    /// An empty tree, not yet holding a root.
    pub fn new() -> (r: ScopeTree)
        ensures
            r.scopes@.len() == 0,
            r.wf(),
    {
        ScopeTree { scopes: Vec::new() }
    }

    /// Allocates the root scope of a fresh tree.
    pub fn init(&mut self) -> (s: usize)
        requires
            old(self).scopes@.len() == 0,
        ensures
            s == 0,
            final(self).wf(),
            final(self).scopes@.len() == 1,
            final(self).spec_alive(0),
            final(self).scopes@[0].parent is None,
    {
        self.scopes.push(ScopeData { parent: None, children: Vec::new(), alive: true });
        0
    }

    /// Allocates a child of a live scope; fails on a disposed or unknown
    /// parent.
    pub fn new_child(&mut self, parent: usize) -> (r: Result<usize, ReactorError>)
        requires
            old(self).wf(),
        ensures
            final(self).wf(),
            match r {
                Ok(s) => {
                    &&& old(self).spec_alive(parent as int)
                    &&& s == old(self).scopes@.len()
                    &&& final(self).scopes@.len() == old(self).scopes@.len() + 1
                    &&& final(self).spec_alive(s as int)
                    &&& final(self).scopes@[s as int].parent == Some(parent)
                    &&& forall|j: int|
                        0 <= j < old(self).scopes@.len() ==> {
                            &&& (#[trigger] final(self).scopes@[j]).alive == old(
                                self,
                            ).scopes@[j].alive
                            &&& final(self).scopes@[j].parent == old(self).scopes@[j].parent
                        }
                },
                Err(e) => {
                    &&& e == ReactorError::UseAfterDispose
                    &&& !old(self).spec_alive(parent as int)
                    &&& *final(self) == *old(self)
                },
            },
    {
        if parent >= self.scopes.len() {
            return Err(ReactorError::UseAfterDispose);
        }
        if !self.scopes[parent].alive {
            return Err(ReactorError::UseAfterDispose);
        }
        let s = self.scopes.len();
        self.scopes.push(ScopeData { parent: Some(parent), children: Vec::new(), alive: true });
        let mut node = ScopeData {
            parent: self.scopes[parent].parent,
            children: Vec::new(),
            alive: self.scopes[parent].alive,
        };
        let mut i: usize = 0;
        let n = self.scopes[parent].children.len();
        while i < n
            invariant
                0 <= parent < self.scopes@.len(),
                n == self.scopes@[parent as int].children@.len(),
                i <= n,
                node.children@ == self.scopes@[parent as int].children@.take(i as int),
                node.parent == self.scopes@[parent as int].parent,
                node.alive == self.scopes@[parent as int].alive,
            decreases n - i,
        {
            let c = self.scopes[parent].children[i];
            node.children.push(c);
            proof {
                assert(node.children@ =~= self.scopes@[parent as int].children@.take(
                    i as int + 1,
                ));
            }
            i += 1;
        }
        proof {
            assert(node.children@ =~= self.scopes@[parent as int].children@);
        }
        node.children.push(s);
        let ghost mid = self.scopes@;
        self.scopes[parent] = node;
        proof {
            let post = self.scopes@;
            let pre = old(self).scopes@;
            assert(forall|j: int| 0 <= j < pre.len() && j != parent ==> post[j] == pre[j]);
            assert(post[s as int] == mid[s as int]);
            assert(post[parent as int].children@ == pre[parent as int].children@.push(s));
            assert(parents_wf(post));
            assert(children_wf(post)) by {
                assert(forall|j: int, c: int|
                    0 <= j < post.len() && 0 <= c < post[j].children@.len() && j != parent
                        ==> j < (#[trigger] post[j].children@[c]) < post.len());
                assert(forall|c: int|
                    0 <= c < post[parent as int].children@.len() ==> parent < (
                    #[trigger] post[parent as int].children@[c]) < post.len()) by {
                    assert(forall|c: int|
                        0 <= c < pre[parent as int].children@.len() ==> post[
                            parent as int
                        ].children@[c] == pre[parent as int].children@[c]);
                }
            }
            assert(liveness_wf(post));
        }
        Ok(s)
    }

    /// Walks parent links upward to decide subtree membership.
    pub fn subtree_check(&self, s: usize, j: usize) -> (r: bool)
        requires
            parents_wf(self.scopes@),
            j < self.scopes@.len(),
        ensures
            r == in_subtree(self.scopes@, s as int, j as int),
    {
        let mut cur = j;
        loop
            invariant
                parents_wf(self.scopes@),
                cur < self.scopes@.len(),
                in_subtree(self.scopes@, s as int, j as int) == in_subtree(
                    self.scopes@,
                    s as int,
                    cur as int,
                ),
            decreases cur,
        {
            if cur == s {
                return true;
            }
            match self.scopes[cur].parent {
                Some(p) => {
                    if p < cur {
                        cur = p;
                    } else {
                        return false;
                    }
                },
                None => {
                    return false;
                },
            }
        }
    }

    /// Sweeping disposal: marks the scope and every scope of its subtree
    /// dead. Fails on a handle whose scope is already disposed or unknown.
    pub fn dispose(&mut self, s: usize) -> (r: Result<(), ReactorError>)
        requires
            old(self).wf(),
        ensures
            final(self).wf(),
            final(self).scopes@.len() == old(self).scopes@.len(),
            match r {
                Ok(()) => {
                    &&& old(self).spec_alive(s as int)
                    &&& forall|j: int|
                        0 <= j < old(self).scopes@.len() ==> {
                            &&& (#[trigger] final(self).scopes@[j]).alive == (old(
                                self,
                            ).scopes@[j].alive && !in_subtree(old(self).scopes@, s as int, j))
                            &&& final(self).scopes@[j].parent == old(self).scopes@[j].parent
                            &&& final(self).scopes@[j].children@ == old(self).scopes@[j].children@
                        }
                },
                Err(e) => {
                    &&& e == ReactorError::UseAfterDispose
                    &&& !old(self).spec_alive(s as int)
                    &&& *final(self) == *old(self)
                },
            },
    {
        if s >= self.scopes.len() {
            return Err(ReactorError::UseAfterDispose);
        }
        if !self.scopes[s].alive {
            return Err(ReactorError::UseAfterDispose);
        }
        let n = self.scopes.len();
        let mut j: usize = 0;
        while j < n
            invariant
                old(self).wf(),
                0 <= s < n,
                n == old(self).scopes@.len(),
                n == self.scopes@.len(),
                j <= n,
                forall|k: int|
                    0 <= k < n ==> {
                        &&& (#[trigger] self.scopes@[k]).parent == old(self).scopes@[k].parent
                        &&& self.scopes@[k].children@ == old(self).scopes@[k].children@
                        &&& (k < j ==> self.scopes@[k].alive == (old(self).scopes@[k].alive
                            && !in_subtree(old(self).scopes@, s as int, k)))
                        &&& (k >= j ==> self.scopes@[k].alive == old(self).scopes@[k].alive)
                    },
            decreases n - j,
        {
            proof {
                assert(parents_wf(self.scopes@));
                lemma_in_subtree_same(self.scopes@, old(self).scopes@);
            }
            let dead = self.subtree_check(s, j);
            if dead {
                let mut node = ScopeData { parent: None, children: Vec::new(), alive: false };
                node.parent = self.scopes[j].parent;
                let mut cs: Vec<usize> = Vec::new();
                let m = self.scopes[j].children.len();
                let mut i: usize = 0;
                while i < m
                    invariant
                        j < self.scopes@.len(),
                        m == self.scopes@[j as int].children@.len(),
                        i <= m,
                        cs@ == self.scopes@[j as int].children@.take(i as int),
                    decreases m - i,
                {
                    let c = self.scopes[j].children[i];
                    cs.push(c);
                    proof {
                        assert(cs@ =~= self.scopes@[j as int].children@.take(i as int + 1));
                    }
                    i += 1;
                }
                proof {
                    assert(cs@ =~= self.scopes@[j as int].children@);
                }
                node.children = cs;
                self.scopes[j] = node;
            }
            j += 1;
        }
        proof {
            let post = self.scopes@;
            let pre = old(self).scopes@;
            assert(parents_wf(post));
            assert(children_wf(post)) by {
                assert(forall|k: int, c: int|
                    0 <= k < n && 0 <= c < post[k].children@.len() ==> post[k].children@[c]
                        == pre[k].children@[c]);
            }
            assert(liveness_wf(post)) by {
                assert forall|k: int|
                    0 <= k < n && (#[trigger] post[k]).alive && post[k].parent is Some implies post[
                    post[k].parent->Some_0 as int].alive by {
                    let p = post[k].parent->Some_0 as int;
                    assert(0 <= p < k);
                    assert(pre[k].alive && !in_subtree(pre, s as int, k));
                    assert(pre[p].alive);
                    if in_subtree(pre, s as int, p) {
                        assert(in_subtree(pre, s as int, k));
                        assert(false);
                    }
                }
            }
        }
        Ok(())
    }
}

/// Subtree membership depends only on parent links, which both trees share.
pub proof fn lemma_in_subtree_same(t1: Seq<ScopeData>, t2: Seq<ScopeData>)
    requires
        t1.len() == t2.len(),
        forall|k: int| 0 <= k < t1.len() ==> (#[trigger] t1[k]).parent == t2[k].parent,
    ensures
        forall|a: int, b: int|
            0 <= a && 0 <= b < t1.len() ==> in_subtree(t1, a, b) == in_subtree(t2, a, b),
{
    assert forall|a: int, b: int| 0 <= a && 0 <= b < t1.len() implies in_subtree(t1, a, b)
        == in_subtree(t2, a, b) by {
        lemma_in_subtree_same_one(t1, t2, a, b);
    }
}

/// Helper for [`lemma_in_subtree_same`], one pair at a time.
pub proof fn lemma_in_subtree_same_one(t1: Seq<ScopeData>, t2: Seq<ScopeData>, a: int, b: int)
    requires
        t1.len() == t2.len(),
        forall|k: int| 0 <= k < t1.len() ==> (#[trigger] t1[k]).parent == t2[k].parent,
        0 <= b < t1.len(),
    ensures
        in_subtree(t1, a, b) == in_subtree(t2, a, b),
    decreases b,
{
    if b != a {
        match t1[b].parent {
            Some(p) => {
                if p < b {
                    lemma_in_subtree_same_one(t1, t2, a, p as int);
                }
            },
            None => {},
        }
    }
}

/// Disposal cascades: once the root of a subtree is dead, every scope of the
/// subtree is dead in a well-formed tree.
pub proof fn lemma_dead_scope_dead_subtree(t: ScopeTree, s: int, j: int)
    requires
        t.wf(),
        0 <= s < t.scopes@.len(),
        0 <= j < t.scopes@.len(),
        in_subtree(t.scopes@, s, j),
        !t.scopes@[s].alive,
    ensures
        !t.scopes@[j].alive,
    decreases j,
{
    if j != s {
        match t.scopes@[j].parent {
            Some(p) => {
                if p < j {
                    lemma_dead_scope_dead_subtree(t, s, p as int);
                }
            },
            None => {},
        }
    }
}

} // verus!
