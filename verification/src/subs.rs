//! Compact set of dependent-signal identifiers. A signal with few dependents
//! stays within a small fixed number of machine words (three inline slots);
//! beyond that the set switches to a heap-backed growable vector. Insertion
//! order is kept stable so propagation visits dependents deterministically.

use vstd::prelude::*;

verus! {

/// No identifier occurs twice.
pub open spec fn distinct_seq(s: Seq<usize>) -> bool {
    forall|i: int, j: int| 0 <= i < j < s.len() ==> s[i] != s[j]
}

/// Idempotent insertion at the back: the model of [`SubscriberSet::add`].
pub open spec fn insert_sub(s: Seq<usize>, x: usize) -> Seq<usize> {
    if s.contains(x) {
        s
    } else {
        s.push(x)
    }
}

/// Removal of the only occurrence: the model of [`SubscriberSet::remove`].
pub open spec fn remove_sub(s: Seq<usize>, x: usize) -> Seq<usize> {
    if s.contains(x) {
        s.remove(s.index_of(x))
    } else {
        s
    }
}

/// Membership after appending one identifier.
pub proof fn lemma_push_contains(s: Seq<usize>, v: usize, y: usize)
    ensures
        s.push(v).contains(y) <==> (s.contains(y) || y == v),
{
    let t = s.push(v);
    assert(t[s.len() as int] == v);
    assert(t.contains(v));
    if t.contains(y) && y != v {
        let i = choose|i: int| 0 <= i < t.len() && t[i] == y;
        assert(s[i] == y);
        assert(s.contains(y));
    }
    if s.contains(y) {
        let i = choose|i: int| 0 <= i < s.len() && s[i] == y;
        assert(t[i] == y);
        assert(t.contains(y));
    }
}

/// Inserting an identifier twice is the same as inserting it once.
pub proof fn lemma_insert_sub_idempotent(s: Seq<usize>, x: usize)
    ensures
        insert_sub(insert_sub(s, x), x) == insert_sub(s, x),
{
    lemma_insert_sub_contains(s, x, x);
}

/// A sequence is a prefix of itself extended by one element.
pub proof fn lemma_prefix_push(s: Seq<usize>, v: usize)
    ensures
        s.is_prefix_of(s.push(v)),
{
    assert(s =~= s.push(v).subrange(0, s.len() as int));
}

/// Prefixes compose.
pub proof fn lemma_prefix_trans(a: Seq<usize>, b: Seq<usize>, c: Seq<usize>)
    requires
        a.is_prefix_of(b),
        b.is_prefix_of(c),
    ensures
        a.is_prefix_of(c),
{
    assert(a =~= c.subrange(0, a.len() as int)) by {
        assert(forall|i: int| 0 <= i < a.len() ==> a[i] == b[i]);
        assert(forall|i: int| 0 <= i < b.len() ==> b[i] == c[i]);
    }
}

/// Membership after an idempotent insertion.
pub proof fn lemma_insert_sub_contains(s: Seq<usize>, x: usize, y: usize)
    ensures
        insert_sub(s, x).contains(y) <==> (s.contains(y) || y == x),
{
    if s.contains(x) {
    } else {
        let t = s.push(x);
        assert(t[s.len() as int] == x);
        assert(t.contains(x));
        if t.contains(y) && y != x {
            let i = choose|i: int| 0 <= i < t.len() && t[i] == y;
            assert(s[i] == y);
            assert(s.contains(y));
        }
        if s.contains(y) {
            let i = choose|i: int| 0 <= i < s.len() && s[i] == y;
            assert(t[i] == y);
            assert(t.contains(y));
        }
    }
}

/// Membership after removing one identifier from a duplicate-free sequence.
pub proof fn lemma_remove_sub_contains(s: Seq<usize>, x: usize, y: usize)
    requires
        distinct_seq(s),
    ensures
        remove_sub(s, x).contains(y) ==> s.contains(y),
        y != x ==> (remove_sub(s, x).contains(y) <==> s.contains(y)),
        !remove_sub(s, x).contains(x),
{
    if s.contains(x) {
        let ix = s.index_of(x);
        let t = s.remove(ix);
        assert(forall|i: int|
            0 <= i < t.len() ==> t[i] == if i < ix {
                s[i]
            } else {
                s[i + 1]
            });
        if t.contains(y) {
            let i = choose|i: int| 0 <= i < t.len() && t[i] == y;
            if i < ix {
                assert(s[i] == y);
            } else {
                assert(s[i + 1] == y);
            }
            assert(s.contains(y));
        }
        if y != x && s.contains(y) {
            let i = choose|i: int| 0 <= i < s.len() && s[i] == y;
            assert(i != ix);
            if i < ix {
                assert(t[i] == y);
            } else {
                assert(t[i - 1] == y);
            }
            assert(t.contains(y));
        }
        if t.contains(x) {
            let i = choose|i: int| 0 <= i < t.len() && t[i] == x;
            if i < ix {
                assert(s[i] == x && s[ix] == x);
            } else {
                assert(s[i + 1] == x && s[ix] == x);
            }
            assert(false);
        }
    }
}

/// Pigeonhole: a duplicate-free sequence of indices below `n` has at most
/// `n` entries.
pub proof fn lemma_distinct_bounded_len(s: Seq<usize>, n: nat)
    requires
        distinct_seq(s),
        forall|i: int| 0 <= i < s.len() ==> (#[trigger] s[i]) < n,
    ensures
        s.len() <= n,
{
    let t = s.map_values(|x: usize| x as int);
    assert(t.no_duplicates());
    t.unique_seq_to_set();
    assert(t.to_set().subset_of(vstd::set_lib::set_int_range(0, n as int))) by {
        assert forall|y: int| t.to_set().contains(y) implies 0 <= y < n as int by {
            assert(t.contains(y));
            let i = choose|i: int| 0 <= i < t.len() && t[i] == y;
            assert(s[i] < n);
        }
    }
    vstd::set_lib::lemma_int_range(0, n as int);
    vstd::set_lib::lemma_len_subset(t.to_set(), vstd::set_lib::set_int_range(0, n as int));
}

/// Small-size-optimized set of dependent-signal identifiers.
#[derive(Debug)]
pub struct SubscriberSet {
    s0: usize,
    s1: usize,
    s2: usize,
    count: usize,
    spill: Vec<usize>,
    spilled: bool,
}

impl View for SubscriberSet {
    type V = Seq<usize>;

    closed spec fn view(&self) -> Seq<usize> {
        if self.spilled {
            self.spill@
        } else {
            seq![self.s0, self.s1, self.s2].take(self.count as int)
        }
    }
}

impl SubscriberSet {
    /// Structural soundness: the inline count stays within capacity and the
    /// member identifiers are pairwise distinct.
    pub closed spec fn wf(&self) -> bool {
        &&& distinct_seq(self@)
        &&& (!self.spilled ==> self.count <= 3 && self.spill@.len() == 0)
        &&& (self.spilled ==> self.count == 0)
    }

    /// A well-formed set never holds an identifier twice.
    pub proof fn lemma_wf_distinct(&self)
        requires
            self.wf(),
        ensures
            distinct_seq(self@),
    {
    }

    /// The empty set.
    pub fn new() -> (r: SubscriberSet)
        ensures
            r@ == Seq::<usize>::empty(),
            r.wf(),
    {
        let r = SubscriberSet { s0: 0, s1: 0, s2: 0, count: 0, spill: Vec::new(), spilled: false };
        proof {
            assert(r@ =~= Seq::<usize>::empty());
        }
        r
    }

    /// Number of dependents recorded.
    pub fn len(&self) -> (n: usize)
        requires
            self.wf(),
        ensures
            n == self@.len(),
    {
        if self.spilled {
            self.spill.len()
        } else {
            self.count
        }
    }

    /// Whether no dependent is recorded.
    pub fn is_empty(&self) -> (r: bool)
        requires
            self.wf(),
        ensures
            r == (self@.len() == 0),
    {
        self.len() == 0
    }

    /// Membership test.
    pub fn contains(&self, x: usize) -> (r: bool)
        requires
            self.wf(),
        ensures
            r == self@.contains(x),
    {
        if self.spilled {
            let mut i: usize = 0;
            while i < self.spill.len()
                invariant
                    self.spilled,
                    self.wf(),
                    i <= self.spill@.len(),
                    forall|j: int| 0 <= j < i ==> self.spill@[j] != x,
                decreases self.spill@.len() - i,
            {
                if self.spill[i] == x {
                    proof {
                        assert(self@[i as int] == x);
                        assert(self@.contains(x));
                    }
                    return true;
                }
                i += 1;
            }
            false
        } else {
            proof {
                if self.count >= 1 {
                    assert(self@[0] == self.s0);
                }
                if self.count >= 2 {
                    assert(self@[1] == self.s1);
                }
                if self.count >= 3 {
                    assert(self@[2] == self.s2);
                }
            }
            let r = (self.count >= 1 && self.s0 == x) || (self.count >= 2 && self.s1 == x) || (
            self.count >= 3 && self.s2 == x);
            proof {
                if !r {
                    assert(forall|j: int| 0 <= j < self@.len() ==> self@[j] != x);
                }
            }
            r
        }
    }

    /// Idempotent insertion: a dependent already present is not added again.
    pub fn add(&mut self, x: usize)
        requires
            old(self).wf(),
        ensures
            final(self).wf(),
            final(self)@ == insert_sub(old(self)@, x),
    {
        if self.contains(x) {
            return ;
        }
        proof {
            assert(forall|j: int| 0 <= j < self@.len() ==> self@[j] != x);
        }
        if self.spilled {
            self.spill.push(x);
        } else if self.count == 0 {
            self.s0 = x;
            self.count = 1;
            proof {
                assert(self@ =~= old(self)@.push(x));
            }
        } else if self.count == 1 {
            self.s1 = x;
            self.count = 2;
            proof {
                assert(self@ =~= old(self)@.push(x));
            }
        } else if self.count == 2 {
            self.s2 = x;
            self.count = 3;
            proof {
                assert(self@ =~= old(self)@.push(x));
            }
        } else {
            // the inline capacity is exhausted: move to the heap
            let mut v: Vec<usize> = Vec::new();
            v.push(self.s0);
            v.push(self.s1);
            v.push(self.s2);
            v.push(x);
            self.spill = v;
            self.spilled = true;
            self.count = 0;
            proof {
                assert(self@ =~= old(self)@.push(x));
            }
        }
        proof {
            let pre = old(self)@;
            assert(self@ == pre.push(x));
            assert(distinct_seq(self@)) by {
                assert(forall|i: int, j: int|
                    0 <= i < j < self@.len() ==> self@[i] != self@[j]) by {
                    assert(forall|i: int| 0 <= i < pre.len() ==> self@[i] == pre[i]);
                    assert(self@[pre.len() as int] == x);
                    assert(forall|i: int| 0 <= i < pre.len() ==> pre[i] != x);
                }
            }
        }
    }

    /// Removes a dependent if present; absent identifiers are ignored.
    pub fn remove(&mut self, x: usize)
        requires
            old(self).wf(),
        ensures
            final(self).wf(),
            final(self)@ == remove_sub(old(self)@, x),
    {
        if !self.contains(x) {
            return ;
        }
        if self.spilled {
            let mut i: usize = 0;
            while i < self.spill.len() && self.spill[i] != x
                invariant
                    self.spilled,
                    self.wf(),
                    i <= self.spill@.len(),
                    self.spill@.contains(x),
                    forall|j: int| 0 <= j < i ==> self.spill@[j] != x,
                decreases self.spill@.len() - i,
            {
                i += 1;
            }
            proof {
                assert(i < self.spill@.len() && self.spill@[i as int] == x) by {
                    if i >= self.spill@.len() {
                        assert(forall|j: int|
                            0 <= j < self.spill@.len() ==> self.spill@[j] != x);
                        assert(!self.spill@.contains(x));
                    }
                }
                let pre = old(self)@;
                assert(pre.index_of(x) == i as int) by {
                    let k = pre.index_of(x);
                    assert(pre[k] == x && 0 <= k < pre.len());
                    assert(distinct_seq(pre));
                    if k < i as int {
                        assert(pre[k] != x);
                    }
                    if k > i as int {
                        assert(pre[i as int] != pre[k]);
                    }
                }
            }
            self.spill.remove(i);
            proof {
                let pre = old(self)@;
                assert(self@ == pre.remove(pre.index_of(x)));
                assert(distinct_seq(self@)) by {
                    assert(forall|a: int, b: int|
                        0 <= a < b < self@.len() ==> self@[a] != self@[b]) by {
                        assert(forall|a: int|
                            0 <= a < self@.len() ==> self@[a] == if a < i as int {
                                pre[a]
                            } else {
                                pre[a + 1]
                            });
                    }
                }
            }
        } else {
            proof {
                if self.count >= 1 {
                    assert(self@[0] == self.s0);
                }
                if self.count >= 2 {
                    assert(self@[1] == self.s1);
                }
                if self.count >= 3 {
                    assert(self@[2] == self.s2);
                }
            }
            let pre_count = self.count;
            if pre_count >= 1 && self.s0 == x {
                proof {
                    assert(old(self)@.index_of(x) == 0) by {
                        let k = old(self)@.index_of(x);
                        if k > 0 {
                            assert(old(self)@[0] != old(self)@[k]);
                        }
                    }
                }
                self.s0 = self.s1;
                self.s1 = self.s2;
                self.count = pre_count - 1;
                proof {
                    assert(self@ =~= old(self)@.remove(0));
                }
            } else if pre_count >= 2 && self.s1 == x {
                proof {
                    assert(old(self)@.index_of(x) == 1) by {
                        let k = old(self)@.index_of(x);
                        if k != 1 {
                            assert(old(self)@[1] != old(self)@[k]);
                        }
                    }
                }
                self.s1 = self.s2;
                self.count = pre_count - 1;
                proof {
                    assert(self@ =~= old(self)@.remove(1));
                }
            } else {
                proof {
                    assert(self.count == 3 && self.s2 == x);
                    assert(old(self)@.index_of(x) == 2) by {
                        let k = old(self)@.index_of(x);
                        if k != 2 {
                            assert(old(self)@[2] != old(self)@[k]);
                        }
                    }
                }
                self.count = pre_count - 1;
                proof {
                    assert(self@ =~= old(self)@.remove(2));
                }
            }
            proof {
                assert(distinct_seq(self@));
            }
        }
    }

    /// A snapshot of the members, in their stable order.
    pub fn to_vec(&self) -> (r: Vec<usize>)
        requires
            self.wf(),
        ensures
            r@ == self@,
    {
        let mut r: Vec<usize> = Vec::new();
        if self.spilled {
            let mut i: usize = 0;
            while i < self.spill.len()
                invariant
                    i <= self.spill@.len(),
                    r@ == self.spill@.take(i as int),
                decreases self.spill@.len() - i,
            {
                r.push(self.spill[i]);
                proof {
                    assert(r@ =~= self.spill@.take(i as int + 1));
                }
                i += 1;
            }
            proof {
                assert(r@ =~= self.spill@);
            }
        } else {
            if self.count >= 1 {
                r.push(self.s0);
            }
            if self.count >= 2 {
                r.push(self.s1);
            }
            if self.count >= 3 {
                r.push(self.s2);
            }
            proof {
                assert(r@ =~= self@);
            }
        }
        r
    }

    /// An exact copy of the set.
    pub fn duplicate(&self) -> (r: SubscriberSet)
        ensures
            r@ == self@,
            self.wf() ==> r.wf(),
    {
        let mut spill2: Vec<usize> = Vec::new();
        let mut i: usize = 0;
        while i < self.spill.len()
            invariant
                i <= self.spill@.len(),
                spill2@ == self.spill@.take(i as int),
            decreases self.spill@.len() - i,
        {
            spill2.push(self.spill[i]);
            proof {
                assert(spill2@ =~= self.spill@.take(i as int + 1));
            }
            i += 1;
        }
        proof {
            assert(spill2@ =~= self.spill@);
        }
        SubscriberSet {
            s0: self.s0,
            s1: self.s1,
            s2: self.s2,
            count: self.count,
            spill: spill2,
            spilled: self.spilled,
        }
    }
}

} // verus!
