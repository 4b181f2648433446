//! The runtime: owner of exactly one scope tree plus the arena of signal
//! slots, and home of the dependency-tracking and change-propagation
//! algorithm. Signal handles are indices into the arena, resolved and
//! validity-checked on every use. The observer that is current during a
//! recomputation is threaded explicitly through evaluation as the list of
//! signals the run read; those reads become the dependencies of the derived
//! signal, rebuilt from scratch on every re-run.

use vstd::prelude::*;
use vstd::string::StringExecFns;

use crate::ReactorError;
use crate::cell::{spec_kind, AnyData, CellSpec, CellValue};
use crate::dyn_func::{comp_kind, Computation, DynFunc, Source};
use crate::scope::{in_subtree, Scope, ScopeTree};
use crate::subs::{
    distinct_seq, insert_sub, lemma_insert_sub_contains, lemma_remove_sub_contains, remove_sub,
    SubscriberSet,
};

verus! {

/// Cheap, copyable, non-owning handle to one signal slot of a runtime.
/// Worthless once its owning scope is disposed: every use is checked.
#[derive(Clone, Copy, Debug, PartialEq, Eq, Structural)]
pub struct Signal {
    pub id: usize,
}

impl Signal {
    /// The raw slot index of this handle.
    pub fn raw(self) -> (r: usize)
        ensures
            r == self.id,
    {
        self.id
    }

    /// Rebuilds a handle from a raw slot index. All operations validate the
    /// handle, so a dangling index fails at use, never silently.
    pub fn from_raw(id: usize) -> (r: Signal)
        ensures
            r.id == id,
    {
        Signal { id }
    }
}

/// Exactly one of: a directly settable value, or a derived recompute. The
/// choice is fixed when the slot is created.
#[derive(Debug)]
pub enum SignalValue {
    Data(AnyData),
    Func(DynFunc),
}

impl SignalValue {
    /// An exact copy.
    pub fn duplicate(&self) -> (r: SignalValue)
        ensures
            r == *self,
    {
        match self {
            SignalValue::Data(a) => SignalValue::Data(a.duplicate()),
            SignalValue::Func(df) => SignalValue::Func(df.duplicate()),
        }
    }
}

/// One slot of the signal arena: the value (or recompute), the dependents to
/// re-run on change, the dependencies read by the last run, the owning scope,
/// a liveness mark, and a count of completed runs.
#[derive(Debug)]
pub struct SignalStorage {
    pub value: SignalValue,
    pub subs: SubscriberSet,
    pub deps: SubscriberSet,
    pub owner: usize,
    pub alive: bool,
    pub runs: u64,
}

/// The current value stored in a slot, whatever its kind.
pub open spec fn sig_val(s: SignalStorage) -> CellSpec {
    match s.value {
        SignalValue::Data(a) => a@,
        SignalValue::Func(df) => df.value@,
    }
}

/// Reading a slot: fails on an unknown or disposed slot, never yields stale
/// data.
pub open spec fn read_sig(sigs: Seq<SignalStorage>, id: int) -> Result<CellSpec, ReactorError> {
    if 0 <= id < sigs.len() && sigs[id].alive {
        Ok(sig_val(sigs[id]))
    } else {
        Err(ReactorError::UseAfterDispose)
    }
}

/// Reading a slot as an integer.
pub open spec fn read_uint(sigs: Seq<SignalStorage>, id: int) -> Result<u64, ReactorError> {
    match read_sig(sigs, id) {
        Ok(CellSpec::Uint(u)) => Ok(u),
        Ok(_) => Err(ReactorError::TypeMismatch),
        Err(e) => Err(e),
    }
}

/// Reading a slot as a flag.
pub open spec fn read_flag(sigs: Seq<SignalStorage>, id: int) -> Result<bool, ReactorError> {
    match read_sig(sigs, id) {
        Ok(CellSpec::Flag(b)) => Ok(b),
        Ok(_) => Err(ReactorError::TypeMismatch),
        Err(e) => Err(e),
    }
}

/// Reading a slot as text.
pub open spec fn read_text(sigs: Seq<SignalStorage>, id: int) -> Result<Seq<char>, ReactorError> {
    match read_sig(sigs, id) {
        Ok(CellSpec::Text(t)) => Ok(t),
        Ok(_) => Err(ReactorError::TypeMismatch),
        Err(e) => Err(e),
    }
}

/// Adding one, wrapping at the type bound.
pub open spec fn wrap_inc(u: u64) -> u64 {
    if u == u64::MAX {
        0u64
    } else {
        (u + 1) as u64
    }
}

/// Resolving a source to the slot it designates, together with the signals
/// read along the way.
pub open spec fn resolve_src(sigs: Seq<SignalStorage>, src: Source) -> Result<
    (u64, Seq<usize>),
    ReactorError,
> {
    match src {
        Source::Direct(sig) => Ok((sig.id as u64, Seq::<usize>::empty())),
        Source::Via(p) => match read_uint(sigs, p.id as int) {
            Ok(t) => Ok((t, seq![p.id])),
            Err(e) => Err(e),
        },
    }
}

/// What one run of a computation yields against the given signal values, and
/// which signals it reads, in order.
pub open spec fn spec_eval(sigs: Seq<SignalStorage>, comp: Computation) -> Result<
    (CellSpec, Seq<usize>),
    ReactorError,
> {
    match comp {
        Computation::ConstUint(u) => Ok((CellSpec::Uint(u), Seq::<usize>::empty())),
        Computation::ConstText(s) => Ok((CellSpec::Text(s@), Seq::<usize>::empty())),
        Computation::Inc(src) => match resolve_src(sigs, src) {
            Ok(t) => match read_uint(sigs, t.0 as int) {
                Ok(u) => Ok((CellSpec::Uint(wrap_inc(u)), t.1.push(t.0 as usize))),
                Err(e) => Err(e),
            },
            Err(e) => Err(e),
        },
        Computation::Select { cond, on_true, on_false } => match read_flag(sigs, cond.id as int) {
            Ok(b) => {
                let br = if b {
                    on_true.id
                } else {
                    on_false.id
                };
                match read_uint(sigs, br as int) {
                    Ok(u) => Ok((CellSpec::Uint(u), seq![cond.id, br])),
                    Err(e) => Err(e),
                }
            },
            Err(e) => Err(e),
        },
        Computation::Concat(prefix, src) => match resolve_src(sigs, src) {
            Ok(t) => match read_text(sigs, t.0 as int) {
                Ok(txt) => Ok((CellSpec::Text(prefix@ + txt), t.1.push(t.0 as usize))),
                Err(e) => Err(e),
            },
            Err(e) => Err(e),
        },
    }
}

/// A successful run yields a value of the kind the computation's shape fixes.
pub proof fn lemma_spec_eval_kind(sigs: Seq<SignalStorage>, comp: Computation)
    ensures
        spec_eval(sigs, comp) matches Ok(p) ==> spec_kind(p.0) == comp_kind(comp),
{
}

/// Every signal a successful run reads lies inside the arena.
pub proof fn lemma_spec_eval_reads_bounded(sigs: Seq<SignalStorage>, comp: Computation)
    ensures
        spec_eval(sigs, comp) matches Ok(p) ==> forall|i: int|
            0 <= i < p.1.len() ==> (#[trigger] p.1[i]) < sigs.len(),
{
    if spec_eval(sigs, comp) matches Ok(p) {
        match comp {
            Computation::ConstUint(_) => {},
            Computation::ConstText(_) => {},
            Computation::Inc(src) => {
                lemma_resolve_reads_bounded(sigs, src);
            },
            Computation::Select { cond, on_true, on_false } => {},
            Computation::Concat(_, src) => {
                lemma_resolve_reads_bounded(sigs, src);
            },
        }
    }
}

/// Helper: the reads of a resolved source lie inside the arena, and so does
/// its target when the final read succeeds.
pub proof fn lemma_resolve_reads_bounded(sigs: Seq<SignalStorage>, src: Source)
    ensures
        resolve_src(sigs, src) matches Ok(t) ==> forall|i: int|
            0 <= i < t.1.len() ==> (#[trigger] t.1[i]) < sigs.len(),
{
}

/// Owner of exactly one scope tree and the arena of signal slots it backs.
/// Exactly one logical accessor at a time: every operation takes the runtime
/// exclusively, including propagation.
#[derive(Debug)]
pub struct RuntimeInner {
    pub scope_tree: ScopeTree,
    pub signals: Vec<SignalStorage>,
}

impl RuntimeInner {
    /// Soundness of one slot: the owner exists, a live signal lives in a live
    /// scope, dependency links stay inside the arena, and a recompute's
    /// stored value carries the kind its computation yields.
    pub open spec fn slot_wf(self, k: int) -> bool {
        let s = self.signals@[k];
        &&& s.owner < self.scope_tree.scopes@.len()
        &&& (s.alive ==> self.scope_tree.scopes@[s.owner as int].alive)
        &&& s.subs.wf()
        &&& (forall|x: usize| s.subs@.contains(x) ==> x < self.signals@.len())
        &&& s.deps.wf()
        &&& (forall|x: usize| s.deps@.contains(x) ==> x < self.signals@.len())
        &&& (s.value matches SignalValue::Func(df) ==> df.wf())
    }

    /// Soundness of the whole runtime.
    pub open spec fn wf(self) -> bool {
        &&& self.scope_tree.wf()
        &&& forall|k: int| 0 <= k < self.signals@.len() ==> #[trigger] self.slot_wf(k)
    }

    /// A fresh runtime, not yet holding a root scope.
    pub fn new() -> (r: RuntimeInner)
        ensures
            r.wf(),
            r.signals@.len() == 0,
            r.scope_tree.scopes@.len() == 0,
    {
        RuntimeInner { scope_tree: ScopeTree::new(), signals: Vec::new() }
    }

    /// Whether a root scope was already created in this runtime.
    pub fn in_use(&self) -> (r: bool)
        ensures
            r == (self.scope_tree.scopes@.len() > 0),
    {
        self.scope_tree.scopes.len() > 0
    }

    /// Discards all state, leaving a fresh runtime.
    pub fn discard(&mut self)
        ensures
            final(self).wf(),
            final(self).signals@.len() == 0,
            final(self).scope_tree.scopes@.len() == 0,
    {
        *self = RuntimeInner::new();
    }

    /// Allocates the root scope of a fresh runtime.
    pub fn init_root(&mut self) -> (s: Scope)
        requires
            old(self).scope_tree.scopes@.len() == 0,
            old(self).signals@.len() == 0,
        ensures
            final(self).wf(),
            s.sx == 0,
            final(self).scope_tree.spec_alive(0),
            final(self).signals@.len() == 0,
    {
        let sx = self.scope_tree.init();
        Scope { sx }
    }

    /// Allocates a child of a live scope.
    pub fn new_scope(&mut self, parent: Scope) -> (r: Result<Scope, ReactorError>)
        requires
            old(self).wf(),
        ensures
            final(self).wf(),
            final(self).signals@ == old(self).signals@,
            match r {
                Ok(s) => old(self).scope_tree.spec_alive(parent.sx as int)
                    && final(self).scope_tree.spec_alive(s.sx as int)
                    && s.sx == old(self).scope_tree.scopes@.len(),
                Err(e) => e == ReactorError::UseAfterDispose && !old(self).scope_tree.spec_alive(
                    parent.sx as int,
                ) && *final(self) == *old(self),
            },
    {
        match self.scope_tree.new_child(parent.sx) {
            Ok(sx) => {
                proof {
                    assert forall|k: int| 0 <= k < self.signals@.len() implies #[trigger] self
                        .slot_wf(k) by {
                        assert(old(self).slot_wf(k));
                    }
                }
                Ok(Scope { sx })
            },
            Err(e) => Err(e),
        }
    }

    /// Reads slot `id` as an integer, under the arena-wide model.
    fn get_uint_raw(&self, id: u64) -> (r: Result<u64, ReactorError>)
        ensures
            r == read_uint(self.signals@, id as int),
    {
        if id >= (self.signals.len() as u64) {
            return Err(ReactorError::UseAfterDispose);
        }
        let i = id as usize;
        if !self.signals[i].alive {
            return Err(ReactorError::UseAfterDispose);
        }
        match &self.signals[i].value {
            SignalValue::Data(a) => a.get_uint(),
            SignalValue::Func(df) => df.value.get_uint(),
        }
    }

    /// Reads slot `id` as a flag.
    fn get_flag_raw(&self, id: u64) -> (r: Result<bool, ReactorError>)
        ensures
            r == read_flag(self.signals@, id as int),
    {
        if id >= (self.signals.len() as u64) {
            return Err(ReactorError::UseAfterDispose);
        }
        let i = id as usize;
        if !self.signals[i].alive {
            return Err(ReactorError::UseAfterDispose);
        }
        match &self.signals[i].value {
            SignalValue::Data(a) => a.get_flag(),
            SignalValue::Func(df) => df.value.get_flag(),
        }
    }

    /// Reads slot `id` as text.
    fn get_text_raw(&self, id: u64) -> (r: Result<String, ReactorError>)
        ensures
            match read_text(self.signals@, id as int) {
                Ok(t) => r matches Ok(s) && s@ == t,
                Err(e) => r matches Err(e2) && e2 == e,
            },
    {
        if id >= (self.signals.len() as u64) {
            return Err(ReactorError::UseAfterDispose);
        }
        let i = id as usize;
        if !self.signals[i].alive {
            return Err(ReactorError::UseAfterDispose);
        }
        match &self.signals[i].value {
            SignalValue::Data(a) => a.cloned_text(),
            SignalValue::Func(df) => df.value.cloned_text(),
        }
    }

    /// Runs a computation against the current signal values: yields the fresh
    /// value together with the signals the run read, in order.
    pub fn eval(&self, comp: &Computation) -> (r: Result<(CellValue, Vec<usize>), ReactorError>)
        ensures
            match r {
                Ok(p) => spec_eval(self.signals@, *comp) matches Ok(q) && p.0@ == q.0 && p.1@
                    == q.1,
                Err(e) => spec_eval(self.signals@, *comp) == Err::<
                    (CellSpec, Seq<usize>),
                    ReactorError,
                >(e),
            },
    {
        match comp {
            Computation::ConstUint(u) => {
                let reads: Vec<usize> = Vec::new();
                proof {
                    assert(reads@ =~= Seq::<usize>::empty());
                }
                Ok((CellValue::Uint(*u), reads))
            },
            Computation::ConstText(s) => {
                let reads: Vec<usize> = Vec::new();
                proof {
                    assert(reads@ =~= Seq::<usize>::empty());
                }
                Ok((CellValue::Text(s.clone()), reads))
            },
            Computation::Inc(src) => {
                let mut reads: Vec<usize> = Vec::new();
                let target: u64 = match src {
                    Source::Direct(sig) => sig.id as u64,
                    Source::Via(p) => {
                        let t = match self.get_uint_raw(p.id as u64) {
                            Ok(t) => t,
                            Err(e) => {
                                return Err(e);
                            },
                        };
                        reads.push(p.id);
                        t
                    },
                };
                let u = match self.get_uint_raw(target) {
                    Ok(u) => u,
                    Err(e) => {
                        return Err(e);
                    },
                };
                proof {
                    assert((target as int) < self.signals@.len());
                }
                reads.push(target as usize);
                let nv = if u == u64::MAX {
                    0u64
                } else {
                    u + 1
                };
                proof {
                    let q = spec_eval(self.signals@, *comp)->Ok_0;
                    assert(reads@ =~= q.1);
                }
                Ok((CellValue::Uint(nv), reads))
            },
            Computation::Select { cond, on_true, on_false } => {
                let b = match self.get_flag_raw(cond.id as u64) {
                    Ok(b) => b,
                    Err(e) => {
                        return Err(e);
                    },
                };
                let br = if b {
                    on_true.id
                } else {
                    on_false.id
                };
                let u = match self.get_uint_raw(br as u64) {
                    Ok(u) => u,
                    Err(e) => {
                        return Err(e);
                    },
                };
                let mut reads: Vec<usize> = Vec::new();
                reads.push(cond.id);
                reads.push(br);
                proof {
                    let q = spec_eval(self.signals@, *comp)->Ok_0;
                    assert(reads@ =~= q.1);
                }
                Ok((CellValue::Uint(u), reads))
            },
            Computation::Concat(prefix, src) => {
                let mut reads: Vec<usize> = Vec::new();
                let target: u64 = match src {
                    Source::Direct(sig) => sig.id as u64,
                    Source::Via(p) => {
                        let t = match self.get_uint_raw(p.id as u64) {
                            Ok(t) => t,
                            Err(e) => {
                                return Err(e);
                            },
                        };
                        reads.push(p.id);
                        t
                    },
                };
                let txt = match self.get_text_raw(target) {
                    Ok(t) => t,
                    Err(e) => {
                        return Err(e);
                    },
                };
                proof {
                    assert((target as int) < self.signals@.len());
                }
                reads.push(target as usize);
                let mut full = prefix.clone();
                full.append(txt.as_str());
                proof {
                    let q = spec_eval(self.signals@, *comp)->Ok_0;
                    assert(reads@ =~= q.1);
                }
                Ok((CellValue::Text(full), reads))
            },
        }
    }

    /// An exact working copy of one slot, for read-modify-write updates.
    fn slot_duplicate(&self, at: usize) -> (r: SignalStorage)
        requires
            at < self.signals@.len(),
        ensures
            r.value == self.signals@[at as int].value,
            r.owner == self.signals@[at as int].owner,
            r.alive == self.signals@[at as int].alive,
            r.runs == self.signals@[at as int].runs,
            r.subs@ == self.signals@[at as int].subs@,
            r.deps@ == self.signals@[at as int].deps@,
            self.signals@[at as int].subs.wf() ==> r.subs.wf(),
            self.signals@[at as int].deps.wf() ==> r.deps.wf(),
    {
        let slot = &self.signals[at];
        SignalStorage {
            value: slot.value.duplicate(),
            subs: slot.subs.duplicate(),
            deps: slot.deps.duplicate(),
            owner: slot.owner,
            alive: slot.alive,
            runs: slot.runs,
        }
    }

    /// Records `d` as a dependent of slot `at`.
    fn sub_insert(&mut self, at: usize, d: usize)
        requires
            old(self).wf(),
            at < old(self).signals@.len(),
            d < old(self).signals@.len(),
        ensures
            final(self).wf(),
            final(self).scope_tree == old(self).scope_tree,
            final(self).signals@.len() == old(self).signals@.len(),
            forall|k: int|
                0 <= k < old(self).signals@.len() && k != at ==> final(self).signals@[k] == old(
                    self,
                ).signals@[k],
            final(self).signals@[at as int].value == old(self).signals@[at as int].value,
            final(self).signals@[at as int].owner == old(self).signals@[at as int].owner,
            final(self).signals@[at as int].alive == old(self).signals@[at as int].alive,
            final(self).signals@[at as int].runs == old(self).signals@[at as int].runs,
            final(self).signals@[at as int].deps@ == old(self).signals@[at as int].deps@,
            final(self).signals@[at as int].subs@ == insert_sub(
                old(self).signals@[at as int].subs@,
                d,
            ),
    {
        proof {
            assert(self.slot_wf(at as int));
        }
        let mut s = self.slot_duplicate(at);
        s.subs.add(d);
        self.signals[at] = s;
        proof {
            let pre = old(self).signals@;
            let post = self.signals@;
            assert forall|k: int| 0 <= k < post.len() implies #[trigger] self.slot_wf(k) by {
                assert(old(self).slot_wf(k));
                if k == at {
                    assert forall|x: usize| post[k].subs@.contains(x) implies x
                        < post.len() by {
                        lemma_insert_sub_contains(pre[k].subs@, d, x);
                    }
                }
            }
        }
    }

    /// Forgets `d` as a dependent of slot `at`.
    fn sub_remove(&mut self, at: usize, d: usize)
        requires
            old(self).wf(),
            at < old(self).signals@.len(),
        ensures
            final(self).wf(),
            final(self).scope_tree == old(self).scope_tree,
            final(self).signals@.len() == old(self).signals@.len(),
            forall|k: int|
                0 <= k < old(self).signals@.len() && k != at ==> final(self).signals@[k] == old(
                    self,
                ).signals@[k],
            final(self).signals@[at as int].value == old(self).signals@[at as int].value,
            final(self).signals@[at as int].owner == old(self).signals@[at as int].owner,
            final(self).signals@[at as int].alive == old(self).signals@[at as int].alive,
            final(self).signals@[at as int].runs == old(self).signals@[at as int].runs,
            final(self).signals@[at as int].deps@ == old(self).signals@[at as int].deps@,
            final(self).signals@[at as int].subs@ == remove_sub(
                old(self).signals@[at as int].subs@,
                d,
            ),
    {
        proof {
            assert(self.slot_wf(at as int));
        }
        let mut s = self.slot_duplicate(at);
        proof {
            s.subs.lemma_wf_distinct();
        }
        s.subs.remove(d);
        self.signals[at] = s;
        proof {
            let pre = old(self).signals@;
            let post = self.signals@;
            assert forall|k: int| 0 <= k < post.len() implies #[trigger] self.slot_wf(k) by {
                assert(old(self).slot_wf(k));
                if k == at {
                    assert forall|x: usize| post[k].subs@.contains(x) implies x
                        < post.len() by {
                        lemma_remove_sub_contains(pre[k].subs@, d, x);
                    }
                }
            }
        }
    }

    /// Allocates a directly settable signal in the given scope, seeded with
    /// `initial`.
    pub fn new_data(&mut self, scope: Scope, initial: CellValue) -> (r: Result<
        Signal,
        ReactorError,
    >)
        requires
            old(self).wf(),
        ensures
            final(self).wf(),
            final(self).scope_tree == old(self).scope_tree,
            match r {
                Ok(sig) => {
                    &&& old(self).scope_tree.spec_alive(scope.sx as int)
                    &&& sig.id == old(self).signals@.len()
                    &&& final(self).signals@.len() == old(self).signals@.len() + 1
                    &&& forall|k: int|
                        0 <= k < old(self).signals@.len() ==> final(self).signals@[k] == old(
                            self,
                        ).signals@[k]
                    &&& sig_val(final(self).signals@[sig.id as int]) == initial@
                    &&& final(self).signals@[sig.id as int].alive
                    &&& final(self).signals@[sig.id as int].value is Data
                    &&& final(self).signals@[sig.id as int].owner == scope.sx
                    &&& final(self).signals@[sig.id as int].subs@ == Seq::<usize>::empty()
                    &&& final(self).signals@[sig.id as int].runs == 0
                },
                Err(e) => {
                    &&& e == ReactorError::UseAfterDispose
                    &&& !old(self).scope_tree.spec_alive(scope.sx as int)
                    &&& *final(self) == *old(self)
                },
            },
    {
        if scope.sx >= self.scope_tree.scopes.len() {
            return Err(ReactorError::UseAfterDispose);
        }
        if !self.scope_tree.scopes[scope.sx].alive {
            return Err(ReactorError::UseAfterDispose);
        }
        let id = self.signals.len();
        self.signals.push(
            SignalStorage {
                value: SignalValue::Data(AnyData::new(initial)),
                subs: SubscriberSet::new(),
                deps: SubscriberSet::new(),
                owner: scope.sx,
                alive: true,
                runs: 0,
            },
        );
        proof {
            assert forall|k: int| 0 <= k < self.signals@.len() implies #[trigger] self.slot_wf(
                k,
            ) by {
                if k < old(self).signals@.len() {
                    assert(old(self).slot_wf(k));
                }
            }
        }
        Ok(Signal { id })
    }

    /// Reads a signal's current value. Fails on a disposed or unknown
    /// handle, never returns stale data.
    pub fn get(&self, sig: Signal) -> (r: Result<CellValue, ReactorError>)
        ensures
            match r {
                Ok(v) => read_sig(self.signals@, sig.id as int) == Ok::<CellSpec, ReactorError>(
                    v@,
                ),
                Err(e) => read_sig(self.signals@, sig.id as int) == Err::<CellSpec, ReactorError>(
                    e,
                ),
            },
    {
        if sig.id >= self.signals.len() {
            return Err(ReactorError::UseAfterDispose);
        }
        if !self.signals[sig.id].alive {
            return Err(ReactorError::UseAfterDispose);
        }
        match &self.signals[sig.id].value {
            SignalValue::Data(a) => Ok(a.cloned_value()),
            SignalValue::Func(df) => Ok(df.value.cloned_value()),
        }
    }

    /// Reads a signal's current value as an integer.
    pub fn get_uint(&self, sig: Signal) -> (r: Result<u64, ReactorError>)
        ensures
            r == read_uint(self.signals@, sig.id as int),
    {
        self.get_uint_raw(sig.id as u64)
    }

    /// Reads a signal's current value as a flag.
    pub fn get_flag(&self, sig: Signal) -> (r: Result<bool, ReactorError>)
        ensures
            r == read_flag(self.signals@, sig.id as int),
    {
        self.get_flag_raw(sig.id as u64)
    }

    /// Reads a signal's current value as text.
    pub fn get_text(&self, sig: Signal) -> (r: Result<String, ReactorError>)
        ensures
            match read_text(self.signals@, sig.id as int) {
                Ok(t) => r matches Ok(s) && s@ == t,
                Err(e) => r matches Err(e2) && e2 == e,
            },
    {
        self.get_text_raw(sig.id as u64)
    }

    /// How many times a derived signal's computation has run; zero for a
    /// settable signal.
    pub fn runs_of(&self, sig: Signal) -> (r: Result<u64, ReactorError>)
        ensures
            match r {
                Ok(n) => 0 <= sig.id < self.signals@.len() && self.signals@[sig.id as int].alive
                    && n == self.signals@[sig.id as int].runs,
                Err(e) => e == ReactorError::UseAfterDispose && !(0 <= sig.id
                    < self.signals@.len() && self.signals@[sig.id as int].alive),
            },
    {
        if sig.id >= self.signals.len() {
            return Err(ReactorError::UseAfterDispose);
        }
        if !self.signals[sig.id].alive {
            return Err(ReactorError::UseAfterDispose);
        }
        Ok(self.signals[sig.id].runs)
    }

    /// Disposes a scope: the scope, every descendant scope, and every signal
    /// they own are invalidated; handles into them fail afterwards.
    pub fn dispose_scope(&mut self, scope: Scope) -> (r: Result<(), ReactorError>)
        requires
            old(self).wf(),
        ensures
            final(self).wf(),
            final(self).signals@.len() == old(self).signals@.len(),
            match r {
                Ok(()) => {
                    &&& old(self).scope_tree.spec_alive(scope.sx as int)
                    &&& forall|j: int|
                        0 <= j < old(self).scope_tree.scopes@.len() ==> (#[trigger] final(self).scope_tree.scopes@[j]).alive == (old(self).scope_tree.scopes@[j].alive
                            && !in_subtree(old(self).scope_tree.scopes@, scope.sx as int, j))
                    &&& forall|k: int|
                        0 <= k < old(self).signals@.len() ==> {
                            &&& (#[trigger] final(self).signals@[k]).value == old(
                                self,
                            ).signals@[k].value
                            &&& final(self).signals@[k].owner == old(self).signals@[k].owner
                            &&& final(self).signals@[k].runs == old(self).signals@[k].runs
                            &&& final(self).signals@[k].subs@ == old(self).signals@[k].subs@
                            &&& final(self).signals@[k].deps@ == old(self).signals@[k].deps@
                            &&& final(self).signals@[k].alive == (old(self).signals@[k].alive
                                && !in_subtree(
                                old(self).scope_tree.scopes@,
                                scope.sx as int,
                                old(self).signals@[k].owner as int,
                            ))
                        }
                },
                Err(e) => {
                    &&& e == ReactorError::UseAfterDispose
                    &&& !old(self).scope_tree.spec_alive(scope.sx as int)
                    &&& *final(self) == *old(self)
                },
            },
    {
        match self.scope_tree.dispose(scope.sx) {
            Err(e) => {
                return Err(e);
            },
            Ok(()) => {},
        }
        let n = self.signals.len();
        proof {
            assert forall|q: int| 0 <= q < self.signals@.len() implies (self.signals@[q].subs.wf()
                && self.signals@[q].deps.wf()) by {
                assert(old(self).slot_wf(q));
            }
        }
        let mut k: usize = 0;
        while k < n
            invariant
                old(self).wf(),
                old(self).scope_tree.spec_alive(scope.sx as int),
                n == old(self).signals@.len(),
                n == self.signals@.len(),
                k <= n,
                self.scope_tree.wf(),
                self.scope_tree.scopes@.len() == old(self).scope_tree.scopes@.len(),
                forall|j: int|
                    0 <= j < old(self).scope_tree.scopes@.len() ==> (#[trigger] self
                        .scope_tree.scopes@[j]).alive == (old(self).scope_tree.scopes@[j].alive
                        && !in_subtree(old(self).scope_tree.scopes@, scope.sx as int, j)),
                forall|q: int|
                    0 <= q < n ==> {
                        &&& (#[trigger] self.signals@[q]).value == old(self).signals@[q].value
                        &&& self.signals@[q].owner == old(self).signals@[q].owner
                        &&& self.signals@[q].runs == old(self).signals@[q].runs
                        &&& self.signals@[q].subs@ == old(self).signals@[q].subs@
                        &&& self.signals@[q].subs.wf()
                        &&& self.signals@[q].deps@ == old(self).signals@[q].deps@
                        &&& self.signals@[q].deps.wf()
                        &&& (q < k ==> self.signals@[q].alive == (old(self).signals@[q].alive
                            && self.scope_tree.scopes@[old(self).signals@[q].owner as int].alive))
                        &&& (q >= k ==> self.signals@[q].alive == old(self).signals@[q].alive)
                    },
            decreases n - k,
        {
            proof {
                assert(old(self).slot_wf(k as int));
            }
            let owner = self.signals[k].owner;
            if !self.scope_tree.scopes[owner].alive {
                if self.signals[k].alive {
                    let mut s = self.slot_duplicate(k);
                    s.alive = false;
                    self.signals[k] = s;
                }
            }
            k += 1;
        }
        proof {
            assert forall|k2: int| 0 <= k2 < self.signals@.len() implies #[trigger] self.slot_wf(
                k2,
            ) by {
                assert(old(self).slot_wf(k2));
            }
            assert forall|k2: int| 0 <= k2 < n implies (#[trigger] self.signals@[k2]).alive == (
            old(self).signals@[k2].alive && !in_subtree(
                old(self).scope_tree.scopes@,
                scope.sx as int,
                old(self).signals@[k2].owner as int,
            )) by {
                assert(old(self).slot_wf(k2));
                let ow = old(self).signals@[k2].owner as int;
                if old(self).signals@[k2].alive {
                    assert(old(self).scope_tree.scopes@[ow].alive);
                }
            }
        }
        Ok(())
    }
    /// Allocates a derived signal in the given scope. The computation runs
    /// once eagerly to seed the value; the signals read during that run
    /// become its initial dependencies. `eq_gated` selects whether re-runs
    /// compare against the previous value before cascading.
    pub fn new_func(&mut self, scope: Scope, comp: Computation, eq_gated: bool) -> (r: Result<
        Signal,
        ReactorError,
    >)
        requires
            old(self).wf(),
        ensures
            final(self).wf(),
            final(self).scope_tree == old(self).scope_tree,
            match r {
                Ok(sig) => {
                    &&& old(self).scope_tree.spec_alive(scope.sx as int)
                    &&& spec_eval(old(self).signals@, comp) matches Ok(p) && {
                        &&& sig.id == old(self).signals@.len()
                        &&& final(self).signals@.len() == old(self).signals@.len() + 1
                        &&& sig_val(final(self).signals@[sig.id as int]) == p.0
                        &&& final(self).signals@[sig.id as int].alive
                        &&& (final(self).signals@[sig.id as int].value matches SignalValue::Func(
                            df,
                        ) && df.comp == comp && df.eq_gated == eq_gated)
                        &&& final(self).signals@[sig.id as int].owner == scope.sx
                        &&& final(self).signals@[sig.id as int].runs == 1
                        &&& final(self).signals@[sig.id as int].subs@ == Seq::<usize>::empty()
                        &&& (forall|x: usize|
                            final(self).signals@[sig.id as int].deps@.contains(x)
                                <==> p.1.contains(x))
                        &&& (forall|k: int|
                            0 <= k < old(self).signals@.len() ==> {
                                &&& (#[trigger] final(self).signals@[k]).value == old(
                                    self,
                                ).signals@[k].value
                                &&& final(self).signals@[k].owner == old(self).signals@[k].owner
                                &&& final(self).signals@[k].alive == old(self).signals@[k].alive
                                &&& final(self).signals@[k].runs == old(self).signals@[k].runs
                                &&& final(self).signals@[k].deps@ == old(self).signals@[k].deps@
                                &&& final(self).signals@[k].subs@ == (if p.1.contains(k as usize) {
                                    insert_sub(old(self).signals@[k].subs@, sig.id)
                                } else {
                                    old(self).signals@[k].subs@
                                })
                            })
                    }
                },
                Err(e) => {
                    &&& *final(self) == *old(self)
                    &&& (if !old(self).scope_tree.spec_alive(scope.sx as int) {
                        e == ReactorError::UseAfterDispose
                    } else {
                        spec_eval(old(self).signals@, comp) == Err::<
                            (CellSpec, Seq<usize>),
                            ReactorError,
                        >(e)
                    })
                },
            },
    {
        if scope.sx >= self.scope_tree.scopes.len() {
            return Err(ReactorError::UseAfterDispose);
        }
        if !self.scope_tree.scopes[scope.sx].alive {
            return Err(ReactorError::UseAfterDispose);
        }
        let (v, reads) = match self.eval(&comp) {
            Ok(p) => p,
            Err(e) => {
                return Err(e);
            },
        };
        proof {
            lemma_spec_eval_kind(self.signals@, comp);
            lemma_spec_eval_reads_bounded(self.signals@, comp);
            assert(forall|j: int|
                0 <= j < reads@.len() ==> (#[trigger] reads@[j]) < self.signals@.len());
        }
        let id = self.signals.len();
        // the dependency list of the new signal: everything the run read
        let mut deps = SubscriberSet::new();
        let rn = reads.len();
        let mut i: usize = 0;
        while i < rn
            invariant
                deps.wf(),
                rn == reads@.len(),
                i <= rn,
                forall|x: usize|
                    #[trigger] deps@.contains(x) <==> reads@.take(i as int).contains(x),
            decreases rn - i,
        {
            let x = reads[i];
            let ghost dpre = deps@;
            deps.add(x);
            proof {
                assert(reads@.take(i as int + 1) =~= reads@.take(i as int).push(reads@[i as int]));
                assert forall|y: usize|
                    #[trigger] deps@.contains(y) <==> reads@.take(i as int + 1).contains(y) by {
                    lemma_insert_sub_contains(dpre, x, y);
                    crate::subs::lemma_push_contains(reads@.take(i as int), reads@[i as int], y);
                }
            }
            i += 1;
        }
        proof {
            assert(reads@.take(rn as int) =~= reads@);
        }
        let df = DynFunc { comp, value: AnyData::new(v), eq_gated };
        self.signals.push(
            SignalStorage {
                value: SignalValue::Func(df),
                subs: SubscriberSet::new(),
                deps,
                owner: scope.sx,
                alive: true,
                runs: 1,
            },
        );
        proof {
            assert forall|k: int| 0 <= k < self.signals@.len() implies #[trigger] self.slot_wf(
                k,
            ) by {
                if k < old(self).signals@.len() {
                    assert(old(self).slot_wf(k));
                }
            }
        }
        let ghost mid = self.signals@;
        let mut i: usize = 0;
        while i < rn
            invariant
                self.wf(),
                self.scope_tree == old(self).scope_tree,
                rn == reads@.len(),
                i <= rn,
                id < self.signals@.len(),
                id == old(self).signals@.len(),
                self.signals@.len() == mid.len(),
                mid.len() == old(self).signals@.len() + 1,
                forall|j: int|
                    0 <= j < reads@.len() ==> (#[trigger] reads@[j]) < old(self).signals@.len(),
                self.signals@[id as int] == mid[id as int],
                forall|k: int|
                    0 <= k < id ==> {
                        &&& (#[trigger] self.signals@[k]).value == mid[k].value
                        &&& self.signals@[k].owner == mid[k].owner
                        &&& self.signals@[k].alive == mid[k].alive
                        &&& self.signals@[k].runs == mid[k].runs
                        &&& self.signals@[k].deps@ == mid[k].deps@
                        &&& self.signals@[k].subs@ == (if reads@.take(i as int).contains(
                            k as usize,
                        ) {
                            insert_sub(mid[k].subs@, id)
                        } else {
                            mid[k].subs@
                        })
                    },
            decreases rn - i,
        {
            let x = reads[i];
            let ghost pre = self.signals@;
            self.sub_insert(x, id);
            proof {
                assert(x < id);
                assert(self.signals@[id as int] == pre[id as int]);
                assert(reads@.take(i as int + 1) =~= reads@.take(i as int).push(reads@[i as int]));
                assert forall|k: int| 0 <= k < id implies {
                    &&& (#[trigger] self.signals@[k]).value == mid[k].value
                    &&& self.signals@[k].owner == mid[k].owner
                    &&& self.signals@[k].alive == mid[k].alive
                    &&& self.signals@[k].runs == mid[k].runs
                    &&& self.signals@[k].deps@ == mid[k].deps@
                } by {
                    if k != x as int {
                        assert(self.signals@[k] == pre[k]);
                    }
                }
                assert forall|k: int| 0 <= k < id implies {
                    &&& (#[trigger] self.signals@[k]).subs@ == (if reads@.take(i as int
                        + 1).contains(k as usize) {
                        insert_sub(mid[k].subs@, id)
                    } else {
                        mid[k].subs@
                    })
                } by {
                    crate::subs::lemma_push_contains(
                        reads@.take(i as int),
                        reads@[i as int],
                        k as usize,
                    );
                    if k == x as int {
                        if reads@.take(i as int).contains(k as usize) {
                            crate::subs::lemma_insert_sub_idempotent(mid[k].subs@, id);
                        }
                    }
                }
            }
            i += 1;
        }
        proof {
            assert(reads@.take(rn as int) =~= reads@);
        }
        Ok(Signal { id })
    }
}

/// Linear membership scan over a plain vector of slot indices.
fn contains_vec(v: &Vec<usize>, x: usize) -> (r: bool)
    ensures
        r == v@.contains(x),
{
    let mut i: usize = 0;
    while i < v.len()
        invariant
            i <= v@.len(),
            forall|j: int| 0 <= j < i ==> v@[j] != x,
        decreases v@.len() - i,
    {
        if v[i] == x {
            proof {
                assert(v@[i as int] == x);
            }
            return true;
        }
        i += 1;
    }
    false
}

/// Identity and kind of every slot are preserved: propagation re-runs
/// recomputes but never changes which slot is which.
pub open spec fn slot_same_shape(a: SignalStorage, b: SignalStorage) -> bool {
    &&& a.owner == b.owner
    &&& a.alive == b.alive
    &&& match (a.value, b.value) {
        (SignalValue::Data(_), SignalValue::Data(_)) => true,
        (SignalValue::Func(f1), SignalValue::Func(f2)) => f1.comp == f2.comp && f1.eq_gated
            == f2.eq_gated,
        _ => false,
    }
}

/// Shape preservation across a whole arena.
pub open spec fn shape_frame(pre: Seq<SignalStorage>, post: Seq<SignalStorage>) -> bool {
    &&& post.len() == pre.len()
    &&& forall|k: int| 0 <= k < pre.len() ==> slot_same_shape(pre[k], #[trigger] post[k])
}

/// Propagation never writes a directly settable slot.
pub open spec fn data_frame(pre: Seq<SignalStorage>, post: Seq<SignalStorage>) -> bool {
    forall|k: int|
        0 <= k < pre.len() && pre[k].value is Data ==> (#[trigger] post[k]).value == pre[k].value
}

/// One link of an increment chain: a live derived signal computing its
/// predecessor plus one.
pub open spec fn chain_link(sigs: Seq<SignalStorage>, i: int) -> bool {
    &&& sigs[i].alive
    &&& (sigs[i].value matches SignalValue::Func(df) && df.comp == Computation::Inc(
        Source::Direct(Signal { id: (i - 1) as usize }),
    ))
}

/// The shape of an increment chain: contiguous slots `root..=last` of the
/// arena, rooted at a live settable signal, each derived link reading its
/// predecessor, each member below `last` subscribed to exactly by its
/// successor, and the last member subscribed to by nothing.
pub open spec fn chain_shape(sigs: Seq<SignalStorage>, root: int, last: int) -> bool {
    &&& 0 <= root < last < sigs.len()
    &&& sigs[root].alive
    &&& sigs[root].value is Data
    &&& (forall|i: int| root < i <= last ==> #[trigger] chain_link(sigs, i))
    &&& (forall|i: int|
        root <= i < last ==> (#[trigger] sigs[i]).subs@ == seq![((i + 1) as usize)])
    &&& sigs[last].subs@ == Seq::<usize>::empty()
}

/// Mid-propagation snapshot of an increment chain: members before `d` carry
/// values derived from the freshly written `v`, members from `d` on still
/// carry values derived from the stale `x0`.
pub open spec fn chain_step_state(
    sigs: Seq<SignalStorage>,
    root: int,
    last: int,
    d: int,
    v: u64,
    x0: u64,
) -> bool {
    &&& chain_shape(sigs, root, last)
    &&& root < d <= last
    &&& v != x0
    &&& v + last - root <= u64::MAX
    &&& x0 + last - root <= u64::MAX
    &&& (forall|i: int|
        root <= i < d ==> sig_val(#[trigger] sigs[i]) == CellSpec::Uint((v + i - root) as u64))
    &&& (forall|i: int|
        d <= i <= last ==> sig_val(#[trigger] sigs[i]) == CellSpec::Uint((x0 + i - root) as u64))
}

/// A quiescent increment chain: the shape of [`chain_shape`], every member
/// holding the value derived from the stale root value `x0`, with room for a
/// fresh root value `vv` to propagate without overflow.
pub open spec fn chain_start_state(
    sigs: Seq<SignalStorage>,
    root: int,
    last: int,
    vv: u64,
    x0: u64,
) -> bool {
    &&& chain_shape(sigs, root, last)
    &&& vv != x0
    &&& vv + last - root <= u64::MAX
    &&& x0 + last - root <= u64::MAX
    &&& (forall|i: int|
        root <= i <= last ==> sig_val(#[trigger] sigs[i]) == CellSpec::Uint(
            (x0 + i - root) as u64,
        ))
}

/// Every identifier in the sequence lies strictly below `d`.
pub open spec fn all_below(s: Seq<usize>, d: int) -> bool {
    forall|j: int| 0 <= j < s.len() ==> ((#[trigger] s[j]) as int) < d
}

/// Re-evaluating one link of an increment chain mid-propagation: the run
/// reads exactly the predecessor and yields its fresh value plus one.
pub proof fn lemma_chain_eval(
    sigs: Seq<SignalStorage>,
    root: int,
    last: int,
    d: int,
    v: u64,
    x0: u64,
)
    requires
        chain_step_state(sigs, root, last, d, v, x0),
        d <= usize::MAX,
    ensures
        spec_eval(sigs, Computation::Inc(Source::Direct(Signal { id: (d - 1) as usize }))) == Ok::<
            (CellSpec, Seq<usize>),
            ReactorError,
        >((CellSpec::Uint((v + d - root) as u64), seq![((d - 1) as usize)])),
{
    let c = Computation::Inc(Source::Direct(Signal { id: (d - 1) as usize }));
    assert(((d - 1) as usize) as int == d - 1);
    assert(chain_link(sigs, d));
    if root < d - 1 {
        assert(chain_link(sigs, d - 1));
        assert(sigs[d - 1].alive);
    } else {
        assert(d - 1 == root);
        assert(sigs[d - 1].alive);
    }
    assert(sig_val(sigs[d - 1]) == CellSpec::Uint((v + d - 1 - root) as u64));
    assert(read_uint(sigs, d - 1) == Ok::<u64, ReactorError>((v + d - 1 - root) as u64));
    let base = (v + d - 1 - root) as u64;
    assert(base < u64::MAX);
    assert(wrap_inc(base) == (v + d - root) as u64);
    assert(Seq::<usize>::empty().push((d - 1) as usize) =~= seq![((d - 1) as usize)]);
}

/// Which error, if any, rules out writing `v` into the slot `sig` names.
pub open spec fn set_check(sigs: Seq<SignalStorage>, sig: Signal, v: CellSpec) -> Option<
    ReactorError,
> {
    if !(0 <= sig.id < sigs.len() && sigs[sig.id as int].alive) {
        Some(ReactorError::UseAfterDispose)
    } else if !(sigs[sig.id as int].value is Data) {
        Some(ReactorError::TypeMismatch)
    } else if spec_kind(sig_val(sigs[sig.id as int])) != spec_kind(v) {
        Some(ReactorError::TypeMismatch)
    } else {
        None
    }
}

impl RuntimeInner {
    /// Re-runs dependent `d`, rebuilds its dependency list from what the run
    /// read, and recurses into its own dependents when the value changed.
    /// `stack` holds the recomputations in progress (the explicit observer
    /// stack): revisiting one is a cycle, reported rather than recursed into.
    /// `done` holds the dependents already visited during this propagation:
    /// each is re-run at most once. `fuel` is the number of not-yet-visited
    /// slots, which bounds the recursion.
    fn propagate(
        &mut self,
        d: usize,
        stack: &mut Vec<usize>,
        done: &mut Vec<usize>,
        fuel: usize,
    ) -> (r: Result<(), ReactorError>)
        requires
            old(self).wf(),
            distinct_seq(old(done)@),
            forall|j: int|
                0 <= j < old(done)@.len() ==> (#[trigger] old(done)@[j]) < old(
                    self,
                ).signals@.len(),
            fuel == old(self).signals@.len() - old(done)@.len(),
        ensures
            final(self).wf(),
            final(self).scope_tree == old(self).scope_tree,
            final(self).signals@.len() == old(self).signals@.len(),
            shape_frame(old(self).signals@, final(self).signals@),
            data_frame(old(self).signals@, final(self).signals@),
            distinct_seq(final(done)@),
            forall|j: int|
                0 <= j < final(done)@.len() ==> (#[trigger] final(done)@[j]) < old(
                    self,
                ).signals@.len(),
            old(done)@.is_prefix_of(final(done)@),
            old(stack)@.is_prefix_of(final(stack)@),
            r is Ok ==> final(stack)@ == old(stack)@,
            old(stack)@.contains(d) ==> r == Err::<(), ReactorError>(ReactorError::CycleDetected)
                && *final(self) == *old(self) && final(done)@ == old(done)@ && final(stack)@ == old(
                stack,
            )@,
            forall|root: int, last: int, v: u64, x0: u64|
                ((#[trigger] chain_step_state(old(self).signals@, root, last, d as int, v, x0))
                    && all_below(old(done)@, d as int) && all_below(old(stack)@, d as int)) ==> (r
                    == Ok::<(), ReactorError>(()) && (forall|i: int|
                    root <= i <= last ==> sig_val(final(self).signals@[i]) == CellSpec::Uint(
                        (v + i - root) as u64,
                    ))),
        decreases fuel,
    {
        proof {
            crate::subs::lemma_prefix_push(stack@, d);
        }
        if contains_vec(stack, d) {
            proof {
                assert forall|root: int, last: int, v: u64, x0: u64|
                    ((#[trigger] chain_step_state(old(self).signals@, root, last, d as int, v, x0))
                        && all_below(old(done)@, d as int) && all_below(
                        old(stack)@,
                        d as int,
                    )) implies false by {
                    let j = choose|j: int| 0 <= j < stack@.len() && stack@[j] == d;
                    assert((stack@[j] as int) < d as int);
                }
            }
            return Err(ReactorError::CycleDetected);
        }
        if contains_vec(done, d) {
            proof {
                assert forall|root: int, last: int, v: u64, x0: u64|
                    ((#[trigger] chain_step_state(old(self).signals@, root, last, d as int, v, x0))
                        && all_below(old(done)@, d as int) && all_below(
                        old(stack)@,
                        d as int,
                    )) implies false by {
                    let j = choose|j: int| 0 <= j < done@.len() && done@[j] == d;
                    assert((done@[j] as int) < d as int);
                }
            }
            return Ok(());
        }
        if d >= self.signals.len() {
            return Err(ReactorError::UseAfterDispose);
        }
        if !self.signals[d].alive {
            proof {
                assert forall|root: int, last: int, v: u64, x0: u64|
                    ((#[trigger] chain_step_state(old(self).signals@, root, last, d as int, v, x0))
                        && all_below(old(done)@, d as int) && all_below(
                        old(stack)@,
                        d as int,
                    )) implies false by {
                    assert(chain_link(old(self).signals@, d as int));
                }
            }
            return Err(ReactorError::UseAfterDispose);
        }
        proof {
            assert(self.slot_wf(d as int));
        }
        let (comp, eq_gated) = match &self.signals[d].value {
            SignalValue::Data(_) => {
                proof {
                    assert forall|root: int, last: int, v: u64, x0: u64|
                        ((#[trigger] chain_step_state(
                            old(self).signals@,
                            root,
                            last,
                            d as int,
                            v,
                            x0,
                        )) && all_below(old(done)@, d as int) && all_below(
                            old(stack)@,
                            d as int,
                        )) implies false by {
                        assert(chain_link(old(self).signals@, d as int));
                    }
                }
                return Err(ReactorError::TypeMismatch);
            },
            SignalValue::Func(df) => (df.comp.duplicate(), df.eq_gated),
        };
        done.push(d);
        stack.push(d);
        proof {
            crate::subs::lemma_prefix_push(old(done)@, d);
            assert(distinct_seq(done@)) by {
                assert(forall|j: int| 0 <= j < old(done)@.len() ==> done@[j] == old(done)@[j]);
                assert(done@[old(done)@.len() as int] == d);
                assert(forall|j: int| 0 <= j < old(done)@.len() ==> old(done)@[j] != d);
            }
        }
        // re-run the computation against the current values
        let (newv, reads) = match self.eval(&comp) {
            Ok(p) => p,
            Err(e) => {
                proof {
                    assert forall|root: int, last: int, v: u64, x0: u64|
                        ((#[trigger] chain_step_state(
                            old(self).signals@,
                            root,
                            last,
                            d as int,
                            v,
                            x0,
                        )) && all_below(old(done)@, d as int) && all_below(
                            old(stack)@,
                            d as int,
                        )) implies false by {
                        assert(chain_link(old(self).signals@, d as int));
                        assert(comp == Computation::Inc(
                            Source::Direct(Signal { id: (d - 1) as usize }),
                        ));
                        lemma_chain_eval(old(self).signals@, root, last, d as int, v, x0);
                    }
                }
                return Err(e);
            },
        };
        proof {
            lemma_spec_eval_kind(self.signals@, comp);
            lemma_spec_eval_reads_bounded(self.signals@, comp);
            assert(forall|j: int|
                0 <= j < reads@.len() ==> (#[trigger] reads@[j]) < self.signals@.len());
        }
        // the dependency list is rebuilt from scratch on every run: first
        // drop the stale subscriptions of the previous run
        let old_deps = self.signals[d].deps.to_vec();
        proof {
            assert forall|j: int| 0 <= j < old_deps@.len() implies (#[trigger] old_deps@[j])
                < self.signals@.len() by {
                assert(self.signals@[d as int].deps@.contains(old_deps@[j]));
            }
        }
        let ghost entry = self.signals@;
        proof {
            self.signals@[d as int].deps.lemma_wf_distinct();
            assert(distinct_seq(old_deps@));
        }
        let dn = old_deps.len();
        let mut i: usize = 0;
        while i < dn
            invariant
                self.wf(),
                self.scope_tree == old(self).scope_tree,
                self.signals@.len() == entry.len(),
                dn == old_deps@.len(),
                i <= dn,
                d < entry.len(),
                distinct_seq(old_deps@),
                forall|j: int|
                    0 <= j < old_deps@.len() ==> (#[trigger] old_deps@[j]) < entry.len(),
                shape_frame(entry, self.signals@),
                data_frame(entry, self.signals@),
                forall|k: int|
                    0 <= k < entry.len() ==> {
                        &&& (#[trigger] self.signals@[k]).value == entry[k].value
                        &&& self.signals@[k].runs == entry[k].runs
                        &&& self.signals@[k].deps@ == entry[k].deps@
                        &&& self.signals@[k].alive == entry[k].alive
                    },
                forall|k: usize|
                    (k as int) < entry.len() ==> (#[trigger] self.signals@[k as int]).subs@ == (
                    if old_deps@.take(i as int).contains(k) {
                        remove_sub(entry[k as int].subs@, d)
                    } else {
                        entry[k as int].subs@
                    }),
            decreases dn - i,
        {
            let p = old_deps[i];
            let ghost pre = self.signals@;
            self.sub_remove(p, d);
            proof {
                assert forall|k: int| 0 <= k < entry.len() implies slot_same_shape(
                    entry[k],
                    #[trigger] self.signals@[k],
                ) by {
                    assert(slot_same_shape(entry[k], pre[k]));
                }
                assert(old_deps@.take(i as int + 1) =~= old_deps@.take(i as int).push(
                    old_deps@[i as int],
                ));
                assert forall|k: usize| (k as int) < entry.len() implies (#[trigger] self
                    .signals@[k as int]).subs@ == (if old_deps@.take(i as int + 1).contains(k) {
                    remove_sub(entry[k as int].subs@, d)
                } else {
                    entry[k as int].subs@
                }) by {
                    assert(old_deps@.take(i as int).len() == i as int);
                    crate::subs::lemma_push_contains(
                        old_deps@.take(i as int),
                        old_deps@[i as int],
                        k,
                    );
                    if k == p {
                        if old_deps@.take(i as int).contains(k) {
                            let j = choose|j: int|
                                0 <= j < old_deps@.take(i as int).len() && old_deps@.take(
                                    i as int,
                                )[j] == k;
                            assert(old_deps@[j] == old_deps@[i as int]);
                            assert(false);
                        }
                        assert(pre[k as int].subs@ == entry[k as int].subs@);
                        assert(self.signals@[k as int].subs@ == remove_sub(
                            pre[k as int].subs@,
                            d,
                        ));
                    } else {
                        assert(self.signals@[k as int] == pre[k as int]);
                    }
                }
            }
            i += 1;
        }
        proof {
            assert(old_deps@.take(dn as int) =~= old_deps@);
        }
        let ghost removed = self.signals@;
        proof {
            assert forall|k: usize| (k as int) < entry.len() implies (#[trigger] removed[
                k as int
            ].subs@) == (if old_deps@.contains(k) {
                remove_sub(entry[k as int].subs@, d)
            } else {
                entry[k as int].subs@
            }) by {}
        }
        // record the fresh dependencies and store the fresh value
        let mut deps = SubscriberSet::new();
        let rn = reads.len();
        let mut i: usize = 0;
        while i < rn
            invariant
                deps.wf(),
                rn == reads@.len(),
                i <= rn,
                forall|j: int|
                    0 <= j < reads@.len() ==> (#[trigger] reads@[j]) < entry.len(),
                forall|x: usize| #[trigger] deps@.contains(x) ==> reads@.contains(x),
            decreases rn - i,
        {
            let x = reads[i];
            let ghost dpre = deps@;
            deps.add(x);
            proof {
                assert forall|y: usize| #[trigger] deps@.contains(y) implies reads@.contains(
                    y,
                ) by {
                    lemma_insert_sub_contains(dpre, x, y);
                    if y == x {
                        assert(reads@[i as int] == y);
                    }
                }
            }
            i += 1;
        }
        let ghost before_store = self.signals@;
        let ghost before_rt = *self;
        let fresh_differs = match &self.signals[d].value {
            SignalValue::Func(df) => !df.value.matches_value(&newv),
            SignalValue::Data(_) => {
                proof {
                    assert(slot_same_shape(entry[d as int], before_store[d as int]));
                    assert(false);
                }
                true
            },
        };
        proof {
            assert(fresh_differs == !(sig_val(before_store[d as int]) == newv@));
        }
        let mut s = self.slot_duplicate(d);
        s.deps = deps;
        s.value = SignalValue::Func(DynFunc { comp, value: AnyData::new(newv), eq_gated });
        s.runs = if s.runs == u64::MAX {
            0
        } else {
            s.runs + 1
        };
        self.signals[d] = s;
        proof {
            assert forall|k: int| 0 <= k < self.signals@.len() implies #[trigger] self.slot_wf(
                k,
            ) by {
                if k != d {
                    assert(before_rt.wf());
                    assert(before_rt.slot_wf(k));
                    assert(self.signals@[k] == before_store[k]);
                } else {
                    let slot = self.signals@[k];
                    assert(before_rt.wf());
                    assert(before_rt.slot_wf(d as int));
                    assert(slot.subs@ == before_store[d as int].subs@);
                    assert forall|x: usize| slot.deps@.contains(x) implies x
                        < self.signals@.len() by {
                        assert(reads@.contains(x));
                        let j = choose|j: int| 0 <= j < reads@.len() && reads@[j] == x;
                        assert(reads@[j] < entry.len());
                    }
                    assert(before_store[d as int].value == entry[d as int].value);
                    assert(entry == old(self).signals@);
                    let df2 = slot.value->Func_0;
                    assert(df2.comp == comp);
                    assert(df2.value@ == newv@);
                    assert(spec_kind(newv@) == comp_kind(comp));
                    assert(df2.wf());
                }
            }
            assert forall|k: int| 0 <= k < entry.len() implies slot_same_shape(
                entry[k],
                #[trigger] self.signals@[k],
            ) by {
                assert(slot_same_shape(entry[k], before_store[k]));
            }
        }
        let changed = if eq_gated {
            fresh_differs
        } else {
            true
        };
        // subscribe to everything the fresh run read
        let ghost mid = self.signals@;
        let mut i: usize = 0;
        while i < rn
            invariant
                self.wf(),
                self.scope_tree == old(self).scope_tree,
                self.signals@.len() == entry.len(),
                rn == reads@.len(),
                i <= rn,
                d < entry.len(),
                mid.len() == entry.len(),
                forall|j: int|
                    0 <= j < reads@.len() ==> (#[trigger] reads@[j]) < entry.len(),
                shape_frame(entry, self.signals@),
                data_frame(entry, self.signals@),
                forall|k: int|
                    0 <= k < entry.len() ==> {
                        &&& (#[trigger] self.signals@[k]).value == mid[k].value
                        &&& self.signals@[k].runs == mid[k].runs
                        &&& self.signals@[k].deps@ == mid[k].deps@
                        &&& self.signals@[k].alive == mid[k].alive
                    },
                forall|k: usize|
                    (k as int) < entry.len() ==> (#[trigger] self.signals@[k as int]).subs@ == (
                    if reads@.take(i as int).contains(k) {
                        insert_sub(mid[k as int].subs@, d)
                    } else {
                        mid[k as int].subs@
                    }),
            decreases rn - i,
        {
            let x = reads[i];
            let ghost pre = self.signals@;
            self.sub_insert(x, d);
            proof {
                assert forall|k: int| 0 <= k < entry.len() implies slot_same_shape(
                    entry[k],
                    #[trigger] self.signals@[k],
                ) by {
                    assert(slot_same_shape(entry[k], pre[k]));
                }
                assert forall|k: int|
                    0 <= k < entry.len() && entry[k].value is Data implies (#[trigger] self
                    .signals@[k]).value == entry[k].value by {
                    assert(pre[k].value == entry[k].value);
                }
                assert(reads@.take(i as int + 1) =~= reads@.take(i as int).push(reads@[i as int]));
                assert forall|k: usize| (k as int) < entry.len() implies (#[trigger] self
                    .signals@[k as int]).subs@ == (if reads@.take(i as int + 1).contains(k) {
                    insert_sub(mid[k as int].subs@, d)
                } else {
                    mid[k as int].subs@
                }) by {
                    assert(reads@.take(i as int).len() == i as int);
                    crate::subs::lemma_push_contains(reads@.take(i as int), reads@[i as int], k);
                    if k == x {
                        if reads@.take(i as int).contains(k) {
                            crate::subs::lemma_insert_sub_idempotent(mid[k as int].subs@, d);
                        }
                    } else {
                        assert(self.signals@[k as int] == pre[k as int]);
                    }
                }
            }
            i += 1;
        }
        proof {
            assert(reads@.take(rn as int) =~= reads@);
        }
        let ghost retracked = self.signals@;
        proof {
            assert forall|k: usize| (k as int) < entry.len() implies (#[trigger] retracked[
                k as int
            ].subs@) == (if reads@.contains(k) {
                insert_sub(mid[k as int].subs@, d)
            } else {
                mid[k as int].subs@
            }) by {}
            assert(before_store == removed);
            assert(mid == before_store.update(d as int, mid[d as int]));
            assert(mid[d as int].subs@ == before_store[d as int].subs@);
        }
        proof {
            assert(entry == old(self).signals@);
            assert(mid[d as int].value matches SignalValue::Func(dfx) && dfx.comp == comp
                && dfx.value@ == newv@);
            assert forall|root: int, last: int, v: u64, x0: u64|
                (#[trigger] chain_step_state(old(self).signals@, root, last, d as int, v, x0))
                    implies {
                &&& changed
                &&& sig_val(retracked[d as int]) == CellSpec::Uint((v + d - root) as u64)
                &&& (forall|k: int|
                    0 <= k < entry.len() && k != d ==> sig_val(#[trigger] retracked[k]) == sig_val(
                        entry[k],
                    ))
                &&& ((d as int) == last ==> retracked[d as int].subs@ == Seq::<usize>::empty())
                &&& ((d as int) < last ==> retracked[d as int].subs@ == seq![((d + 1) as usize)])
                &&& ((d as int) < last ==> chain_step_state(retracked, root, last, d as int + 1, v, x0))
            } by {
                assert(chain_link(entry, d as int));
                assert(comp == Computation::Inc(Source::Direct(Signal { id: (d - 1) as usize })));
                lemma_chain_eval(old(self).signals@, root, last, d as int, v, x0);
                assert(newv@ == CellSpec::Uint((v + d - root) as u64));
                assert(reads@ == seq![((d - 1) as usize)]);
                // the recompute saw the stale value and reports a change
                assert(sig_val(before_store[d as int]) == sig_val(entry[d as int]));
                assert(sig_val(entry[d as int]) == CellSpec::Uint((x0 + d - root) as u64));
                assert((x0 + d - root) as u64 != (v + d - root) as u64);
                assert(fresh_differs);
                // values: only slot `d` was rewritten
                assert forall|k: int|
                    0 <= k < entry.len() && k != d implies sig_val(#[trigger] retracked[k])
                        == sig_val(entry[k]) by {
                    assert(retracked[k].value == mid[k].value);
                    assert(mid[k].value == before_store[k].value);
                    assert(before_store[k].value == entry[k].value);
                }
                assert(retracked[d as int].value == mid[d as int].value);
                assert(sig_val(retracked[d as int]) == newv@);
                // the membership of the read list: exactly the predecessor
                assert forall|k: usize| reads@.contains(k) implies k == (d - 1) as usize by {
                    let j = choose|j: int| 0 <= j < reads@.len() && reads@[j] == k;
                }
                assert(reads@.contains((d - 1) as usize)) by {
                    assert(reads@[0] == (d - 1) as usize);
                }
                // subscriber sets across the rebuild: every chain edge survives
                assert forall|k: int| root <= k <= last implies (#[trigger] retracked[k]).subs@
                    == entry[k].subs@ || (k == d - 1 && retracked[k].subs@ == seq![d]) by {
                    assert(mid[k].subs@ == before_store[k].subs@);
                    let ks = k as usize;
                    assert(ks as int == k);
                    // removal: `d` was not a member of any chain subscriber set
                    // except possibly its predecessor's
                    assert(before_store[k].subs@ == (if old_deps@.contains(ks) {
                        remove_sub(entry[k].subs@, d)
                    } else {
                        entry[k].subs@
                    }));
                    if k < last {
                        assert(entry[k].subs@ == seq![((k + 1) as usize)]);
                        if k != d - 1 {
                            assert(!entry[k].subs@.contains(d)) by {
                                if entry[k].subs@.contains(d) {
                                    let j = choose|j: int|
                                        0 <= j < entry[k].subs@.len() && entry[k].subs@[j] == d;
                                    assert(entry[k].subs@[0] == (k + 1) as usize);
                                    assert((k + 1) as usize == d);
                                }
                            }
                            assert(remove_sub(entry[k].subs@, d) == entry[k].subs@);
                            assert(retracked[k].subs@ == mid[k].subs@);
                            assert(retracked[k].subs@ == entry[k].subs@);
                        } else {
                            // the predecessor: drop then re-add leaves exactly [d]
                            assert(entry[k].subs@[0] == (k + 1) as usize);
                            assert((k + 1) as usize == d);
                            assert(reads@.contains(ks));
                            if old_deps@.contains(ks) {
                                assert(entry[k].subs@.contains(d)) by {
                                    assert(entry[k].subs@[0] == d);
                                }
                                assert(entry[k].subs@.index_of(d) == 0);
                                assert(remove_sub(entry[k].subs@, d) =~= Seq::<usize>::empty());
                                assert(insert_sub(Seq::<usize>::empty(), d) =~= seq![d]);
                                assert(retracked[k].subs@ == seq![d]);
                            } else {
                                assert(mid[k].subs@ == seq![d]);
                                assert(mid[k].subs@.contains(d)) by {
                                    assert(mid[k].subs@[0] == d);
                                }
                                assert(insert_sub(mid[k].subs@, d) == mid[k].subs@);
                                assert(retracked[k].subs@ == seq![d]);
                            }
                        }
                    } else {
                        // the final link: nothing subscribes to it
                        assert(entry[k].subs@ == Seq::<usize>::empty());
                        assert(!entry[k].subs@.contains(d));
                        assert(remove_sub(entry[k].subs@, d) == entry[k].subs@);
                        assert(k != d - 1);
                        assert(retracked[k].subs@ == entry[k].subs@);
                    }
                }
                assert(d - 1 < last);
                assert(retracked[d as int - 1].subs@ == seq![d]);
                if (d as int) < last {
                    assert(retracked[d as int].subs@ == entry[d as int].subs@);
                    assert(entry[d as int].subs@ == seq![((d + 1) as usize)]);
                    // the advanced chain snapshot
                    assert(chain_step_state(retracked, root, last, d as int + 1, v, x0)) by {
                        assert forall|i2: int| root < i2 <= last implies #[trigger] chain_link(
                            retracked,
                            i2,
                        ) by {
                            assert(chain_link(entry, i2));
                            assert(slot_same_shape(entry[i2], retracked[i2]));
                            assert(retracked[i2].alive == entry[i2].alive);
                        }
                        assert forall|i2: int|
                            root <= i2 < last implies (#[trigger] retracked[i2]).subs@ == seq![
                            ((i2 + 1) as usize),
                        ] by {
                            if i2 == d - 1 {
                                assert(retracked[i2].subs@ == seq![d]);
                                assert(seq![d] =~= seq![((i2 + 1) as usize)]);
                            } else {
                                assert(retracked[i2].subs@ == entry[i2].subs@);
                            }
                        }
                        assert(retracked[last].subs@ == entry[last].subs@);
                        assert forall|i2: int| root <= i2 < d as int + 1 implies sig_val(
                            #[trigger] retracked[i2],
                        ) == CellSpec::Uint((v + i2 - root) as u64) by {
                            if i2 != d {
                                assert(sig_val(retracked[i2]) == sig_val(entry[i2]));
                            }
                        }
                        assert forall|i2: int| d as int + 1 <= i2 <= last implies sig_val(
                            #[trigger] retracked[i2],
                        ) == CellSpec::Uint((x0 + i2 - root) as u64) by {
                            assert(sig_val(retracked[i2]) == sig_val(entry[i2]));
                        }
                    }
                } else {
                    assert(retracked[d as int].subs@ == entry[d as int].subs@);
                }
            }
        }
        if changed {
            // the value changed: the cascade keeps going through this
            // signal's own dependents
            proof {
                assert(self.slot_wf(d as int));
            }
            let snapshot = self.signals[d].subs.to_vec();
            proof {
                assert forall|j: int| 0 <= j < snapshot@.len() implies (#[trigger] snapshot@[j])
                    < entry.len() by {
                    assert(self.signals@[d as int].subs@.contains(snapshot@[j]));
                }
            }
            let sn = snapshot.len();
            let mut i: usize = 0;
            while i < sn
                invariant
                    self.wf(),
                    self.scope_tree == old(self).scope_tree,
                    self.signals@.len() == entry.len(),
                    entry.len() == old(self).signals@.len(),
                    fuel == old(self).signals@.len() - old(done)@.len(),
                    !old(stack)@.contains(d),
                    sn == snapshot@.len(),
                    i <= sn,
                    forall|j: int|
                        0 <= j < snapshot@.len() ==> (#[trigger] snapshot@[j]) < entry.len(),
                    shape_frame(old(self).signals@, self.signals@),
                    data_frame(old(self).signals@, self.signals@),
                    distinct_seq(done@),
                    forall|j: int|
                        0 <= j < done@.len() ==> (#[trigger] done@[j]) < entry.len(),
                    old(done)@.push(d).is_prefix_of(done@),
                    stack@ == old(stack)@.push(d),
                    snapshot@ == retracked[d as int].subs@,
                    (i == 0 ==> self.signals@ == retracked && done@ == old(done)@.push(d)),
                    forall|root: int, last: int, v: u64, x0: u64|
                        (#[trigger] chain_step_state(
                            old(self).signals@,
                            root,
                            last,
                            d as int,
                            v,
                            x0,
                        )) ==> {
                            &&& ((d as int) == last ==> retracked[d as int].subs@ == Seq::<
                                usize,
                            >::empty())
                            &&& ((d as int) < last ==> retracked[d as int].subs@ == seq![
                                ((d + 1) as usize),
                            ])
                            &&& ((d as int) < last ==> chain_step_state(
                                retracked,
                                root,
                                last,
                                d as int + 1,
                                v,
                                x0,
                            ))
                            &&& (forall|k: int|
                                0 <= k < entry.len() && k != d ==> sig_val(
                                    #[trigger] retracked[k],
                                ) == sig_val(entry[k]))
                            &&& sig_val(retracked[d as int]) == CellSpec::Uint(
                                (v + d - root) as u64,
                            )
                        },
                    forall|root: int, last: int, v: u64, x0: u64|
                        ((#[trigger] chain_step_state(
                            old(self).signals@,
                            root,
                            last,
                            d as int,
                            v,
                            x0,
                        )) && all_below(old(done)@, d as int) && all_below(
                            old(stack)@,
                            d as int,
                        )) ==> {
                            &&& ((d as int) == last ==> sn == 0)
                            &&& sn <= 1
                            &&& (i >= 1 ==> (forall|ii: int|
                                root <= ii <= last ==> sig_val(self.signals@[ii])
                                    == CellSpec::Uint((v + ii - root) as u64)))
                        },
                decreases sn - i,
            {
                proof {
                    crate::subs::lemma_distinct_bounded_len(done@, self.signals@.len());
                }
                let f = self.signals.len() - done.len();
                let ghost loop_pre = self.signals@;
                let ghost done_pre = done@;
                let ghost stack_pre = stack@;
                proof {
                    assert forall|root: int, last: int, v: u64, x0: u64|
                        ((#[trigger] chain_step_state(
                            old(self).signals@,
                            root,
                            last,
                            d as int,
                            v,
                            x0,
                        )) && all_below(old(done)@, d as int) && all_below(
                            old(stack)@,
                            d as int,
                        )) implies {
                        &&& i == 0
                        &&& (d as int) < last
                        &&& (snapshot@[i as int] as int) == d as int + 1
                        &&& chain_step_state(loop_pre, root, last, d as int + 1, v, x0)
                        &&& all_below(done_pre, d as int + 1)
                        &&& all_below(stack_pre, d as int + 1)
                    } by {
                        assert(sn <= 1 && i < sn);
                        assert(i == 0);
                        if (d as int) == last {
                            assert(sn == 0);
                            assert(false);
                        }
                        assert(retracked[d as int].subs@ == seq![((d + 1) as usize)]);
                        assert(snapshot@[0] == (d + 1) as usize);
                        assert(loop_pre == retracked);
                        assert(chain_step_state(retracked, root, last, d as int + 1, v, x0));
                        assert forall|j: int| 0 <= j < done_pre.len() implies ((
                        #[trigger] done_pre[j]) as int) < d as int + 1 by {
                            assert(done_pre == old(done)@.push(d));
                            if j < old(done)@.len() {
                                assert(done_pre[j] == old(done)@[j]);
                            } else {
                                assert(done_pre[j] == d);
                            }
                        }
                        assert forall|j: int| 0 <= j < stack_pre.len() implies ((
                        #[trigger] stack_pre[j]) as int) < d as int + 1 by {
                            assert(stack_pre == old(stack)@.push(d));
                            if j < old(stack)@.len() {
                                assert(stack_pre[j] == old(stack)@[j]);
                            } else {
                                assert(stack_pre[j] == d);
                            }
                        }
                    }
                }
                match self.propagate(snapshot[i], stack, done, f) {
                    Err(e) => {
                        proof {
                            crate::subs::lemma_prefix_trans(old(done)@.push(d), done_pre, done@);
                            crate::subs::lemma_prefix_push(old(done)@, d);
                            crate::subs::lemma_prefix_trans(old(done)@, old(done)@.push(d), done@);
                            crate::subs::lemma_prefix_push(old(stack)@, d);
                            crate::subs::lemma_prefix_trans(old(stack)@, stack_pre, stack@);
                            assert forall|k: int| 0 <= k < entry.len() implies slot_same_shape(
                                old(self).signals@[k],
                                #[trigger] self.signals@[k],
                            ) by {
                                assert(slot_same_shape(old(self).signals@[k], loop_pre[k]));
                                assert(slot_same_shape(loop_pre[k], self.signals@[k]));
                            }
                            assert forall|k: int|
                                0 <= k < entry.len() && old(self).signals@[k].value
                                    is Data implies (#[trigger] self.signals@[k]).value == old(
                                self,
                            ).signals@[k].value by {
                                assert(loop_pre[k].value == old(self).signals@[k].value);
                                assert(slot_same_shape(old(self).signals@[k], loop_pre[k]));
                            }
                            assert forall|root: int, last: int, v: u64, x0: u64|
                                ((#[trigger] chain_step_state(
                                    old(self).signals@,
                                    root,
                                    last,
                                    d as int,
                                    v,
                                    x0,
                                )) && all_below(old(done)@, d as int) && all_below(
                                    old(stack)@,
                                    d as int,
                                )) implies false by {
                                assert(chain_step_state(
                                    loop_pre,
                                    root,
                                    last,
                                    (snapshot@[i as int]) as int,
                                    v,
                                    x0,
                                ));
                            }
                        }
                        return Err(e);
                    },
                    Ok(()) => {},
                }
                proof {
                    crate::subs::lemma_prefix_trans(old(done)@.push(d), done_pre, done@);
                    assert forall|k: int| 0 <= k < entry.len() implies slot_same_shape(
                        old(self).signals@[k],
                        #[trigger] self.signals@[k],
                    ) by {
                        assert(slot_same_shape(old(self).signals@[k], loop_pre[k]));
                        assert(slot_same_shape(loop_pre[k], self.signals@[k]));
                    }
                    assert forall|k: int|
                        0 <= k < entry.len() && old(self).signals@[k].value is Data implies (
                    #[trigger] self.signals@[k]).value == old(self).signals@[k].value by {
                        assert(loop_pre[k].value == old(self).signals@[k].value);
                        assert(slot_same_shape(old(self).signals@[k], loop_pre[k]));
                    }
                    assert forall|root: int, last: int, v: u64, x0: u64|
                        ((#[trigger] chain_step_state(
                            old(self).signals@,
                            root,
                            last,
                            d as int,
                            v,
                            x0,
                        )) && all_below(old(done)@, d as int) && all_below(
                            old(stack)@,
                            d as int,
                        )) implies (forall|ii: int|
                        root <= ii <= last ==> sig_val(self.signals@[ii]) == CellSpec::Uint(
                            (v + ii - root) as u64,
                        )) by {
                        assert(chain_step_state(
                            loop_pre,
                            root,
                            last,
                            (snapshot@[i as int]) as int,
                            v,
                            x0,
                        ));
                    }
                }
                i += 1;
            }
            proof {
                assert forall|root: int, last: int, v: u64, x0: u64|
                    ((#[trigger] chain_step_state(old(self).signals@, root, last, d as int, v, x0))
                        && all_below(old(done)@, d as int) && all_below(
                        old(stack)@,
                        d as int,
                    )) implies (forall|ii: int|
                    root <= ii <= last ==> sig_val(self.signals@[ii]) == CellSpec::Uint(
                        (v + ii - root) as u64,
                    )) by {
                    if (d as int) == last {
                        assert(sn == 0);
                        assert(i == 0);
                        assert(self.signals@ == retracked);
                        assert forall|ii: int| root <= ii <= last implies sig_val(
                            self.signals@[ii],
                        ) == CellSpec::Uint((v + ii - root) as u64) by {
                            if ii != d {
                                assert(sig_val(retracked[ii]) == sig_val(entry[ii]));
                            }
                        }
                    } else {
                        assert(sn == 1);
                        assert(i == 1);
                    }
                }
            }
        } else {
            proof {
                assert forall|root: int, last: int, v: u64, x0: u64|
                    ((#[trigger] chain_step_state(old(self).signals@, root, last, d as int, v, x0))
                        && all_below(old(done)@, d as int) && all_below(
                        old(stack)@,
                        d as int,
                    )) implies (forall|ii: int|
                    root <= ii <= last ==> sig_val(self.signals@[ii]) == CellSpec::Uint(
                        (v + ii - root) as u64,
                    )) by {
                    assert(false);
                }
            }
        }
        let _ = stack.pop();
        proof {
            assert(stack@ =~= old(stack)@);
            crate::subs::lemma_prefix_push(old(done)@, d);
            crate::subs::lemma_prefix_trans(old(done)@, old(done)@.push(d), done@);
        }
        Ok(())
    }

    /// Replaces the value of a directly settable signal, then propagates:
    /// each direct subscriber is re-run with its dependency list rebuilt from
    /// scratch; a dependent that reports "changed" cascades into its own
    /// subscribers, one that reports "unchanged" stops its branch. Every
    /// reachable, non-short-circuited dependent is visited at most once per
    /// call; revisiting a recomputation already in progress is reported as
    /// [`ReactorError::CycleDetected`] instead of looping.
    ///
    /// Propagation correctness along a chain is part of the contract: writing
    /// a fresh integer into the root of a quiescent increment chain succeeds
    /// and leaves every derived link holding the fresh value plus its
    /// distance from the root. The hypothesis constrains only the signal
    /// arena, never the scope tree, so a chain built through nested child
    /// scopes and one built through sibling scopes obey the same bound.
    pub fn set(&mut self, sig: Signal, v: CellValue) -> (r: Result<(), ReactorError>)
        requires
            old(self).wf(),
        ensures
            final(self).wf(),
            final(self).scope_tree == old(self).scope_tree,
            final(self).signals@.len() == old(self).signals@.len(),
            shape_frame(old(self).signals@, final(self).signals@),
            forall|last: int, vv: u64, x0: u64|
                ((#[trigger] chain_start_state(old(self).signals@, sig.id as int, last, vv, x0))
                    && set_check(old(self).signals@, sig, v@) is None && v@ == CellSpec::Uint(
                    vv,
                )) ==> (r == Ok::<(), ReactorError>(()) && (forall|i: int|
                    sig.id <= i <= last ==> sig_val(final(self).signals@[i]) == CellSpec::Uint(
                        (vv + i - sig.id) as u64,
                    ))),
            match set_check(old(self).signals@, sig, v@) {
                Some(e) => r == Err::<(), ReactorError>(e) && *final(self) == *old(self),
                None => {
                    &&& sig_val(final(self).signals@[sig.id as int]) == v@
                    &&& forall|k: int|
                        0 <= k < old(self).signals@.len() && k != sig.id && old(
                            self,
                        ).signals@[k].value is Data ==> (#[trigger] final(self).signals@[k]).value
                            == old(self).signals@[k].value
                    &&& (old(self).signals@[sig.id as int].subs@.len() == 0 ==> r == Ok::<
                        (),
                        ReactorError,
                    >(()) && (forall|k: int|
                        0 <= k < old(self).signals@.len() && k != sig.id
                            ==> (#[trigger] final(self).signals@[k]) == old(self).signals@[k]))
                },
            },
    {
        if sig.id >= self.signals.len() {
            return Err(ReactorError::UseAfterDispose);
        }
        if !self.signals[sig.id].alive {
            return Err(ReactorError::UseAfterDispose);
        }
        proof {
            assert(self.slot_wf(sig.id as int));
        }
        let stored_kind = match &self.signals[sig.id].value {
            SignalValue::Func(_) => {
                return Err(ReactorError::TypeMismatch);
            },
            SignalValue::Data(a) => a.kind(),
        };
        if stored_kind != v.kind() {
            return Err(ReactorError::TypeMismatch);
        }
        let mut s = self.slot_duplicate(sig.id);
        s.value = SignalValue::Data(AnyData::new(v));
        self.signals[sig.id] = s;
        proof {
            assert forall|k: int| 0 <= k < self.signals@.len() implies #[trigger] self.slot_wf(
                k,
            ) by {
                if k != sig.id {
                    assert(self.signals@[k] == old(self).signals@[k]);
                }
                assert(old(self).slot_wf(k));
            }
        }
        let ghost written = self.signals@;
        let snapshot = self.signals[sig.id].subs.to_vec();
        proof {
            assert(snapshot@ == old(self).signals@[sig.id as int].subs@);
            assert forall|j: int| 0 <= j < snapshot@.len() implies (#[trigger] snapshot@[j])
                < self.signals@.len() by {
                assert(self.signals@[sig.id as int].subs@.contains(snapshot@[j]));
            }
        }
        proof {
            assert forall|last: int, vv: u64, x0: u64|
                ((#[trigger] chain_start_state(old(self).signals@, sig.id as int, last, vv, x0))
                    && v@ == CellSpec::Uint(vv)) implies {
                &&& snapshot@ == seq![((sig.id + 1) as usize)]
                &&& chain_step_state(written, sig.id as int, last, sig.id as int + 1, vv, x0)
            } by {
                let root = sig.id as int;
                assert(snapshot@ == old(self).signals@[root].subs@);
                assert(written[root].subs@ == old(self).signals@[root].subs@);
                assert(sig_val(written[root]) == v@);
                assert forall|k: int| 0 <= k < written.len() && k != root implies written[k]
                    == old(self).signals@[k] by {}
                assert(chain_shape(written, root, last)) by {
                    assert forall|i2: int| root < i2 <= last implies #[trigger] chain_link(
                        written,
                        i2,
                    ) by {
                        assert(chain_link(old(self).signals@, i2));
                    }
                    assert forall|i2: int|
                        root <= i2 < last implies (#[trigger] written[i2]).subs@ == seq![
                        ((i2 + 1) as usize),
                    ] by {}
                }
                assert forall|i2: int| root <= i2 < root + 1 implies sig_val(
                    #[trigger] written[i2],
                ) == CellSpec::Uint((vv + i2 - root) as u64) by {}
                assert forall|i2: int| root + 1 <= i2 <= last implies sig_val(
                    #[trigger] written[i2],
                ) == CellSpec::Uint((x0 + i2 - root) as u64) by {
                    assert(sig_val(old(self).signals@[i2]) == CellSpec::Uint(
                        (x0 + i2 - root) as u64,
                    ));
                }
            }
        }
        let mut stack: Vec<usize> = Vec::new();
        let mut done: Vec<usize> = Vec::new();
        let sn = snapshot.len();
        let mut i: usize = 0;
        while i < sn
            invariant
                self.wf(),
                self.scope_tree == old(self).scope_tree,
                self.signals@.len() == old(self).signals@.len(),
                sn == snapshot@.len(),
                i <= sn,
                forall|j: int|
                    0 <= j < snapshot@.len() ==> (#[trigger] snapshot@[j])
                        < self.signals@.len(),
                set_check(old(self).signals@, sig, v@) is None,
                sn == old(self).signals@[sig.id as int].subs@.len(),
                (i == 0 ==> self.signals@ == written),
                shape_frame(written, self.signals@),
                data_frame(written, self.signals@),
                shape_frame(old(self).signals@, written),
                written.len() == old(self).signals@.len(),
                sig.id < written.len(),
                written[sig.id as int].value is Data,
                sig_val(written[sig.id as int]) == v@,
                forall|k: int|
                    0 <= k < old(self).signals@.len() && k != sig.id ==> (#[trigger] written[k])
                        == old(self).signals@[k],
                distinct_seq(done@),
                forall|j: int|
                    0 <= j < done@.len() ==> (#[trigger] done@[j]) < self.signals@.len(),
                stack@ == Seq::<usize>::empty(),
                (i == 0 ==> done@ == Seq::<usize>::empty()),
                forall|last: int, vv: u64, x0: u64|
                    ((#[trigger] chain_start_state(old(self).signals@, sig.id as int, last, vv, x0))
                        && set_check(old(self).signals@, sig, v@) is None && v@ == CellSpec::Uint(
                        vv,
                    )) ==> {
                        &&& snapshot@ == seq![((sig.id + 1) as usize)]
                        &&& sn == 1
                        &&& chain_step_state(written, sig.id as int, last, sig.id as int + 1, vv, x0)
                        &&& (i >= 1 ==> (forall|ii: int|
                            sig.id <= ii <= last ==> sig_val(self.signals@[ii]) == CellSpec::Uint(
                                (vv + ii - sig.id) as u64,
                            )))
                    },
            decreases sn - i,
        {
            proof {
                crate::subs::lemma_distinct_bounded_len(done@, self.signals@.len());
            }
            let f = self.signals.len() - done.len();
            let ghost loop_pre = self.signals@;
            let ghost done_pre = done@;
            proof {
                assert forall|last: int, vv: u64, x0: u64|
                    ((#[trigger] chain_start_state(old(self).signals@, sig.id as int, last, vv, x0))
                        && set_check(old(self).signals@, sig, v@) is None && v@ == CellSpec::Uint(
                        vv,
                    )) implies {
                    &&& i == 0
                    &&& (snapshot@[i as int] as int) == sig.id as int + 1
                    &&& chain_step_state(loop_pre, sig.id as int, last, sig.id as int + 1, vv, x0)
                    &&& all_below(done_pre, sig.id as int + 1)
                    &&& all_below(stack@, sig.id as int + 1)
                } by {
                    assert(sn == 1 && i < sn);
                    assert(i == 0);
                    assert(snapshot@[0] == (sig.id + 1) as usize);
                    assert(loop_pre == written);
                    assert(done_pre == Seq::<usize>::empty());
                }
            }
            match self.propagate(snapshot[i], &mut stack, &mut done, f) {
                Err(e) => {
                    proof {
                        assert forall|k: int| 0 <= k < written.len() implies slot_same_shape(
                            written[k],
                            #[trigger] self.signals@[k],
                        ) by {
                            assert(slot_same_shape(written[k], loop_pre[k]));
                            assert(slot_same_shape(loop_pre[k], self.signals@[k]));
                        }
                        assert forall|k: int|
                            0 <= k < written.len() && written[k].value is Data implies (
                        #[trigger] self.signals@[k]).value == written[k].value by {
                            assert(loop_pre[k].value == written[k].value);
                            assert(slot_same_shape(written[k], loop_pre[k]));
                        }
                        assert(self.signals@[sig.id as int].value == written[sig.id as int].value);
                        assert forall|last: int, vv: u64, x0: u64|
                            ((#[trigger] chain_start_state(
                                old(self).signals@,
                                sig.id as int,
                                last,
                                vv,
                                x0,
                            )) && set_check(old(self).signals@, sig, v@) is None && v@
                                == CellSpec::Uint(vv)) implies false by {
                            assert(chain_step_state(
                                loop_pre,
                                sig.id as int,
                                last,
                                (snapshot@[i as int]) as int,
                                vv,
                                x0,
                            ));
                        }
                    }
                    return Err(e);
                },
                Ok(()) => {},
            }
            proof {
                assert forall|k: int| 0 <= k < written.len() implies slot_same_shape(
                    written[k],
                    #[trigger] self.signals@[k],
                ) by {
                    assert(slot_same_shape(written[k], loop_pre[k]));
                    assert(slot_same_shape(loop_pre[k], self.signals@[k]));
                }
                assert forall|k: int|
                    0 <= k < written.len() && written[k].value is Data implies (#[trigger] self
                    .signals@[k]).value == written[k].value by {
                    assert(loop_pre[k].value == written[k].value);
                    assert(slot_same_shape(written[k], loop_pre[k]));
                }
                assert forall|last: int, vv: u64, x0: u64|
                    ((#[trigger] chain_start_state(old(self).signals@, sig.id as int, last, vv, x0))
                        && set_check(old(self).signals@, sig, v@) is None && v@ == CellSpec::Uint(
                        vv,
                    )) implies (forall|ii: int|
                    sig.id <= ii <= last ==> sig_val(self.signals@[ii]) == CellSpec::Uint(
                        (vv + ii - sig.id) as u64,
                    )) by {
                    assert(chain_step_state(
                        loop_pre,
                        sig.id as int,
                        last,
                        (snapshot@[i as int]) as int,
                        vv,
                        x0,
                    ));
                }
            }
            i += 1;
        }
        proof {
            assert forall|last: int, vv: u64, x0: u64|
                ((#[trigger] chain_start_state(old(self).signals@, sig.id as int, last, vv, x0))
                    && set_check(old(self).signals@, sig, v@) is None && v@ == CellSpec::Uint(
                    vv,
                )) implies (forall|ii: int|
                sig.id <= ii <= last ==> sig_val(self.signals@[ii]) == CellSpec::Uint(
                    (vv + ii - sig.id) as u64,
                )) by {
                assert(sn == 1 && i == sn);
            }
        }
        Ok(())
    }
}

/// The explicit single-client state: exactly one runtime, created lazily,
/// reused for its holder's life, and passed explicitly rather than held in
/// ambient thread-local storage.
#[derive(Debug)]
pub struct SingleClientRuntime {
    pub inner: RuntimeInner,
}

impl SingleClientRuntime {
    /// A fresh, unused runtime.
    pub fn new() -> (r: SingleClientRuntime)
        ensures
            r.inner.wf(),
            r.inner.scope_tree.scopes@.len() == 0,
            r.inner.signals@.len() == 0,
    {
        SingleClientRuntime { inner: RuntimeInner::new() }
    }

    /// Shared access to the runtime.
    pub fn rt_ref(&self) -> (r: &RuntimeInner)
        ensures
            r == &self.inner,
    {
        &self.inner
    }

    /// Exclusive access to the runtime: exactly one logical accessor at a
    /// time.
    pub fn rt_mut(&mut self) -> (r: &mut RuntimeInner)
        ensures
            *r == old(self).inner,
            final(self).inner == *final(r),
    {
        &mut self.inner
    }
}

impl Default for SingleClientRuntime {
    /// A fresh, unused runtime.
    fn default() -> (r: SingleClientRuntime)
        ensures
            r.inner.wf(),
            r.inner.scope_tree.scopes@.len() == 0,
            r.inner.signals@.len() == 0,
    {
        SingleClientRuntime::new()
    }
}

/// Single-client runtime token: one runtime instance per client, with the
/// state carried in an explicit [`SingleClientRuntime`] object.
#[derive(Clone, Copy, Debug, Default)]
pub struct ClientRuntime;

impl ClientRuntime {
    /// Creates the root scope of an unused runtime. Calling it again on the
    /// same runtime without an intervening reset is a usage error, which the
    /// precondition rules out: callers check [`RuntimeInner::in_use`] first.
    pub fn new_root_scope(rt: &mut SingleClientRuntime) -> (s: Scope)
        requires
            old(rt).inner.scope_tree.scopes@.len() == 0,
        ensures
            final(rt).inner.wf(),
            s.sx == 0,
            final(rt).inner.scope_tree.scopes@.len() == 1,
            final(rt).inner.scope_tree.spec_alive(0),
            final(rt).inner.signals@.len() == 0,
    {
        let mut rti = RuntimeInner::new();
        let sx = rti.scope_tree.init();
        rt.inner = rti;
        Scope { sx }
    }

    /// Benchmark entry: discards all runtime state, then rebuilds a clean
    /// root scope, so measurement runs start from the same slate.
    pub fn bench_root_scope(rt: &mut SingleClientRuntime) -> (s: Scope)
        ensures
            final(rt).inner.wf(),
            s.sx == 0,
            final(rt).inner.scope_tree.scopes@.len() == 1,
            final(rt).inner.scope_tree.spec_alive(0),
            final(rt).inner.signals@.len() == 0,
    {
        rt.inner.discard();
        ClientRuntime::new_root_scope(rt)
    }
}

} // verus!
