//! Derived computations. A recomputation is a zero-argument routine over the
//! runtime's current signal values, paired with a type-erased cell holding
//! its most recent result. Re-running it updates the stored value and reports
//! whether the value changed.

use vstd::prelude::*;

use crate::ReactorError;
use crate::cell::{spec_kind, AnyData, CellKind, CellSpec};
use crate::runtime::{spec_eval, RuntimeInner, Signal};

verus! {

/// Where a computation reads a value from: directly from a signal, or
/// indirectly through a pointer signal that holds the index of the target.
#[derive(Clone, Copy, Debug, PartialEq, Eq, Structural)]
pub enum Source {
    Direct(Signal),
    Via(Signal),
}

/// A zero-argument recomputation routine, written as data: each variant is a
/// function of the runtime's current signal values. Every signal a run reads
/// becomes a dependency of the derived signal holding the computation.
#[derive(Debug)]
pub enum Computation {
    /// Always yields the given integer.
    ConstUint(u64),
    /// Always yields the given text.
    ConstText(String),
    /// Reads an integer upstream and adds one, wrapping at the type bound.
    Inc(Source),
    /// Reads the `cond` flag, then exactly one of the two integer branches.
    Select { cond: Signal, on_true: Signal, on_false: Signal },
    /// Reads text upstream and prefixes it with a fixed label.
    Concat(String, Source),
}

/// The kind of value a computation yields, fixed by its shape.
pub open spec fn comp_kind(c: Computation) -> CellKind {
    match c {
        Computation::ConstUint(_) => CellKind::Uint,
        Computation::ConstText(_) => CellKind::Text,
        Computation::Inc(_) => CellKind::Uint,
        Computation::Select { .. } => CellKind::Uint,
        Computation::Concat(_, _) => CellKind::Text,
    }
}

impl Computation {
    /// An exact copy of the computation.
    pub fn duplicate(&self) -> (r: Computation)
        ensures
            r == *self,
    {
        match self {
            Computation::ConstUint(u) => Computation::ConstUint(*u),
            Computation::ConstText(s) => Computation::ConstText(s.clone()),
            Computation::Inc(src) => Computation::Inc(*src),
            Computation::Select { cond, on_true, on_false } => Computation::Select {
                cond: *cond,
                on_true: *on_true,
                on_false: *on_false,
            },
            Computation::Concat(p, src) => Computation::Concat(p.clone(), *src),
        }
    }
}

/// A derived computation plus the cell holding its last result.
#[derive(Debug)]
pub struct DynFunc {
    /// The recomputation routine.
    pub comp: Computation,
    /// The most recent result.
    pub value: AnyData,
    /// Equality-gated re-runs compare the fresh result against the stored
    /// one and report "unchanged" when they agree; plain re-runs always
    /// report "changed".
    pub eq_gated: bool,
}

impl DynFunc {
    /// The stored result always carries the kind the computation yields.
    pub open spec fn wf(&self) -> bool {
        spec_kind(self.value@) == comp_kind(self.comp)
    }

    /// An exact copy of the wrapper.
    pub fn duplicate(&self) -> (r: DynFunc)
        ensures
            r == *self,
    {
        DynFunc {
            comp: self.comp.duplicate(),
            value: self.value.duplicate(),
            eq_gated: self.eq_gated,
        }
    }

    /// Builds a plain recompute wrapper: the computation runs once eagerly
    /// against `rt` to seed the stored value; later re-runs always report
    /// "changed".
    pub fn new(rt: &RuntimeInner, comp: Computation) -> (r: Result<DynFunc, ReactorError>)
        ensures
            match spec_eval(rt.signals@, comp) {
                Ok(p) => r matches Ok(df) && df.comp == comp && df.value@ == p.0 && !df.eq_gated
                    && df.wf(),
                Err(e) => r == Err::<DynFunc, ReactorError>(e),
            },
    {
        let (v, _reads) = match rt.eval(&comp) {
            Ok(p) => p,
            Err(e) => {
                return Err(e);
            },
        };
        proof {
            crate::runtime::lemma_spec_eval_kind(rt.signals@, comp);
        }
        Ok(DynFunc { comp, value: AnyData::new(v), eq_gated: false })
    }

    /// Builds an equality-gated recompute wrapper: as [`DynFunc::new`], but a
    /// re-run compares the fresh result with the stored one and reports
    /// whether it actually changed.
    pub fn new_eq(rt: &RuntimeInner, comp: Computation) -> (r: Result<DynFunc, ReactorError>)
        ensures
            match spec_eval(rt.signals@, comp) {
                Ok(p) => r matches Ok(df) && df.comp == comp && df.value@ == p.0 && df.eq_gated
                    && df.wf(),
                Err(e) => r == Err::<DynFunc, ReactorError>(e),
            },
    {
        let (v, _reads) = match rt.eval(&comp) {
            Ok(p) => p,
            Err(e) => {
                return Err(e);
            },
        };
        proof {
            crate::runtime::lemma_spec_eval_kind(rt.signals@, comp);
        }
        Ok(DynFunc { comp, value: AnyData::new(v), eq_gated: true })
    }

    /// Re-runs the computation against `rt`, stores the fresh result, and
    /// reports whether the stored value changed.
    pub fn run(&mut self, rt: &RuntimeInner) -> (r: Result<bool, ReactorError>)
        requires
            old(self).wf(),
        ensures
            final(self).wf(),
            final(self).comp == old(self).comp,
            final(self).eq_gated == old(self).eq_gated,
            match spec_eval(rt.signals@, old(self).comp) {
                Ok(p) => r matches Ok(changed) && final(self).value@ == p.0 && changed == (
                if old(self).eq_gated {
                    !(p.0 == old(self).value@)
                } else {
                    true
                }),
                Err(e) => r == Err::<bool, ReactorError>(e) && *final(self) == *old(self),
            },
    {
        let (v, _reads) = match rt.eval(&self.comp) {
            Ok(p) => p,
            Err(e) => {
                return Err(e);
            },
        };
        proof {
            crate::runtime::lemma_spec_eval_kind(rt.signals@, self.comp);
        }
        let changed = if self.eq_gated {
            !self.value.matches_value(&v)
        } else {
            true
        };
        self.value = AnyData::new(v);
        Ok(changed)
    }
}

} // verus!
