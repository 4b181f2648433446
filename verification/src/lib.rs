//! A fine-grained reactive state engine: mutable state cells ("signals") and
//! derived computations that recompute automatically, with minimal
//! re-evaluation, whenever an upstream dependency changes.
//!
//! The crate is organised around three pieces: arena-backed scope trees that
//! own signal storage ([`scope`]), type-erased value cells and recompute
//! wrappers ([`cell`], [`dyn_func`]), and the dependency-tracking and
//! change-propagation runtime ([`runtime`]). A host serving many isolated
//! graphs keys one runtime per session through [`pool`]; engine-wide laws are
//! stated and proved in [`laws`].

use vstd::prelude::*;

pub mod cell;
pub mod dyn_func;
pub mod laws;
pub mod pool;
pub mod runtime;
pub mod scope;
pub mod subs;

verus! {

/// Failure taxonomy of the engine. No failure path is swallowed silently.
#[derive(Clone, Copy, Debug, PartialEq, Eq, Structural)]
pub enum ReactorError {
    /// A type-erased access requested a kind other than the one fixed at
    /// construction; the engine never silently coerces.
    TypeMismatch,
    /// A handle was used after its owning scope was disposed.
    UseAfterDispose,
    /// Propagation revisited a recomputation already in progress during one
    /// `set` call: the dependency graph contains a cycle.
    CycleDetected,
}

} // verus!
