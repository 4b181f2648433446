//! Type-erased single-value storage: one value of a caller-chosen kind behind
//! a dynamically checked cell. Exactly one concrete kind is associated with a
//! cell for its whole lifetime.

use vstd::prelude::*;

use crate::ReactorError;

verus! {

/// Tag naming the concrete kind held by a type-erased cell.
#[derive(Clone, Copy, Debug, PartialEq, Eq, Structural)]
pub enum CellKind {
    Uint,
    Text,
    Flag,
}

/// A dynamically typed value: the payload together with its kind tag.
#[derive(Debug)]
pub enum CellValue {
    Uint(u64),
    Text(String),
    Flag(bool),
}

/// Mathematical model of a `CellValue`: text is modelled as its character
/// sequence.
pub enum CellSpec {
    Uint(u64),
    Text(Seq<char>),
    Flag(bool),
}

impl View for CellValue {
    type V = CellSpec;

    open spec fn view(&self) -> CellSpec {
        match self {
            CellValue::Uint(u) => CellSpec::Uint(*u),
            CellValue::Text(s) => CellSpec::Text(s@),
            CellValue::Flag(b) => CellSpec::Flag(*b),
        }
    }
}

/// The kind tag of a modelled value.
pub open spec fn spec_kind(v: CellSpec) -> CellKind {
    match v {
        CellSpec::Uint(_) => CellKind::Uint,
        CellSpec::Text(_) => CellKind::Text,
        CellSpec::Flag(_) => CellKind::Flag,
    }
}

impl CellValue {
    /// An exact copy of the value; `Text` payloads are cloned.
    pub fn duplicate(&self) -> (r: CellValue)
        ensures
            r == *self,
    {
        match self {
            CellValue::Uint(u) => CellValue::Uint(*u),
            CellValue::Text(s) => CellValue::Text(s.clone()),
            CellValue::Flag(b) => CellValue::Flag(*b),
        }
    }

    /// The kind tag of this value.
    pub fn kind(&self) -> (k: CellKind)
        ensures
            k == spec_kind(self@),
    {
        match self {
            CellValue::Uint(_) => CellKind::Uint,
            CellValue::Text(_) => CellKind::Text,
            CellValue::Flag(_) => CellKind::Flag,
        }
    }
}

/// Structural equality of two dynamically typed values.
pub fn cell_eq(a: &CellValue, b: &CellValue) -> (r: bool)
    ensures
        r == (a@ == b@),
{
    match (a, b) {
        (CellValue::Uint(x), CellValue::Uint(y)) => *x == *y,
        (CellValue::Text(s), CellValue::Text(t)) => s.eq(t),
        (CellValue::Flag(x), CellValue::Flag(y)) => *x == *y,
        _ => false,
    }
}

/// Opaque single-value storage behind a dynamic kind check. The stored kind
/// is fixed when the cell is created; only the payload may change thereafter.
#[derive(Debug)]
pub struct AnyData {
    value: CellValue,
}

impl View for AnyData {
    type V = CellSpec;

    closed spec fn view(&self) -> CellSpec {
        self.value@
    }
}

impl AnyData {
    /// Wraps one value in a fresh cell.
    pub fn new(value: CellValue) -> (r: AnyData)
        ensures
            r@ == value@,
    {
        AnyData { value }
    }

    /// An exact copy of the cell.
    pub fn duplicate(&self) -> (r: AnyData)
        ensures
            r == *self,
    {
        AnyData { value: self.value.duplicate() }
    }

    /// The kind fixed at construction.
    pub fn kind(&self) -> (k: CellKind)
        ensures
            k == spec_kind(self@),
    {
        self.value.kind()
    }

    /// Copies the stored integer out; fails if the cell holds another kind.
    pub fn get_uint(&self) -> (r: Result<u64, ReactorError>)
        ensures
            match self@ {
                CellSpec::Uint(u) => r == Ok::<u64, ReactorError>(u),
                _ => r == Err::<u64, ReactorError>(ReactorError::TypeMismatch),
            },
    {
        match &self.value {
            CellValue::Uint(u) => Ok(*u),
            _ => Err(ReactorError::TypeMismatch),
        }
    }

    /// Copies the stored boolean out; fails if the cell holds another kind.
    pub fn get_flag(&self) -> (r: Result<bool, ReactorError>)
        ensures
            match self@ {
                CellSpec::Flag(b) => r == Ok::<bool, ReactorError>(b),
                _ => r == Err::<bool, ReactorError>(ReactorError::TypeMismatch),
            },
    {
        match &self.value {
            CellValue::Flag(b) => Ok(*b),
            _ => Err(ReactorError::TypeMismatch),
        }
    }

    /// Clones the stored text out; fails if the cell holds another kind.
    pub fn cloned_text(&self) -> (r: Result<String, ReactorError>)
        ensures
            match r {
                Ok(s) => self@ == CellSpec::Text(s@),
                Err(e) => e == ReactorError::TypeMismatch && !(self@ is Text),
            },
    {
        match &self.value {
            CellValue::Text(s) => Ok(s.clone()),
            _ => Err(ReactorError::TypeMismatch),
        }
    }

    /// Clones the whole stored value out, whatever its kind.
    pub fn cloned_value(&self) -> (r: CellValue)
        ensures
            r@ == self@,
    {
        self.value.duplicate()
    }

    /// Whether the stored value equals the given one.
    pub fn matches_value(&self, v: &CellValue) -> (r: bool)
        ensures
            r == (self@ == v@),
    {
        cell_eq(&self.value, v)
    }

    /// In-place replacement of the payload; the new value must carry the kind
    /// the cell was created with.
    pub fn replace(&mut self, v: CellValue) -> (r: Result<(), ReactorError>)
        ensures
            spec_kind(old(self)@) == spec_kind(v@) ==> r == Ok::<(), ReactorError>(())
                && final(self)@ == v@,
            spec_kind(old(self)@) != spec_kind(v@) ==> r == Err::<(), ReactorError>(
                ReactorError::TypeMismatch,
            ) && final(self)@ == old(self)@,
    {
        if self.value.kind() == v.kind() {
            self.value = v;
            Ok(())
        } else {
            Err(ReactorError::TypeMismatch)
        }
    }
}

} // verus!
