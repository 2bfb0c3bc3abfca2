//! Type descriptors: what the arena knows of a stored type once the type
//! itself has been erased.

use crate::layout::{is_align, is_alignment};
use vstd::prelude::*;

verus! {

/// The erased description of a type: how large its values are, how they are
/// aligned, and which destructor they need.
///
/// `drop_glue` names the destructor by a number of the caller's choosing; the
/// arena hands it back with each value that is due for destruction. `None`
/// marks a type without a destructor.
#[derive(Clone, Copy, Debug)]
pub struct TyDesc {
    pub drop_glue: Option<usize>,
    pub size: usize,
    pub align: usize,
}

impl TyDesc {
    /// The alignment is a power of two within `MAX_ALIGN`.
    pub open spec fn wf(&self) -> bool {
        is_align(self.align as int)
    }

    /// Whether values of the type have a destructor.
    pub open spec fn spec_needs_drop(&self) -> bool {
        self.drop_glue is Some
    }

    /// Whether values of the type have a destructor.
    #[verifier::when_used_as_spec(spec_needs_drop)]
    pub fn needs_drop(&self) -> (b: bool)
        ensures
            b == self.spec_needs_drop(),
    {
        self.drop_glue.is_some()
    }

    /// Whether the descriptor is well formed.
    pub fn is_valid(&self) -> (b: bool)
        ensures
            b == self.wf(),
    {
        is_alignment(self.align)
    }

    /// Whether two descriptors describe the same type.
    pub fn same(&self, other: &TyDesc) -> (b: bool)
        ensures
            b == (*self == *other),
    {
        let glue = match (self.drop_glue, other.drop_glue) {
            (Some(a), Some(b)) => a == b,
            (None, None) => true,
            _ => false,
        };
        glue && self.size == other.size && self.align == other.align
    }
}

} // verus!
