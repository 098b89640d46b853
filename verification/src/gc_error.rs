use vstd::prelude::*;

use crate::binding::UniqueBinding;

verus! {

/// The two failure kinds the heap manager surfaces to its callers.
#[derive(Debug)]
pub enum GcError {
    /// Allocation conflict: the binding already occupies the white mapping.
    /// The offending binding is returned to the caller.
    Alloc(UniqueBinding),
    /// An update or relocation aimed at a binding that is absent from all
    /// three mappings.
    HeapUpdate,
}

} // verus!
