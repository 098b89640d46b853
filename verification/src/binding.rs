use vstd::prelude::*;

verus! {

/// Relies on `uuid::Uuid::new_v4` (via `Uuid::as_u128`) to mint a fresh
/// random 128-bit identifier. The value is random, so nothing is assumed
/// about it.
#[verifier::external_body]
pub(crate) fn fresh_id() -> u128 {
    uuid::Uuid::new_v4().as_u128()
}

/// An opaque key naming one heap slot.
///
/// The `id` field is the unit of heap addressing; the optional `name`
/// records the source-level name a mangled binding was derived from.
/// Freshly minted identifiers are drawn from the system's randomness, and
/// the heap manager requires of its caller that a live identifier is never
/// reused (see the preconditions of `AllocBox::alloc` and
/// `AllocBox::realloc`).
#[derive(Debug, Clone, PartialEq, Eq)]
pub struct UniqueBinding {
    pub id: u128,
    pub name: Option<String>,
}

impl UniqueBinding {
    /// Mint a fresh anonymous identifier, tied to no source-level name.
    pub fn anon() -> (r: UniqueBinding)
        ensures
            r.name is None,
    {
        UniqueBinding { id: fresh_id(), name: None }
    }

    /// Derive a fresh identifier tied to a source-level name, so the same
    /// name can be rebound to a new slot without colliding with the old one.
    pub fn mangle(name: String) -> (r: UniqueBinding)
        ensures
            r.name == Some(name),
    {
        UniqueBinding { id: fresh_id(), name: Some(name) }
    }
}

/// The identifiers of a sequence of bindings, in order.
pub open spec fn ids_of(s: Seq<UniqueBinding>) -> Seq<u128> {
    s.map_values(|b: UniqueBinding| b.id)
}

} // verus!
