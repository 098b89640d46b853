use vstd::prelude::*;

use crate::binding::{fresh_id, UniqueBinding};

verus! {

/// Marker contract for interpreter value kinds that may sit behind a
/// [`JsType`] handle.
pub trait JsT {}

/// A string stored on the heap: a graph leaf with no outgoing references.
#[derive(Debug, Clone, PartialEq, Eq)]
pub struct JsStrStruct {
    pub text: String,
}

/// An object-like value. The collector's only structural requirement is
/// that it exposes the bindings it directly references.
#[derive(Debug, Clone, PartialEq, Eq)]
pub struct JsObjStruct {
    pub children: Vec<UniqueBinding>,
}

/// A heap-resident value: a tagged union of the heap value kinds.
/// Object-like variants expose their direct children; every other variant
/// is a leaf.
#[derive(Debug, Clone, PartialEq, Eq)]
pub enum JsPtrEnum {
    JsStr(JsStrStruct),
    JsObj(JsObjStruct),
}

impl JsT for JsStrStruct {}

impl JsT for JsObjStruct {}

/// The identifiers a heap value directly references, in the order the
/// value lists them. Leaves reference nothing.
pub open spec fn child_id_seq(v: JsPtrEnum) -> Seq<u128> {
    match v {
        JsPtrEnum::JsObj(o) => o.children@.map_values(|b: UniqueBinding| b.id),
        _ => Seq::empty(),
    }
}

/// The set of identifiers a heap value directly references.
pub open spec fn child_ids(v: JsPtrEnum) -> Set<u128> {
    child_id_seq(v).to_set()
}

impl JsPtrEnum {
    /// The direct children of this value, as plain identifiers.
    pub fn child_id_vec(&self) -> (r: Vec<u128>)
        ensures
            r@ == child_id_seq(*self),
    {
        match self {
            JsPtrEnum::JsObj(o) => {
                let mut r: Vec<u128> = Vec::new();
                let mut i: usize = 0;
                while i < o.children.len()
                    invariant
                        i <= o.children@.len(),
                        r@ == o.children@.take(i as int).map_values(
                            |b: UniqueBinding| b.id,
                        ),
                    decreases o.children@.len() - i,
                {
                    r.push(o.children[i].id);
                    proof {
                        assert(o.children@.take(i + 1).map_values(|b: UniqueBinding| b.id)
                            =~= o.children@.take(i as int).map_values(
                                |b: UniqueBinding| b.id,
                            ).push(o.children@[i as int].id));
                    }
                    i += 1;
                }
                proof {
                    assert(o.children@.take(o.children@.len() as int) =~= o.children@);
                }
                r
            },
            _ => Vec::new(),
        }
    }
}

/// A uniquely identified handle to some interpreter value kind.
pub struct JsType {
    pub uid: u64,
    pub thing: Box<dyn JsT>,
}

impl JsType {
    /// Wrap a value kind under a freshly minted handle identity.
    pub fn new(thing: Box<dyn JsT>) -> JsType {
        let uid = #[verifier::truncate] (fresh_id() as u64);
        JsType { uid, thing }
    }
}

impl PartialEq for JsType {
    /// Handle equality is identity of the `uid`, not of the wrapped value.
    fn eq(&self, other: &Self) -> (r: bool) {
        self.uid == other.uid
    }
}

impl Eq for JsType {}

impl vstd::std_specs::cmp::PartialEqSpecImpl for JsType {
    open spec fn obeys_eq_spec() -> bool {
        true
    }

    open spec fn eq_spec(&self, other: &Self) -> bool {
        self.uid == other.uid
    }
}

impl PartialOrd for JsType {
    /// Handles are totally ordered by their `uid`.
    fn partial_cmp(&self, other: &Self) -> (r: Option<core::cmp::Ordering>) {
        if self.uid < other.uid {
            Some(core::cmp::Ordering::Less)
        } else if self.uid == other.uid {
            Some(core::cmp::Ordering::Equal)
        } else {
            Some(core::cmp::Ordering::Greater)
        }
    }
}

impl vstd::std_specs::cmp::PartialOrdSpecImpl for JsType {
    open spec fn obeys_partial_cmp_spec() -> bool {
        true
    }

    open spec fn partial_cmp_spec(&self, other: &Self) -> Option<core::cmp::Ordering> {
        if self.uid < other.uid {
            Some(core::cmp::Ordering::Less)
        } else if self.uid == other.uid {
            Some(core::cmp::Ordering::Equal)
        } else {
            Some(core::cmp::Ordering::Greater)
        }
    }
}

} // verus!
