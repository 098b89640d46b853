use vstd::prelude::*;

use crate::heap::{AllocBox, Color, GcView};
use crate::js_types::JsPtrEnum;

verus! {

/// Every live binding identifier appears in exactly one of the white,
/// grey and black mappings.
pub proof fn lemma_live_in_exactly_one(h: AllocBox, id: u128)
    requires
        h.wf(),
        h@.dom().contains(id),
    ensures
        h@.white.dom().contains(id) || h@.grey.dom().contains(id) || h@.black.dom().contains(id),
        h@.white.dom().contains(id) ==> !h@.grey.dom().contains(id) && !h@.black.dom().contains(
            id,
        ),
        h@.grey.dom().contains(id) ==> !h@.white.dom().contains(id) && !h@.black.dom().contains(
            id,
        ),
        h@.black.dom().contains(id) ==> !h@.white.dom().contains(id) && !h@.grey.dom().contains(
            id,
        ),
{
    h.lemma_wf_inv();
}

/// Relocation followed by a lookup: the old binding is absent, and the
/// new binding holds the value previously stored under the old one.
pub proof fn lemma_relocate_then_lookup(v: GcView, old_id: u128, new_id: u128)
    requires
        v.inv(),
        v.dom().contains(old_id),
        old_id != new_id,
    ensures
        v.relocate_spec(old_id, new_id).lookup(old_id) is None,
        v.relocate_spec(old_id, new_id).lookup(new_id) == v.lookup(old_id),
{
}

/// Allocation followed by a lookup returns the value just stored.
pub proof fn lemma_allocate_then_lookup(v: GcView, id: u128, ptr: JsPtrEnum)
    requires
        !v.grey.dom().contains(id),
        !v.black.dom().contains(id),
    ensures
        (GcView { white: v.white.insert(id, ptr), grey: v.grey, black: v.black }).lookup(id)
            == Some(ptr),
{
}

/// An in-place update followed by a lookup returns the new value, and the
/// update changes no binding's color classification.
pub proof fn lemma_update_then_lookup(v: GcView, id: u128, v2: JsPtrEnum)
    requires
        v.inv(),
        v.dom().contains(id),
    ensures
        v.update_spec(id, v2).lookup(id) == Some(v2),
        forall|x: u128| v.update_spec(id, v2).color_of(x) == v.color_of(x),
{
    if v.white.dom().contains(id) {
        assert(v.white.insert(id, v2).dom() =~= v.white.dom());
    } else if v.grey.dom().contains(id) {
        assert(v.grey.insert(id, v2).dom() =~= v.grey.dom());
    } else {
        assert(v.black.insert(id, v2).dom() =~= v.black.dom());
    }
}

/// An incremental marking step taken while grey is empty changes nothing.
pub proof fn lemma_mark_step_noop(v: GcView)
    requires
        v.grey == Map::<u128, JsPtrEnum>::empty(),
    ensures
        v.mark_step_spec() == v,
{
    assert(v.grey_targets() =~= Set::<u128>::empty());
    assert(v.white.dom().intersect(v.grey_targets()) =~= Set::<u128>::empty());
    assert(v.white.remove_keys(Set::<u128>::empty()) =~= v.white);
    assert(v.white.restrict(Set::<u128>::empty()) =~= Map::<u128, JsPtrEnum>::empty());
    assert(v.black.union_prefer_right(v.grey) =~= v.black);
    assert(v.mark_step_spec() =~= v);
}

/// Root marking of a binding that is already black leaves the heap as it
/// was, so re-marking the same root set is harmless.
pub proof fn lemma_mark_root_black_noop(v: GcView, id: u128)
    requires
        v.inv(),
        v.black.dom().contains(id),
    ensures
        v.mark_root_one(id) == v,
{
}

/// After a sweep, grey and black are empty and every survivor is white.
pub proof fn lemma_sweep_resets_colors(v: GcView, id: u128)
    ensures
        v.sweep_spec().grey == Map::<u128, JsPtrEnum>::empty(),
        v.sweep_spec().black == Map::<u128, JsPtrEnum>::empty(),
        v.sweep_spec().dom().contains(id) ==> v.sweep_spec().color_of(id) == Some(Color::White),
{
}

} // verus!
