use vstd::prelude::*;

use crate::binding::{ids_of, UniqueBinding};
use crate::gc_error::GcError;
use crate::js_types::{child_id_seq, child_ids, JsPtrEnum};

verus! {

/// The color classification of one heap entry within a collection cycle:
/// white entries are not yet proven reachable, grey entries are reachable
/// but their children are unscanned, black entries are reachable with
/// their children scanned.
#[derive(Clone, Copy, Debug, PartialEq, Eq, Structural)]
pub enum Color {
    White,
    Grey,
    Black,
}

/// One heap slot: the identifier it is addressed by, its current color,
/// and the value it stores.
pub(crate) struct Entry {
    pub id: u128,
    pub color: Color,
    pub val: JsPtrEnum,
}

/// The mathematical model of the heap manager: the three disjoint
/// identifier-to-value mappings of tri-color marking.
#[verifier::ext_equal]
pub ghost struct GcView {
    pub white: Map<u128, JsPtrEnum>,
    pub grey: Map<u128, JsPtrEnum>,
    pub black: Map<u128, JsPtrEnum>,
}

impl GcView {
    /// Every live identifier, whatever its color.
    pub open spec fn dom(self) -> Set<u128> {
        self.white.dom() + self.grey.dom() + self.black.dom()
    }

    /// The number of live entries across the three mappings.
    pub open spec fn total(self) -> nat {
        self.white.len() + self.grey.len() + self.black.len()
    }

    /// The three mappings hold finitely many entries and no identifier
    /// appears in more than one of them.
    pub open spec fn inv(self) -> bool {
        &&& self.white.dom().finite()
        &&& self.grey.dom().finite()
        &&& self.black.dom().finite()
        &&& self.white.dom().disjoint(self.grey.dom())
        &&& self.white.dom().disjoint(self.black.dom())
        &&& self.grey.dom().disjoint(self.black.dom())
    }

    /// What a read-only search across the three mappings finds.
    pub open spec fn lookup(self, id: u128) -> Option<JsPtrEnum> {
        if self.white.dom().contains(id) {
            Some(self.white[id])
        } else if self.grey.dom().contains(id) {
            Some(self.grey[id])
        } else if self.black.dom().contains(id) {
            Some(self.black[id])
        } else {
            None
        }
    }

    /// The color under which an identifier currently lives, if any.
    pub open spec fn color_of(self, id: u128) -> Option<Color> {
        if self.white.dom().contains(id) {
            Some(Color::White)
        } else if self.grey.dom().contains(id) {
            Some(Color::Grey)
        } else if self.black.dom().contains(id) {
            Some(Color::Black)
        } else {
            None
        }
    }

    /// Shading: a white identifier becomes grey; anything else is left
    /// alone.
    pub open spec fn shade_one(self, c: u128) -> GcView {
        if self.white.dom().contains(c) {
            GcView {
                white: self.white.remove(c),
                grey: self.grey.insert(c, self.white[c]),
                black: self.black,
            }
        } else {
            self
        }
    }

    /// Shade a sequence of identifiers, first to last.
    pub open spec fn shade_seq(self, cs: Seq<u128>) -> GcView
        decreases cs.len(),
    {
        if cs.len() == 0 {
            self
        } else {
            self.shade_seq(cs.drop_last()).shade_one(cs.last())
        }
    }

    /// Root marking of a single identifier: if it is white or grey it is
    /// promoted to black and its children are shaded; otherwise (already
    /// black, or never allocated) it is silently skipped.
    pub open spec fn mark_root_one(self, id: u128) -> GcView {
        if self.white.dom().contains(id) {
            let v = self.white[id];
            let moved = GcView {
                white: self.white.remove(id),
                grey: self.grey,
                black: self.black.insert(id, v),
            };
            moved.shade_seq(child_id_seq(v))
        } else if self.grey.dom().contains(id) {
            let v = self.grey[id];
            let moved = GcView {
                white: self.white,
                grey: self.grey.remove(id),
                black: self.black.insert(id, v),
            };
            moved.shade_seq(child_id_seq(v))
        } else {
            self
        }
    }

    /// Root marking of a root set, first root to last.
    pub open spec fn mark_roots_spec(self, roots: Seq<u128>) -> GcView
        decreases roots.len(),
    {
        if roots.len() == 0 {
            self
        } else {
            self.mark_roots_spec(roots.drop_last()).mark_root_one(roots.last())
        }
    }

    /// Every identifier some grey entry directly references.
    pub open spec fn grey_targets(self) -> Set<u128> {
        Set::new(
            |c: u128|
                exists|b: u128|
                    #[trigger] self.grey.dom().contains(b) && child_ids(self.grey[b]).contains(c),
        )
    }

    /// One generation of promotion: every grey entry turns black, and
    /// every white child of a formerly grey entry turns grey.
    pub open spec fn mark_step_spec(self) -> GcView {
        let shaded = self.white.dom().intersect(self.grey_targets());
        GcView {
            white: self.white.remove_keys(shaded),
            grey: self.white.restrict(shaded),
            black: self.black.union_prefer_right(self.grey),
        }
    }

    /// The terminal step of a cycle: white entries are discarded, black
    /// entries are recycled as the next cycle's white set, grey is cleared.
    pub open spec fn sweep_spec(self) -> GcView {
        GcView { white: self.black, grey: Map::empty(), black: Map::empty() }
    }

    /// Replace the stored value in place, without touching identity or
    /// color.
    pub open spec fn update_spec(self, id: u128, v: JsPtrEnum) -> GcView {
        if self.white.dom().contains(id) {
            GcView { white: self.white.insert(id, v), grey: self.grey, black: self.black }
        } else if self.grey.dom().contains(id) {
            GcView { white: self.white, grey: self.grey.insert(id, v), black: self.black }
        } else if self.black.dom().contains(id) {
            GcView { white: self.white, grey: self.grey, black: self.black.insert(id, v) }
        } else {
            self
        }
    }

    /// Remove an allocation from whichever mapping holds it and reinsert
    /// it, white, under a new identifier.
    pub open spec fn relocate_spec(self, old_id: u128, new_id: u128) -> GcView {
        match self.lookup(old_id) {
            Some(v) => GcView {
                white: self.white.remove(old_id).insert(new_id, v),
                grey: self.grey.remove(old_id),
                black: self.black.remove(old_id),
            },
            None => self,
        }
    }
}

/// The identifier-to-value mapping formed by the entries of one color.
pub(crate) open spec fn color_map(s: Seq<Entry>, c: Color) -> Map<u128, JsPtrEnum>
    decreases s.len(),
{
    if s.len() == 0 {
        Map::empty()
    } else {
        let m = color_map(s.drop_last(), c);
        if s.last().color == c {
            m.insert(s.last().id, s.last().val)
        } else {
            m
        }
    }
}

/// No two entries are addressed by the same identifier.
pub(crate) open spec fn unique_ids(s: Seq<Entry>) -> bool {
    forall|i: int, j: int| 0 <= i < j < s.len() ==> s[i].id != s[j].id
}

/// The heap manager: owner of every heap slot, keyed by binding
/// identifier and classified white, grey or black.
pub struct AllocBox {
    entries: Vec<Entry>,
}

impl View for AllocBox {
    type V = GcView;

    closed spec fn view(&self) -> GcView {
        GcView {
            white: color_map(self.entries@, Color::White),
            grey: color_map(self.entries@, Color::Grey),
            black: color_map(self.entries@, Color::Black),
        }
    }
}

/// An identifier is in the mapping of color `c` exactly when some entry
/// carries that identifier under that color; the mapping is finite.
proof fn lemma_color_map_membership(s: Seq<Entry>, c: Color)
    ensures
        color_map(s, c).dom().finite(),
        forall|id: u128|
            #[trigger] color_map(s, c).dom().contains(id) <==> exists|i: int|
                0 <= i < s.len() && s[i].id == id && (#[trigger] s[i]).color == c,
    decreases s.len(),
{
    if s.len() > 0 {
        lemma_color_map_membership(s.drop_last(), c);
        assert forall|id: u128| #[trigger]
            color_map(s, c).dom().contains(id) implies exists|i: int|
            0 <= i < s.len() && s[i].id == id && (#[trigger] s[i]).color == c by {
            if s.last().color == c && id == s.last().id {
                assert(s[s.len() - 1].id == id && s[s.len() - 1].color == c);
            } else {
                assert(color_map(s.drop_last(), c).dom().contains(id));
                let i = choose|i: int|
                    0 <= i < s.drop_last().len() && s.drop_last()[i].id == id && (#[trigger] s
                        .drop_last()[i]).color == c;
                assert(s[i].id == id && s[i].color == c);
            }
        }
        assert forall|id: u128|
            (exists|i: int|
                0 <= i < s.len() && s[i].id == id && (#[trigger] s[i]).color
                    == c) implies #[trigger] color_map(s, c).dom().contains(id) by {
            let i = choose|i: int|
                0 <= i < s.len() && s[i].id == id && (#[trigger] s[i]).color == c;
            if i < s.len() - 1 {
                assert(s.drop_last()[i].id == id && s.drop_last()[i].color == c);
            }
        }
    }
}

/// The value an entry stores is the value its color's mapping holds for
/// its identifier.
proof fn lemma_color_map_at(s: Seq<Entry>, i: int)
    requires
        unique_ids(s),
        0 <= i < s.len(),
    ensures
        color_map(s, s[i].color).dom().contains(s[i].id),
        color_map(s, s[i].color)[s[i].id] == s[i].val,
    decreases s.len(),
{
    lemma_color_map_membership(s, s[i].color);
    if i == s.len() - 1 {
    } else {
        lemma_color_map_at(s.drop_last(), i);
        assert(s.drop_last()[i] == s[i]);
        if s.last().color == s[i].color {
            assert(s.last().id != s[i].id);
        }
    }
}

/// Entry uniqueness makes the three color mappings disjoint, and sizes to
/// one entry per live identifier.
proof fn lemma_wf_view(s: Seq<Entry>)
    requires
        unique_ids(s),
    ensures
        color_map(s, Color::White).dom().disjoint(color_map(s, Color::Grey).dom()),
        color_map(s, Color::White).dom().disjoint(color_map(s, Color::Black).dom()),
        color_map(s, Color::Grey).dom().disjoint(color_map(s, Color::Black).dom()),
        color_map(s, Color::White).dom().finite(),
        color_map(s, Color::Grey).dom().finite(),
        color_map(s, Color::Black).dom().finite(),
        color_map(s, Color::White).len() + color_map(s, Color::Grey).len() + color_map(
            s,
            Color::Black,
        ).len() == s.len(),
    decreases s.len(),
{
    lemma_color_map_membership(s, Color::White);
    lemma_color_map_membership(s, Color::Grey);
    lemma_color_map_membership(s, Color::Black);
    assert forall|c1: Color, c2: Color, id: u128|
        c1 != c2 && #[trigger] color_map(s, c1).dom().contains(id) implies !(#[trigger] color_map(
        s,
        c2,
    ).dom().contains(id)) by {
        lemma_color_map_membership(s, c1);
        lemma_color_map_membership(s, c2);
        if color_map(s, c2).dom().contains(id) {
            let i = choose|i: int| 0 <= i < s.len() && s[i].id == id && (#[trigger] s[i]).color == c1;
            let j = choose|j: int| 0 <= j < s.len() && s[j].id == id && (#[trigger] s[j]).color == c2;
            assert(i != j);
        }
    }
    if s.len() > 0 {
        lemma_wf_view(s.drop_last());
        lemma_color_map_membership(s.drop_last(), Color::White);
        lemma_color_map_membership(s.drop_last(), Color::Grey);
        lemma_color_map_membership(s.drop_last(), Color::Black);
        let e = s.last();
        assert forall|c: Color| !(#[trigger] color_map(s.drop_last(), c).dom().contains(e.id)) by {
            lemma_color_map_membership(s.drop_last(), c);
            if color_map(s.drop_last(), c).dom().contains(e.id) {
                let i = choose|i: int|
                    0 <= i < s.drop_last().len() && s.drop_last()[i].id == e.id && (#[trigger] s
                        .drop_last()[i]).color == c;
                assert(s[i].id == s[s.len() - 1].id);
            }
        }
        assert(e.color is White || e.color is Grey || e.color is Black);
    }
}

/// How replacing the entry at one index reshapes the mapping of each
/// color: the old entry leaves its color's mapping, the new entry joins
/// its own. The new entry must keep the old identifier or carry one that
/// no other entry holds.
proof fn lemma_color_map_update(s: Seq<Entry>, i: int, e2: Entry, c: Color)
    requires
        unique_ids(s),
        0 <= i < s.len(),
        e2.id == s[i].id || (forall|j: int| 0 <= j < s.len() && j != i ==> s[j].id != e2.id),
    ensures
        color_map(s.update(i, e2), c) == ({
            let m = color_map(s, c);
            let m0 = if s[i].color == c {
                m.remove(s[i].id)
            } else {
                m
            };
            if e2.color == c {
                m0.insert(e2.id, e2.val)
            } else {
                m0
            }
        }),
    decreases s.len(),
{
    let su = s.update(i, e2);
    let m = color_map(s, c);
    let cmdl = color_map(s.drop_last(), c);
    lemma_color_map_membership(s.drop_last(), c);
    if i == s.len() - 1 {
        assert(su.drop_last() =~= s.drop_last());
        assert(su.last() == e2);
        if s[i].color == c {
            assert(!cmdl.dom().contains(s[i].id)) by {
                if cmdl.dom().contains(s[i].id) {
                    let j = choose|j: int|
                        0 <= j < s.drop_last().len() && s.drop_last()[j].id == s[i].id
                            && (#[trigger] s.drop_last()[j]).color == c;
                    assert(s[j].id == s[i].id);
                }
            };
            assert(m.remove(s[i].id) =~= cmdl);
        }
        let m0 = if s[i].color == c {
            m.remove(s[i].id)
        } else {
            m
        };
        if e2.color == c {
            assert(color_map(su, c) == cmdl.insert(e2.id, e2.val));
            assert(m0.insert(e2.id, e2.val) =~= cmdl.insert(e2.id, e2.val));
        } else {
            assert(color_map(su, c) == cmdl);
        }
    } else {
        assert(su.drop_last() =~= s.drop_last().update(i, e2));
        assert(su.last() == s.last());
        assert(s.drop_last()[i] == s[i]);
        lemma_color_map_update(s.drop_last(), i, e2, c);
        let last = s.last();
        assert(last.id != s[i].id);
        if e2.id != s[i].id {
            assert(s[s.len() - 1].id != e2.id);
        }
        let m1dl = ({
            let m0dl = if s[i].color == c {
                cmdl.remove(s[i].id)
            } else {
                cmdl
            };
            if e2.color == c {
                m0dl.insert(e2.id, e2.val)
            } else {
                m0dl
            }
        });
        assert(color_map(su.drop_last(), c) == m1dl);
        let target = ({
            let m0 = if s[i].color == c {
                m.remove(s[i].id)
            } else {
                m
            };
            if e2.color == c {
                m0.insert(e2.id, e2.val)
            } else {
                m0
            }
        });
        assert(color_map(su, c) =~= target);
    }
}

/// Appending one identifier to a sequence adds exactly it to the set of
/// the sequence's elements.
proof fn lemma_to_set_push(s: Seq<u128>, x: u128)
    ensures
        s.push(x).to_set() == s.to_set().insert(x),
{
    assert forall|y: u128| #[trigger] s.push(x).to_set().contains(y) implies s.to_set().insert(
        x,
    ).contains(y) by {
        let j = choose|j: int| 0 <= j < s.push(x).len() && s.push(x)[j] == y;
        if j < s.len() {
            assert(s[j] == y);
        }
    }
    assert forall|y: u128| #[trigger] s.to_set().insert(x).contains(y) implies s.push(
        x,
    ).to_set().contains(y) by {
        if y == x {
            assert(s.push(x)[s.len() as int] == y);
        } else {
            let j = choose|j: int| 0 <= j < s.len() && s[j] == y;
            assert(s.push(x)[j] == y);
        }
    }
    assert(s.push(x).to_set() =~= s.to_set().insert(x));
}

/// The identifiers of the grey entries, in entry order.
spec fn grey_id_seq(s: Seq<Entry>) -> Seq<u128>
    decreases s.len(),
{
    if s.len() == 0 {
        Seq::empty()
    } else {
        grey_id_seq(s.drop_last()) + (if s.last().color is Grey {
            seq![s.last().id]
        } else {
            Seq::empty()
        })
    }
}

/// The children of the grey entries, concatenated in entry order.
spec fn children_concat(s: Seq<Entry>) -> Seq<u128>
    decreases s.len(),
{
    if s.len() == 0 {
        Seq::empty()
    } else {
        children_concat(s.drop_last()) + (if s.last().color is Grey {
            child_id_seq(s.last().val)
        } else {
            Seq::empty()
        })
    }
}

/// An identifier occurs among the grey identifiers exactly when some grey
/// entry carries it.
proof fn lemma_grey_id_seq_contains(s: Seq<Entry>)
    ensures
        forall|x: u128|
            #[trigger] grey_id_seq(s).contains(x) <==> exists|i: int|
                0 <= i < s.len() && (#[trigger] s[i]).color is Grey && s[i].id == x,
    decreases s.len(),
{
    if s.len() > 0 {
        lemma_grey_id_seq_contains(s.drop_last());
        assert forall|x: u128| #[trigger] grey_id_seq(s).contains(x) implies exists|i: int|
            0 <= i < s.len() && (#[trigger] s[i]).color is Grey && s[i].id == x by {
            if grey_id_seq(s.drop_last()).contains(x) {
                let i = choose|i: int|
                    0 <= i < s.drop_last().len() && (#[trigger] s.drop_last()[i]).color is Grey
                        && s.drop_last()[i].id == x;
                assert(s[i].color is Grey && s[i].id == x);
            } else {
                assert(s.last().color is Grey && s.last().id == x);
                assert(s[s.len() - 1].color is Grey && s[s.len() - 1].id == x);
            }
        }
        assert forall|x: u128|
            (exists|i: int|
                0 <= i < s.len() && (#[trigger] s[i]).color is Grey && s[i].id
                    == x) implies #[trigger] grey_id_seq(s).contains(x) by {
            let i = choose|i: int|
                0 <= i < s.len() && (#[trigger] s[i]).color is Grey && s[i].id == x;
            if i < s.len() - 1 {
                assert(s.drop_last()[i].color is Grey && s.drop_last()[i].id == x);
                assert(grey_id_seq(s.drop_last()).contains(x));
                let j = choose|j: int|
                    0 <= j < grey_id_seq(s.drop_last()).len() && grey_id_seq(s.drop_last())[j] == x;
                assert(grey_id_seq(s)[j] == x);
            } else {
                let g = grey_id_seq(s);
                assert(g[g.len() - 1] == x);
            }
        }
    }
}

/// An identifier occurs among the concatenated children exactly when some
/// grey entry references it.
proof fn lemma_children_concat_contains(s: Seq<Entry>)
    ensures
        forall|x: u128|
            #[trigger] children_concat(s).contains(x) <==> exists|i: int|
                0 <= i < s.len() && (#[trigger] s[i]).color is Grey && child_id_seq(
                    s[i].val,
                ).contains(x),
    decreases s.len(),
{
    if s.len() > 0 {
        lemma_children_concat_contains(s.drop_last());
        assert forall|x: u128| #[trigger] children_concat(s).contains(x) implies exists|i: int|
            0 <= i < s.len() && (#[trigger] s[i]).color is Grey && child_id_seq(s[i].val).contains(
            x,
        ) by {
            let k = choose|k: int| 0 <= k < children_concat(s).len() && children_concat(s)[k] == x;
            if k < children_concat(s.drop_last()).len() {
                assert(children_concat(s.drop_last()).contains(x));
                let i = choose|i: int|
                    0 <= i < s.drop_last().len() && (#[trigger] s.drop_last()[i]).color is Grey
                        && child_id_seq(s.drop_last()[i].val).contains(x);
                assert(s[i].color is Grey && child_id_seq(s[i].val).contains(x));
            } else {
                assert(s.last().color is Grey);
                assert(child_id_seq(s.last().val)[k - children_concat(s.drop_last()).len()] == x);
                assert(s[s.len() - 1].color is Grey && child_id_seq(s[s.len() - 1].val).contains(
                    x,
                ));
            }
        }
        assert forall|x: u128|
            (exists|i: int|
                0 <= i < s.len() && (#[trigger] s[i]).color is Grey && child_id_seq(
                    s[i].val,
                ).contains(x)) implies #[trigger] children_concat(s).contains(x) by {
            let i = choose|i: int|
                0 <= i < s.len() && (#[trigger] s[i]).color is Grey && child_id_seq(
                    s[i].val,
                ).contains(x);
            if i < s.len() - 1 {
                assert(s.drop_last()[i].color is Grey && child_id_seq(
                    s.drop_last()[i].val,
                ).contains(x));
                assert(children_concat(s.drop_last()).contains(x));
                let j = choose|j: int|
                    0 <= j < children_concat(s.drop_last()).len() && children_concat(
                        s.drop_last(),
                    )[j] == x;
                assert(children_concat(s)[j] == x);
            } else {
                let cs = child_id_seq(s.last().val);
                let j = choose|j: int| 0 <= j < cs.len() && cs[j] == x;
                assert(children_concat(s)[children_concat(s.drop_last()).len() + j] == x);
            }
        }
    }
}

impl AllocBox {
    /// Entry uniqueness: the representation invariant every operation
    /// preserves.
    pub closed spec fn wf(self) -> bool {
        unique_ids(self.entries@)
    }

    /// A well-formed heap manager's model satisfies the tri-color
    /// invariant: finitely many entries, disjoint mappings.
    pub proof fn lemma_wf_inv(self)
        requires
            self.wf(),
        ensures
            self@.inv(),
    {
        lemma_wf_view(self.entries@);
    }

    /// An empty heap manager: nothing is allocated yet.
    pub fn new() -> (r: AllocBox)
        ensures
            r.wf(),
            r@ == (GcView {
                white: Map::<u128, JsPtrEnum>::empty(),
                grey: Map::<u128, JsPtrEnum>::empty(),
                black: Map::<u128, JsPtrEnum>::empty(),
            }),
    {
        AllocBox { entries: Vec::new() }
    }

    /// The index of the entry an identifier addresses, if any.
    fn find_pos(&self, id: u128) -> (r: Option<usize>)
        ensures
            match r {
                Some(i) => i < self.entries@.len() && self.entries@[i as int].id == id,
                None => forall|i: int| 0 <= i < self.entries@.len() ==> self.entries@[i].id != id,
            },
    {
        let mut i: usize = 0;
        while i < self.entries.len()
            invariant
                i <= self.entries@.len(),
                forall|j: int| 0 <= j < i ==> self.entries@[j].id != id,
            decreases self.entries@.len() - i,
        {
            if self.entries[i].id == id {
                return Some(i);
            }
            i += 1;
        }
        None
    }

    /// The number of live entries: the sum of the sizes of the three
    /// mappings.
    pub fn len(&self) -> (r: usize)
        requires
            self.wf(),
        ensures
            r == self@.total(),
    {
        proof {
            lemma_wf_view(self.entries@);
        }
        self.entries.len()
    }

    /// Whether no entry is live.
    pub fn is_empty(&self) -> (r: bool)
        requires
            self.wf(),
        ensures
            r == (self@.total() == 0),
    {
        self.len() == 0
    }

    /// Insert a new white entry. Fails with an allocation conflict, naming
    /// the binding, exactly when the binding already occupies the white
    /// mapping; a failing call changes nothing. The caller upholds the
    /// uniqueness contract of binding derivation: the identifier of a live
    /// grey or black entry is never re-allocated.
    pub fn allocate(&mut self, binding: UniqueBinding, ptr: JsPtrEnum) -> (r: Result<
        (),
        GcError,
    >)
        requires
            old(self).wf(),
            !old(self)@.grey.dom().contains(binding.id),
            !old(self)@.black.dom().contains(binding.id),
        ensures
            final(self).wf(),
            match r {
                Ok(_) => !old(self)@.white.dom().contains(binding.id) && final(self)@ == (GcView {
                    white: old(self)@.white.insert(binding.id, ptr),
                    grey: old(self)@.grey,
                    black: old(self)@.black,
                }),
                Err(e) => old(self)@.white.dom().contains(binding.id) && e == GcError::Alloc(
                    binding,
                ) && *final(self) == *old(self),
            },
    {
        proof {
            lemma_color_map_membership(self.entries@, Color::White);
            lemma_color_map_membership(self.entries@, Color::Grey);
            lemma_color_map_membership(self.entries@, Color::Black);
        }
        match self.find_pos(binding.id) {
            Some(i) => {
                proof {
                    let s = self.entries@;
                    let e = s[i as int];
                    assert(e.color is White || e.color is Grey || e.color is Black);
                    assert(s[i as int].id == binding.id && s[i as int].color == Color::White);
                }
                Err(GcError::Alloc(binding))
            },
            None => {
                let ghost s0 = self.entries@;
                self.entries.push(Entry { id: binding.id, color: Color::White, val: ptr });
                proof {
                    let s1 = self.entries@;
                    assert(s1.drop_last() =~= s0);
                    assert(s1.last() == (Entry { id: binding.id, color: Color::White, val: ptr }));
                    assert(color_map(s1, Color::White) == color_map(s0, Color::White).insert(
                        binding.id,
                        ptr,
                    ));
                    assert(color_map(s1, Color::Grey) == color_map(s0, Color::Grey));
                    assert(color_map(s1, Color::Black) == color_map(s0, Color::Black));
                }
                Ok(())
            },
        }
    }

    /// Read-only search across all three mappings: the stored value if the
    /// binding is present in any of them, else absent.
    pub fn find_id(&self, bnd: &UniqueBinding) -> (r: Option<&JsPtrEnum>)
        requires
            self.wf(),
        ensures
            match r {
                Some(p) => self@.lookup(bnd.id) == Some(*p),
                None => self@.lookup(bnd.id) is None,
            },
    {
        proof {
            lemma_color_map_membership(self.entries@, Color::White);
            lemma_color_map_membership(self.entries@, Color::Grey);
            lemma_color_map_membership(self.entries@, Color::Black);
        }
        match self.find_pos(bnd.id) {
            Some(i) => {
                proof {
                    lemma_color_map_at(self.entries@, i as int);
                }
                let e = &self.entries[i];
                Some(&e.val)
            },
            None => None,
        }
    }

    /// The color under which a binding currently lives, if it is live at
    /// all.
    pub fn color_of(&self, bnd: &UniqueBinding) -> (r: Option<Color>)
        requires
            self.wf(),
        ensures
            r == self@.color_of(bnd.id),
    {
        proof {
            lemma_color_map_membership(self.entries@, Color::White);
            lemma_color_map_membership(self.entries@, Color::Grey);
            lemma_color_map_membership(self.entries@, Color::Black);
        }
        match self.find_pos(bnd.id) {
            Some(i) => {
                proof {
                    lemma_color_map_at(self.entries@, i as int);
                }
                let e = &self.entries[i];
                Some(e.color)
            },
            None => None,
        }
    }

    /// Replace the stored value in place, leaving identity and color
    /// untouched. Fails exactly when the binding is absent from all three
    /// mappings; a failing call changes nothing.
    pub fn update_ptr(&mut self, binding: &UniqueBinding, ptr: JsPtrEnum) -> (r: Result<
        (),
        GcError,
    >)
        requires
            old(self).wf(),
        ensures
            final(self).wf(),
            match r {
                Ok(_) => old(self)@.dom().contains(binding.id) && final(self)@ == old(
                    self,
                )@.update_spec(binding.id, ptr),
                Err(e) => !old(self)@.dom().contains(binding.id) && e == GcError::HeapUpdate
                    && *final(self) == *old(self),
            },
    {
        proof {
            lemma_color_map_membership(self.entries@, Color::White);
            lemma_color_map_membership(self.entries@, Color::Grey);
            lemma_color_map_membership(self.entries@, Color::Black);
        }
        match self.find_pos(binding.id) {
            Some(i) => {
                let ghost s0 = self.entries@;
                let ghost e0 = s0[i as int];
                proof {
                    lemma_color_map_at(s0, i as int);
                }
                let e = &mut self.entries[i];
                e.val = ptr;
                proof {
                    let e2 = Entry { id: e0.id, color: e0.color, val: ptr };
                    assert(self.entries@ == s0.update(i as int, e2));
                    lemma_color_map_update(s0, i as int, e2, Color::White);
                    lemma_color_map_update(s0, i as int, e2, Color::Grey);
                    lemma_color_map_update(s0, i as int, e2, Color::Black);
                    assert(e0.color is White || e0.color is Grey || e0.color is Black);
                    if e0.color is White {
                        assert(color_map(s0, Color::White).remove(e0.id).insert(e0.id, ptr)
                            =~= color_map(s0, Color::White).insert(e0.id, ptr));
                    } else if e0.color is Grey {
                        assert(color_map(s0, Color::Grey).remove(e0.id).insert(e0.id, ptr)
                            =~= color_map(s0, Color::Grey).insert(e0.id, ptr));
                    } else {
                        assert(color_map(s0, Color::Black).remove(e0.id).insert(e0.id, ptr)
                            =~= color_map(s0, Color::Black).insert(e0.id, ptr));
                    }
                    assert(forall|j: int, k: int|
                        0 <= j < k < self.entries@.len() ==> self.entries@[j].id
                            != self.entries@[k].id);
                }
                Ok(())
            },
            None => Err(GcError::HeapUpdate),
        }
    }

    /// Remove the allocation wherever it currently resides and reinsert it
    /// under a new binding into the white mapping. Fails exactly when the
    /// old binding is absent from all three mappings; a failing call
    /// changes nothing. The caller upholds the uniqueness contract of
    /// binding derivation: the new identifier never collides with another
    /// live entry.
    pub fn realloc(&mut self, old_bnd: &UniqueBinding, new_bnd: UniqueBinding) -> (r: Result<
        (),
        GcError,
    >)
        requires
            old(self).wf(),
            new_bnd.id == old_bnd.id || !old(self)@.dom().contains(new_bnd.id),
        ensures
            final(self).wf(),
            match r {
                Ok(_) => old(self)@.dom().contains(old_bnd.id) && final(self)@ == old(
                    self,
                )@.relocate_spec(old_bnd.id, new_bnd.id),
                Err(e) => !old(self)@.dom().contains(old_bnd.id) && e == GcError::HeapUpdate
                    && *final(self) == *old(self),
            },
    {
        proof {
            lemma_color_map_membership(self.entries@, Color::White);
            lemma_color_map_membership(self.entries@, Color::Grey);
            lemma_color_map_membership(self.entries@, Color::Black);
        }
        match self.find_pos(old_bnd.id) {
            Some(i) => {
                let ghost s0 = self.entries@;
                let ghost e0 = s0[i as int];
                proof {
                    lemma_color_map_at(s0, i as int);
                    if new_bnd.id != old_bnd.id {
                        assert forall|j: int| 0 <= j < s0.len() && j != i implies s0[j].id
                            != new_bnd.id by {
                            lemma_color_map_at(s0, j);
                            assert(s0[j].color is White || s0[j].color is Grey || s0[j].color
                                is Black);
                        }
                    }
                }
                let e = &mut self.entries[i];
                e.id = new_bnd.id;
                e.color = Color::White;
                proof {
                    let e2 = Entry { id: new_bnd.id, color: Color::White, val: e0.val };
                    assert(self.entries@ == s0.update(i as int, e2));
                    lemma_color_map_update(s0, i as int, e2, Color::White);
                    lemma_color_map_update(s0, i as int, e2, Color::Grey);
                    lemma_color_map_update(s0, i as int, e2, Color::Black);
                    assert(e0.color is White || e0.color is Grey || e0.color is Black);
                    assert(old(self)@.lookup(old_bnd.id) == Some(e0.val));
                    assert(self@ =~= old(self)@.relocate_spec(old_bnd.id, new_bnd.id));
                }
                Ok(())
            },
            None => Err(GcError::HeapUpdate),
        }
    }

    /// Shading: if the identifier is white, move it to grey.
    fn shade_one_exec(&mut self, c: u128)
        requires
            old(self).wf(),
        ensures
            final(self).wf(),
            final(self)@ == old(self)@.shade_one(c),
    {
        proof {
            lemma_color_map_membership(self.entries@, Color::White);
        }
        match self.find_pos(c) {
            Some(i) => {
                let ghost s0 = self.entries@;
                let ghost e0 = s0[i as int];
                let is_white = {
                    let e = &self.entries[i];
                    e.color == Color::White
                };
                if is_white {
                    proof {
                        lemma_color_map_at(s0, i as int);
                    }
                    let em = &mut self.entries[i];
                    em.color = Color::Grey;
                    proof {
                        let e2 = Entry { id: e0.id, color: Color::Grey, val: e0.val };
                        assert(self.entries@ == s0.update(i as int, e2));
                        lemma_color_map_update(s0, i as int, e2, Color::White);
                        lemma_color_map_update(s0, i as int, e2, Color::Grey);
                        lemma_color_map_update(s0, i as int, e2, Color::Black);
                        assert(self@ =~= old(self)@.shade_one(c));
                    }
                } else {
                    proof {
                        assert(!old(self)@.white.dom().contains(c)) by {
                            if old(self)@.white.dom().contains(c) {
                                let j = choose|j: int|
                                    0 <= j < s0.len() && s0[j].id == c && (#[trigger] s0[j]).color
                                        == Color::White;
                                assert(j == i);
                            }
                        };
                    }
                }
            },
            None => {
                proof {
                    assert(!old(self)@.white.dom().contains(c));
                }
            },
        }
    }

    /// Promotion: if the identifier is grey, move it to black.
    fn promote_one_exec(&mut self, c: u128)
        requires
            old(self).wf(),
        ensures
            final(self).wf(),
            final(self)@ == (if old(self)@.grey.dom().contains(c) {
                GcView {
                    white: old(self)@.white,
                    grey: old(self)@.grey.remove(c),
                    black: old(self)@.black.insert(c, old(self)@.grey[c]),
                }
            } else {
                old(self)@
            }),
    {
        proof {
            lemma_color_map_membership(self.entries@, Color::Grey);
        }
        match self.find_pos(c) {
            Some(i) => {
                let ghost s0 = self.entries@;
                let ghost e0 = s0[i as int];
                let is_grey = {
                    let e = &self.entries[i];
                    e.color == Color::Grey
                };
                if is_grey {
                    proof {
                        lemma_color_map_at(s0, i as int);
                    }
                    let em = &mut self.entries[i];
                    em.color = Color::Black;
                    proof {
                        let e2 = Entry { id: e0.id, color: Color::Black, val: e0.val };
                        assert(self.entries@ == s0.update(i as int, e2));
                        lemma_color_map_update(s0, i as int, e2, Color::White);
                        lemma_color_map_update(s0, i as int, e2, Color::Grey);
                        lemma_color_map_update(s0, i as int, e2, Color::Black);
                        assert(self@.grey =~= old(self)@.grey.remove(c));
                        assert(self@.black =~= old(self)@.black.insert(c, old(self)@.grey[c]));
                    }
                } else {
                    proof {
                        assert(!old(self)@.grey.dom().contains(c)) by {
                            if old(self)@.grey.dom().contains(c) {
                                let j = choose|j: int|
                                    0 <= j < s0.len() && s0[j].id == c && (#[trigger] s0[j]).color
                                        == Color::Grey;
                                assert(j == i);
                            }
                        };
                    }
                }
            },
            None => {
                proof {
                    assert(!old(self)@.grey.dom().contains(c));
                }
            },
        }
    }

    /// Shade a sequence of identifiers, first to last.
    fn shade_vec(&mut self, cs: &Vec<u128>)
        requires
            old(self).wf(),
        ensures
            final(self).wf(),
            final(self)@ == old(self)@.shade_seq(cs@),
    {
        let mut k: usize = 0;
        while k < cs.len()
            invariant
                k <= cs@.len(),
                self.wf(),
                self@ == old(self)@.shade_seq(cs@.take(k as int)),
            decreases cs@.len() - k,
        {
            self.shade_one_exec(cs[k]);
            proof {
                assert(cs@.take(k as int + 1).drop_last() =~= cs@.take(k as int));
                assert(cs@.take(k as int + 1).last() == cs@[k as int]);
            }
            k += 1;
        }
        proof {
            assert(cs@.take(cs@.len() as int) =~= cs@);
        }
    }

    /// Root marking of a single identifier.
    fn mark_root_one_exec(&mut self, id: u128)
        requires
            old(self).wf(),
        ensures
            final(self).wf(),
            final(self)@ == old(self)@.mark_root_one(id),
    {
        proof {
            lemma_color_map_membership(self.entries@, Color::White);
            lemma_color_map_membership(self.entries@, Color::Grey);
        }
        match self.find_pos(id) {
            Some(i) => {
                let ghost s0 = self.entries@;
                let ghost e0 = s0[i as int];
                let c0 = {
                    let e = &self.entries[i];
                    e.color
                };
                if c0 == Color::White || c0 == Color::Grey {
                    proof {
                        lemma_color_map_at(s0, i as int);
                    }
                    let em = &mut self.entries[i];
                    em.color = Color::Black;
                    proof {
                        let e2 = Entry { id: e0.id, color: Color::Black, val: e0.val };
                        assert(self.entries@ == s0.update(i as int, e2));
                        lemma_color_map_update(s0, i as int, e2, Color::White);
                        lemma_color_map_update(s0, i as int, e2, Color::Grey);
                        lemma_color_map_update(s0, i as int, e2, Color::Black);
                        if e0.color is White {
                            assert(self@ =~= (GcView {
                                white: old(self)@.white.remove(id),
                                grey: old(self)@.grey,
                                black: old(self)@.black.insert(id, old(self)@.white[id]),
                            }));
                        } else {
                            assert(self@ =~= (GcView {
                                white: old(self)@.white,
                                grey: old(self)@.grey.remove(id),
                                black: old(self)@.black.insert(id, old(self)@.grey[id]),
                            }));
                        }
                    }
                    let cs = {
                        let e = &self.entries[i];
                        e.val.child_id_vec()
                    };
                    proof {
                        assert(self.entries@[i as int].val == e0.val);
                        assert(cs@ == child_id_seq(e0.val));
                    }
                    self.shade_vec(&cs);
                    proof {
                        assert(self@ == old(self)@.mark_root_one(id));
                    }
                } else {
                    proof {
                        assert(!old(self)@.white.dom().contains(id) && !old(
                            self,
                        )@.grey.dom().contains(id)) by {
                            if old(self)@.white.dom().contains(id) {
                                let j = choose|j: int|
                                    0 <= j < s0.len() && s0[j].id == id && (#[trigger] s0[j]).color
                                        == Color::White;
                                assert(j == i);
                            }
                            if old(self)@.grey.dom().contains(id) {
                                let j = choose|j: int|
                                    0 <= j < s0.len() && s0[j].id == id && (#[trigger] s0[j]).color
                                        == Color::Grey;
                                assert(j == i);
                            }
                        };
                    }
                }
            },
            None => {
                proof {
                    assert(!old(self)@.white.dom().contains(id) && !old(
                        self,
                    )@.grey.dom().contains(id));
                }
            },
        }
    }

    /// Root marking: every root currently white or grey is promoted to
    /// black and its children are shaded grey; roots already black or
    /// never allocated are silently skipped, so a stale root set is safe.
    pub fn mark_roots(&mut self, marks: &Vec<UniqueBinding>)
        requires
            old(self).wf(),
        ensures
            final(self).wf(),
            final(self)@ == old(self)@.mark_roots_spec(ids_of(marks@)),
    {
        let mut k: usize = 0;
        while k < marks.len()
            invariant
                k <= marks@.len(),
                self.wf(),
                self@ == old(self)@.mark_roots_spec(ids_of(marks@.take(k as int))),
            decreases marks@.len() - k,
        {
            let id = {
                let b = &marks[k];
                b.id
            };
            self.mark_root_one_exec(id);
            proof {
                assert(ids_of(marks@.take(k as int + 1)).drop_last() =~= ids_of(
                    marks@.take(k as int),
                ));
                assert(ids_of(marks@.take(k as int + 1)).last() == marks@[k as int].id);
            }
            k += 1;
        }
        proof {
            assert(marks@.take(marks@.len() as int) =~= marks@);
        }
    }

    /// One generation of promotion: every grey entry turns black, and
    /// every white child of a formerly grey entry turns grey. A no-op when
    /// grey is empty, so the caller may keep calling it until it reaches
    /// the fixpoint.
    pub fn mark_ptrs(&mut self)
        requires
            old(self).wf(),
        ensures
            final(self).wf(),
            final(self)@ == old(self)@.mark_step_spec(),
    {
        let ghost s0 = self.entries@;
        // Snapshot the grey generation: its identifiers, and every
        // identifier it references.
        let mut gids: Vec<u128> = Vec::new();
        let mut all_cs: Vec<u128> = Vec::new();
        let mut i: usize = 0;
        while i < self.entries.len()
            invariant
                i <= self.entries@.len(),
                *self == *old(self),
                self.entries@ == s0,
                gids@ == grey_id_seq(s0.take(i as int)),
                all_cs@ == children_concat(s0.take(i as int)),
            decreases self.entries@.len() - i,
        {
            let e = &self.entries[i];
            if e.color == Color::Grey {
                gids.push(e.id);
                let mut cs = e.val.child_id_vec();
                all_cs.append(&mut cs);
            }
            proof {
                assert(s0.take(i as int + 1).drop_last() =~= s0.take(i as int));
                assert(s0.take(i as int + 1).last() == s0[i as int]);
                if s0[i as int].color is Grey {
                    assert(gids@ =~= grey_id_seq(s0.take(i as int)) + seq![s0[i as int].id]);
                }
            }
            i += 1;
        }
        proof {
            assert(s0.take(s0.len() as int) =~= s0);
            lemma_grey_id_seq_contains(s0);
            lemma_color_map_membership(s0, Color::Grey);
            lemma_wf_view(s0);
        }
        // Promote the snapshot generation to black.
        let mut k: usize = 0;
        while k < gids.len()
            invariant
                k <= gids@.len(),
                self.wf(),
                gids@ == grey_id_seq(s0),
                self@.white == old(self)@.white,
                self@.grey == old(self)@.grey.remove_keys(gids@.take(k as int).to_set()),
                self@.black == old(self)@.black.union_prefer_right(
                    old(self)@.grey.restrict(gids@.take(k as int).to_set()),
                ),
            decreases gids@.len() - k,
        {
            let c = gids[k];
            let ghost pre = self@;
            self.promote_one_exec(c);
            proof {
                let p0 = gids@.take(k as int).to_set();
                let p1 = gids@.take(k as int + 1).to_set();
                assert(gids@.take(k as int + 1) =~= gids@.take(k as int).push(c));
                lemma_to_set_push(gids@.take(k as int), c);
                assert(p1 == p0.insert(c));
                if pre.grey.dom().contains(c) {
                    assert(self@.grey =~= old(self)@.grey.remove_keys(p1));
                    assert(pre.grey[c] == old(self)@.grey[c]);
                    assert(self@.black =~= old(self)@.black.union_prefer_right(
                        old(self)@.grey.restrict(p1),
                    ));
                } else {
                    assert(!old(self)@.grey.dom().contains(c) || p0.contains(c));
                    assert(self@.grey =~= old(self)@.grey.remove_keys(p1));
                    assert(self@.black =~= old(self)@.black.union_prefer_right(
                        old(self)@.grey.restrict(p1),
                    ));
                }
            }
            k += 1;
        }
        proof {
            assert(gids@.take(gids@.len() as int) =~= gids@);
            assert forall|x: u128| old(self)@.grey.dom().contains(x) implies gids@.to_set().contains(
                x,
            ) by {
                let j = choose|j: int|
                    0 <= j < s0.len() && s0[j].id == x && (#[trigger] s0[j]).color == Color::Grey;
                assert(grey_id_seq(s0).contains(x));
            }
            assert(self@.grey =~= Map::<u128, JsPtrEnum>::empty());
            assert(old(self)@.grey.restrict(gids@.to_set()) =~= old(self)@.grey);
            assert(self@.black =~= old(self)@.black.union_prefer_right(old(self)@.grey));
        }
        let ghost black_done = self@.black;
        // Shade the white entries the snapshot generation referenced.
        let mut k2: usize = 0;
        while k2 < all_cs.len()
            invariant
                k2 <= all_cs@.len(),
                self.wf(),
                all_cs@ == children_concat(s0),
                self@.black == black_done,
                self@.white == old(self)@.white.remove_keys(
                    old(self)@.white.dom().intersect(all_cs@.take(k2 as int).to_set()),
                ),
                self@.grey == old(self)@.white.restrict(
                    old(self)@.white.dom().intersect(all_cs@.take(k2 as int).to_set()),
                ),
            decreases all_cs@.len() - k2,
        {
            let c = all_cs[k2];
            let ghost pre = self@;
            self.shade_one_exec(c);
            proof {
                let sk0 = old(self)@.white.dom().intersect(all_cs@.take(k2 as int).to_set());
                let sk1 = old(self)@.white.dom().intersect(all_cs@.take(k2 as int + 1).to_set());
                assert(all_cs@.take(k2 as int + 1) =~= all_cs@.take(k2 as int).push(c));
                lemma_to_set_push(all_cs@.take(k2 as int), c);
                if old(self)@.white.dom().contains(c) {
                    assert(sk1 =~= sk0.insert(c));
                } else {
                    assert(sk1 =~= sk0);
                }
                if pre.white.dom().contains(c) {
                    assert(pre.white[c] == old(self)@.white[c]);
                    assert(self@.white =~= old(self)@.white.remove_keys(sk1));
                    assert(self@.grey =~= old(self)@.white.restrict(sk1));
                } else {
                    assert(self@.white =~= old(self)@.white.remove_keys(sk1));
                    assert(self@.grey =~= old(self)@.white.restrict(sk1));
                }
            }
            k2 += 1;
        }
        proof {
            assert(all_cs@.take(all_cs@.len() as int) =~= all_cs@);
            lemma_children_concat_contains(s0);
            lemma_color_map_at_all(s0);
            assert forall|c: u128|
                all_cs@.contains(c) implies old(self)@.grey_targets().contains(c) by {
                let j = choose|j: int|
                    0 <= j < s0.len() && (#[trigger] s0[j]).color is Grey && child_id_seq(
                        s0[j].val,
                    ).contains(c);
                assert(old(self)@.grey.dom().contains(s0[j].id));
                assert(old(self)@.grey[s0[j].id] == s0[j].val);
                assert(child_ids(old(self)@.grey[s0[j].id]).contains(c));
            }
            assert forall|c: u128|
                old(self)@.grey_targets().contains(c) implies all_cs@.contains(c) by {
                let b = choose|b: u128|
                    #[trigger] old(self)@.grey.dom().contains(b) && child_ids(
                        old(self)@.grey[b],
                    ).contains(c);
                let j = choose|j: int|
                    0 <= j < s0.len() && s0[j].id == b && (#[trigger] s0[j]).color == Color::Grey;
                assert(old(self)@.grey[b] == s0[j].val);
                assert(child_id_seq(s0[j].val).contains(c));
            }
            assert(old(self)@.white.dom().intersect(all_cs@.to_set())
                =~= old(self)@.white.dom().intersect(old(self)@.grey_targets()));
            assert(self@ =~= old(self)@.mark_step_spec());
        }
    }

    /// The terminal step of a cycle: every entry still white is discarded,
    /// the black entries are recycled as the next cycle's white set, and
    /// grey is left empty.
    pub fn sweep_ptrs(&mut self)
        requires
            old(self).wf(),
        ensures
            final(self).wf(),
            final(self)@ == old(self)@.sweep_spec(),
            final(self)@.grey == Map::<u128, JsPtrEnum>::empty(),
            final(self)@.black == Map::<u128, JsPtrEnum>::empty(),
    {
        let ghost s0 = self.entries@;
        let mut kept: Vec<Entry> = Vec::new();
        while self.entries.len() > 0
            invariant
                unique_ids(self.entries@),
                unique_ids(kept@),
                forall|j: int, k: int|
                    0 <= j < self.entries@.len() && 0 <= k < kept@.len() ==> self.entries@[j].id
                        != kept@[k].id,
                forall|k: int| 0 <= k < kept@.len() ==> (#[trigger] kept@[k]).color is White,
                color_map(s0, Color::Black) == color_map(self.entries@, Color::Black)
                    .union_prefer_right(color_map(kept@, Color::White)),
                color_map(kept@, Color::Grey) == Map::<u128, JsPtrEnum>::empty(),
                color_map(kept@, Color::Black) == Map::<u128, JsPtrEnum>::empty(),
            decreases self.entries@.len(),
        {
            let ghost rem0 = self.entries@;
            let ghost kept0 = kept@;
            let e = self.entries.pop().unwrap();
            proof {
                assert(self.entries@ =~= rem0.drop_last());
                lemma_color_map_membership(kept0, Color::White);
            }
            let is_black = e.color == Color::Black;
            if is_black {
                let ghost eg = e;
                kept.push(Entry { id: e.id, color: Color::White, val: e.val });
                proof {
                    assert(kept@.drop_last() =~= kept0);
                    assert(color_map(kept@, Color::White) == color_map(kept0, Color::White).insert(
                        eg.id,
                        eg.val,
                    ));
                    assert(color_map(rem0, Color::Black) == color_map(
                        self.entries@,
                        Color::Black,
                    ).insert(eg.id, eg.val));
                    assert(color_map(self.entries@, Color::Black).insert(
                        eg.id,
                        eg.val,
                    ).union_prefer_right(color_map(kept0, Color::White)) =~= color_map(
                        self.entries@,
                        Color::Black,
                    ).union_prefer_right(color_map(kept@, Color::White)));
                }
            } else {
                proof {
                    assert(color_map(rem0, Color::Black) == color_map(self.entries@, Color::Black));
                }
            }
        }
        self.entries = kept;
        proof {
            assert(color_map(s0, Color::Black) =~= color_map(self.entries@, Color::White));
            assert(self@ =~= old(self)@.sweep_spec());
        }
    }
}

/// The stored value of every entry is what its color's mapping holds.
proof fn lemma_color_map_at_all(s: Seq<Entry>)
    requires
        unique_ids(s),
    ensures
        forall|i: int|
            0 <= i < s.len() ==> color_map(s, (#[trigger] s[i]).color).dom().contains(s[i].id)
                && color_map(s, s[i].color)[s[i].id] == s[i].val,
{
    assert forall|i: int| 0 <= i < s.len() implies color_map(
        s,
        (#[trigger] s[i]).color,
    ).dom().contains(s[i].id) && color_map(s, s[i].color)[s[i].id] == s[i].val by {
        lemma_color_map_at(s, i);
    }
}

} // verus!
