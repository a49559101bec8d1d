//! The entity tree: entities own their child entities and a components
//! collection, and hold a non-owning back-reference (the parent's runtime
//! handle) to the entity that owns them.
//!
//! Ownership is by value: a child lives inside its parent's child sequence,
//! a root lives in the scene's object registry, and no entity is ever held
//! in two places.  The well-formedness predicate ties the parent
//! back-references to that ownership: a root's parent handle is 0, and
//! every child's parent handle names exactly the entity that owns it.
//!
//! Every operation that addresses an entity by handle walks the forest in
//! depth-first order and acts on the first entity carrying the handle; the
//! spec-level combinators (`sfind_*`, `sapply_*`, ...) define that search
//! order, and the executable walkers are proved against them.

use vstd::prelude::*;

verus! {

use crate::component::{
    Components, ComponentsV, Component, CompV, ComponentKind, screate, sremove,
    stransform_local, sget_kind, stick_comps, anc_world, kind_is_singleton, first_idx,
    lemma_first_idx, lemma_first_idx_is, lemma_first_idx_none, lemma_screate_wf,
    lemma_sremove_wf, cid_pred, kind_pred, comps_view, TransformV, comps_has_cid,
};
use crate::mat::{Mat4, smat_mul};

/// An entity: a named node of the scene tree.
pub struct Entity {
    /// Runtime handle; never persisted, never 0.
    pub id: u64,
    /// Human label.
    pub name: String,
    /// Persisted 128-bit identity.
    pub instance_id: u128,
    /// Runtime handle of the owning entity, 0 for a root.
    pub parent_id: u64,
    /// Owned child entities, in attach order.
    pub children: Vec<Entity>,
    /// Owned components.
    pub components: Components,
}

/// View of an entity.
pub struct EntityV {
    pub id: u64,
    pub name: Seq<char>,
    pub instance_id: u128,
    pub parent_id: u64,
    pub children: Seq<EntityV>,
    pub components: ComponentsV,
}

/// The views of a sequence of entities.
pub open spec fn forest_view(s: Seq<Entity>) -> Seq<EntityV>
    decreases s,
{
    if s.len() == 0 {
        Seq::empty()
    } else {
        seq![s[0]@] + forest_view(s.drop_first())
    }
}

impl View for Entity {
    type V = EntityV;

    open spec fn view(&self) -> EntityV
        decreases self,
    {
        EntityV {
            id: self.id,
            name: self.name@,
            instance_id: self.instance_id,
            parent_id: self.parent_id,
            children: forest_view(self.children@),
            components: self.components@,
        }
    }
}

/// `forest_view` maps pointwise.
pub proof fn lemma_forest_view(s: Seq<Entity>)
    ensures
        forest_view(s).len() == s.len(),
        forall|i: int| 0 <= i < s.len() ==> forest_view(s)[i] == (#[trigger] s[i])@,
    decreases s,
{
    if s.len() > 0 {
        lemma_forest_view(s.drop_first());
        assert(forest_view(s) == seq![s[0]@] + forest_view(s.drop_first()));
        assert(forest_view(s).len() == s.len());
        assert forall|i: int| 0 <= i < s.len() implies forest_view(s)[i] == (#[trigger] s[i])@ by {
            if i > 0 {
                assert(s.drop_first()[i - 1] == s[i]);
                assert(forest_view(s.drop_first())[i - 1] == (s.drop_first()[i - 1])@);
                assert(forest_view(s)[i] == forest_view(s.drop_first())[i - 1]);
            }
        }
    }
}

impl EntityV {
    /// Well-formedness of a subtree: the components collection is well
    /// formed, the handle is a real handle, and every child is a well
    /// formed subtree whose parent back-reference names this entity.
    pub open spec fn wf(self) -> bool
        decreases self,
    {
        &&& self.id != 0
        &&& self.components.wf()
        &&& forall|i: int|
            0 <= i < self.children.len() ==> (#[trigger] self.children[i]).wf()
                && self.children[i].parent_id == self.id
    }
}

/// Well-formedness of a forest of subtrees.
pub open spec fn forest_wf(s: Seq<EntityV>) -> bool {
    forall|i: int| 0 <= i < s.len() ==> (#[trigger] s[i]).wf()
}

// ---------------------------------------------------------------------------
// structural membership and search
// ---------------------------------------------------------------------------

/// Does the subtree rooted at `e` hold an entity with handle `h`?
pub open spec fn ent_contains(e: EntityV, h: u64) -> bool
    decreases e,
{
    e.id == h || forest_contains(e.children, h)
}

/// Does any subtree of the forest hold an entity with handle `h`?
pub open spec fn forest_contains(s: Seq<EntityV>, h: u64) -> bool
    decreases s,
{
    if s.len() == 0 {
        false
    } else {
        ent_contains(s[0], h) || forest_contains(s.drop_first(), h)
    }
}

/// The predicate "this subtree holds an entity with handle `h`".
pub open spec fn subtree_pred(h: u64) -> spec_fn(EntityV) -> bool {
    |e: EntityV| ent_contains(e, h)
}

/// The predicate "has runtime handle `h`" on entities.
pub open spec fn eid_pred(h: u64) -> spec_fn(EntityV) -> bool {
    |e: EntityV| e.id == h
}

/// A forest holds `h` exactly when one of its subtrees does.
pub proof fn lemma_forest_contains_exists(s: Seq<EntityV>, h: u64)
    ensures
        forest_contains(s, h) <==> exists|i: int|
            0 <= i < s.len() && ent_contains(#[trigger] s[i], h),
    decreases s.len(),
{
    if s.len() > 0 {
        assert(forall|i: int| 0 <= i < s.len() - 1 ==> #[trigger] s.drop_first()[i] == s[i + 1]);
        lemma_forest_contains_exists(s.drop_first(), h);
        if forest_contains(s, h) {
            if ent_contains(s[0], h) {
                assert(ent_contains(s[0], h));
            } else {
                let i = choose|i: int|
                    0 <= i < s.drop_first().len() && ent_contains(
                        #[trigger] s.drop_first()[i],
                        h,
                    );
                assert(ent_contains(s[i + 1], h));
            }
        }
        if exists|i: int| 0 <= i < s.len() && ent_contains(#[trigger] s[i], h) {
            let i = choose|i: int| 0 <= i < s.len() && ent_contains(#[trigger] s[i], h);
            if i > 0 {
                assert(ent_contains(s.drop_first()[i - 1], h));
            }
        }
    }
}

/// A forest holds `h` exactly when the first subtree holding `h` exists.
pub proof fn lemma_forest_contains_first_idx(s: Seq<EntityV>, h: u64)
    ensures
        forest_contains(s, h) <==> first_idx(s, subtree_pred(h)) >= 0,
{
    lemma_forest_contains_exists(s, h);
    lemma_first_idx(s, subtree_pred(h));
    if forest_contains(s, h) {
        if first_idx(s, subtree_pred(h)) < 0 {
            let i = choose|i: int| 0 <= i < s.len() && ent_contains(#[trigger] s[i], h);
            assert(!subtree_pred(h)(s[i]));
        }
    }
}

/// The first entity with handle `h` in depth-first order, within the
/// subtree rooted at `e`.  Meaningful only when `ent_contains(e, h)`.
pub open spec fn sfind_ent(e: EntityV, h: u64) -> EntityV
    decreases e,
{
    if e.id == h {
        e
    } else {
        sfind_forest(e.children, h)
    }
}

/// The first entity with handle `h` in depth-first order over the forest.
pub open spec fn sfind_forest(s: Seq<EntityV>, h: u64) -> EntityV
    decreases s,
    via sfind_forest_dec
{
    let i = first_idx(s, subtree_pred(h));
    if i >= 0 {
        sfind_ent(s[i], h)
    } else {
        arbitrary()
    }
}

#[via_fn]
proof fn sfind_forest_dec(s: Seq<EntityV>, h: u64) {
    lemma_first_idx(s, subtree_pred(h));
}

/// Structural membership of a value: `x` occurs somewhere in the forest.
pub open spec fn in_forest(s: Seq<EntityV>, x: EntityV) -> bool
    decreases s,
{
    if s.len() == 0 {
        false
    } else {
        s[0] == x || in_forest(s[0].children, x) || in_forest(s.drop_first(), x)
    }
}

/// Parent/child invariant, one half: in a well-formed forest, every entity
/// occurrence has children that name it as their parent, and its handle is
/// a real handle.  Together with roots carrying parent handle 0 (part of
/// the scene's well-formedness) this is the partition invariant: an entity
/// sits either in the registry with no parent, or in exactly one owner's
/// child sequence, which its parent handle names.
pub proof fn lemma_children_parented(s: Seq<EntityV>, x: EntityV)
    requires
        forest_wf(s),
        in_forest(s, x),
    ensures
        x.id != 0,
        x.wf(),
        forall|j: int|
            0 <= j < x.children.len() ==> (#[trigger] x.children[j]).parent_id == x.id,
    decreases s,
{
    if s.len() > 0 {
        if s[0] == x {
        } else if in_forest(s[0].children, x) {
            assert(s[0].wf());
            assert(forest_wf(s[0].children));
            lemma_children_parented(s[0].children, x);
        } else {
            assert(forall|i: int|
                0 <= i < s.len() - 1 ==> #[trigger] s.drop_first()[i] == s[i + 1]);
            lemma_children_parented(s.drop_first(), x);
        }
    }
}

// ---------------------------------------------------------------------------
// component operations addressed through the tree
// ---------------------------------------------------------------------------

/// A component-level operation addressed to one entity of the tree.
pub enum CompOp {
    /// Create a default component of the kind, with the given fresh handle.
    Create(ComponentKind, u64),
    /// Remove the component with the given handle.
    Remove(u64),
    /// Premultiply the local matrix of the transform component with the
    /// given handle by the matrix.
    Premul(u64, Mat4),
}

/// View of a component operation.
pub enum CompOpV {
    Create(ComponentKind, u64),
    Remove(u64),
    Premul(u64, Seq<i64>),
}

impl View for CompOp {
    type V = CompOpV;

    open spec fn view(&self) -> CompOpV {
        match self {
            CompOp::Create(k, id) => CompOpV::Create(*k, *id),
            CompOp::Remove(cid) => CompOpV::Remove(*cid),
            CompOp::Premul(cid, m) => CompOpV::Premul(*cid, m.m@),
        }
    }
}

impl CompOp {
    pub open spec fn wf(self) -> bool {
        match self {
            CompOp::Premul(_, m) => m.wf(),
            _ => true,
        }
    }
}

/// What a component operation does to one components collection.
pub open spec fn sapply_comps(cs: ComponentsV, op: CompOpV) -> (ComponentsV, bool) {
    match op {
        CompOpV::Create(k, id) => screate(cs, k, id),
        CompOpV::Remove(cid) => sremove(cs, cid),
        CompOpV::Premul(cid, m) => stransform_local(cs, cid, m),
    }
}

/// The subtree after applying `op` to the components of the first entity
/// with handle `h`; the subtree is unchanged when `h` is absent.
pub open spec fn sapply_ent(e: EntityV, h: u64, op: CompOpV) -> EntityV
    decreases e,
{
    if e.id == h {
        EntityV { components: sapply_comps(e.components, op).0, ..e }
    } else {
        EntityV { children: sapply_forest(e.children, h, op), ..e }
    }
}

/// The forest after applying `op` to the first entity with handle `h`.
pub open spec fn sapply_forest(s: Seq<EntityV>, h: u64, op: CompOpV) -> Seq<EntityV>
    decreases s,
    via sapply_forest_dec
{
    let i = first_idx(s, subtree_pred(h));
    if i >= 0 {
        s.update(i, sapply_ent(s[i], h, op))
    } else {
        s
    }
}

#[via_fn]
proof fn sapply_forest_dec(s: Seq<EntityV>, h: u64, op: CompOpV) {
    lemma_first_idx(s, subtree_pred(h));
}

/// Whether the operation reported success, applied to the first entity with
/// handle `h` of the forest; false when `h` is absent.
pub open spec fn sapply_ok(s: Seq<EntityV>, h: u64, op: CompOpV) -> bool {
    forest_contains(s, h) && sapply_comps(sfind_forest(s, h).components, op).1
}

/// A component operation leaves a well-formed collection well formed.
pub proof fn lemma_sapply_comps_wf(cs: ComponentsV, op: CompOpV)
    requires
        cs.wf(),
    ensures
        sapply_comps(cs, op).0.wf(),
{
    match op {
        CompOpV::Create(k, id) => {
            lemma_screate_wf(cs, k, id);
        },
        CompOpV::Remove(cid) => {
            lemma_sremove_wf(cs, cid);
        },
        CompOpV::Premul(cid, m) => {
            let pu = cid_pred(cid);
            let iu = first_idx(cs.uniq, pu);
            lemma_first_idx(cs.uniq, pu);
            if iu >= 0 {
                match cs.uniq[iu] {
                    CompV::Transform(t) => {
                        let s2 = stransform_local(cs, cid, m).0.uniq;
                        assert(forall|j: int|
                            0 <= j < s2.len() && j != iu ==> #[trigger] s2[j] == cs.uniq[j]);
                        assert(s2[iu].wf());
                        assert(s2[iu].kind() == cs.uniq[iu].kind());
                        assert(forall|i2: int, j2: int|
                            0 <= i2 < j2 < s2.len() ==> #[trigger] s2[i2].kind()
                                != #[trigger] s2[j2].kind()) by {
                            assert(forall|j: int|
                                0 <= j < s2.len() ==> #[trigger] s2[j].kind()
                                    == cs.uniq[j].kind());
                        }
                    },
                    _ => {},
                }
            }
        },
    }
}

// ---------------------------------------------------------------------------
// the tick transition
// ---------------------------------------------------------------------------

/// One tick of a subtree: this entity's components tick against the
/// ancestor collection, then every child ticks against this entity's own,
/// already updated, components — strict parent-before-child order.
pub open spec fn stick_ent(e: EntityV, anc: Option<ComponentsV>) -> EntityV
    decreases e,
{
    let cs2 = stick_comps(e.components, anc);
    EntityV { components: cs2, children: stick_forest(e.children, cs2), ..e }
}

/// One tick of a forest of siblings, all against the same parent
/// collection.
pub open spec fn stick_forest(s: Seq<EntityV>, parent: ComponentsV) -> Seq<EntityV>
    decreases s,
{
    if s.len() == 0 {
        Seq::empty()
    } else {
        seq![stick_ent(s[0], Some(parent))] + stick_forest(s.drop_first(), parent)
    }
}

/// `stick_forest` maps pointwise.
pub proof fn lemma_stick_forest(s: Seq<EntityV>, parent: ComponentsV)
    ensures
        stick_forest(s, parent).len() == s.len(),
        forall|i: int|
            0 <= i < s.len() ==> stick_forest(s, parent)[i] == stick_ent(
                #[trigger] s[i],
                Some(parent),
            ),
    decreases s,
{
    if s.len() > 0 {
        lemma_stick_forest(s.drop_first(), parent);
        assert(stick_forest(s, parent) == seq![stick_ent(s[0], Some(parent))] + stick_forest(
            s.drop_first(),
            parent,
        ));
        assert forall|i: int|
            0 <= i < s.len() implies stick_forest(s, parent)[i] == stick_ent(
            #[trigger] s[i],
            Some(parent),
        ) by {
            if i > 0 {
                assert(s.drop_first()[i - 1] == s[i]);
                assert(stick_forest(s, parent)[i] == stick_forest(s.drop_first(), parent)[i - 1]);
            }
        }
    }
}

/// A component's kind survives a tick.
proof fn lemma_stick_comp_kind(c: CompV, anc: Option<ComponentsV>)
    ensures
        crate::component::stick_comp(c, anc).kind() == c.kind(),
        crate::component::stick_comp(c, anc).cid() == c.cid(),
{
}

/// `first_idx` agrees on two sequences whose elements satisfy the two
/// predicates in the same places.
pub proof fn lemma_first_idx_equiv<A, B>(
    s1: Seq<A>,
    s2: Seq<B>,
    p1: spec_fn(A) -> bool,
    p2: spec_fn(B) -> bool,
)
    requires
        s1.len() == s2.len(),
        forall|i: int| 0 <= i < s1.len() ==> (p1(#[trigger] s1[i]) <==> p2(#[trigger] s2[i])),
    ensures
        first_idx(s1, p1) == first_idx(s2, p2),
    decreases s1.len(),
{
    if s1.len() > 0 {
        assert(forall|i: int|
            0 <= i < s1.len() - 1 ==> #[trigger] s1.drop_first()[i] == s1[i + 1]);
        assert(forall|i: int|
            0 <= i < s2.len() - 1 ==> #[trigger] s2.drop_first()[i] == s2[i + 1]);
        lemma_first_idx_equiv(s1.drop_first(), s2.drop_first(), p1, p2);
        assert(p1(s1[0]) <==> p2(s2[0]));
    }
}

/// Looking the transform component up after a collection tick finds the
/// ticked transform component.
pub proof fn lemma_stick_comps_get(cs: ComponentsV, anc: Option<ComponentsV>)
    ensures
        sget_kind(stick_comps(cs, anc), ComponentKind::Transform) == (match sget_kind(
            cs,
            ComponentKind::Transform,
        ) {
            Some(c) => Some(crate::component::stick_comp(c, anc)),
            None => None,
        }),
{
    let k = ComponentKind::Transform;
    let p = kind_pred(k);
    let cs2 = stick_comps(cs, anc);
    assert(cs2.uniq.len() == cs.uniq.len());
    assert(forall|i: int|
        0 <= i < cs.uniq.len() ==> #[trigger] cs2.uniq[i] == crate::component::stick_comp(
            cs.uniq[i],
            anc,
        ));
    assert forall|i: int|
        0 <= i < cs.uniq.len() implies (p(#[trigger] cs.uniq[i]) <==> p(
        #[trigger] cs2.uniq[i],
    )) by {
        lemma_stick_comp_kind(cs.uniq[i], anc);
    }
    lemma_first_idx_equiv(cs.uniq, cs2.uniq, p, p);
    lemma_first_idx(cs.uniq, p);
}

/// Ticking preserves well-formedness of a collection.
pub proof fn lemma_stick_comps_wf(cs: ComponentsV, anc: Option<ComponentsV>)
    requires
        cs.wf(),
    ensures
        stick_comps(cs, anc).wf(),
{
    let cs2 = stick_comps(cs, anc);
    assert forall|i: int| 0 <= i < cs2.uniq.len() implies (#[trigger] cs2.uniq[i]).wf() by {
        assert(cs2.uniq[i] == crate::component::stick_comp(cs.uniq[i], anc));
        assert(cs.uniq[i].wf());
    }
    assert forall|i: int| 0 <= i < cs2.multi.len() implies (#[trigger] cs2.multi[i]).wf() by {
        assert(cs2.multi[i] == crate::component::stick_comp(cs.multi[i], anc));
        assert(cs.multi[i].wf());
    }
    assert forall|i: int, j: int|
        0 <= i < j < cs2.uniq.len() implies #[trigger] cs2.uniq[i].kind()
        != #[trigger] cs2.uniq[j].kind() by {
        lemma_stick_comp_kind(cs.uniq[i], anc);
        lemma_stick_comp_kind(cs.uniq[j], anc);
    }
    assert forall|i: int|
        0 <= i < cs2.uniq.len() implies kind_is_singleton(#[trigger] cs2.uniq[i].kind()) by {
        lemma_stick_comp_kind(cs.uniq[i], anc);
    }
    assert forall|i: int|
        0 <= i < cs2.multi.len() implies !kind_is_singleton(#[trigger] cs2.multi[i].kind()) by {
        lemma_stick_comp_kind(cs.multi[i], anc);
    }
}

/// Ticking preserves well-formedness of a subtree; handles and parent
/// references are untouched.
pub proof fn lemma_stick_ent_wf(e: EntityV, anc: Option<ComponentsV>)
    requires
        e.wf(),
    ensures
        stick_ent(e, anc).wf(),
        stick_ent(e, anc).id == e.id,
        stick_ent(e, anc).parent_id == e.parent_id,
        stick_ent(e, anc).children.len() == e.children.len(),
    decreases e,
{
    let cs2 = stick_comps(e.components, anc);
    lemma_stick_comps_wf(e.components, anc);
    lemma_stick_forest(e.children, cs2);
    assert forall|i: int|
        0 <= i < e.children.len() implies (#[trigger] stick_ent(e, anc).children[i]).wf()
        && stick_ent(e, anc).children[i].parent_id == stick_ent(e, anc).id by {
        assert(stick_ent(e, anc).children[i] == stick_ent(e.children[i], Some(cs2)));
        assert(e.children[i].wf());
        lemma_stick_ent_wf(e.children[i], Some(cs2));
    }
}

/// Transform propagation: after ticking a root `r` (no ancestor), the
/// root's transform holds world == its own local matrix, and the transform
/// of any child holds world == (root's new world) × (child's local).
pub proof fn lemma_transform_propagation(r: EntityV, i: int, tr: TransformV, tc: TransformV)
    requires
        r.wf(),
        sget_kind(r.components, ComponentKind::Transform) == Some(CompV::Transform(tr)),
        0 <= i < r.children.len(),
        sget_kind(r.children[i].components, ComponentKind::Transform) == Some(
            CompV::Transform(tc),
        ),
    ensures
        ({
            let r2 = stick_ent(r, None);
            &&& sget_kind(r2.components, ComponentKind::Transform) == Some(
                CompV::Transform(TransformV { world: tr.local, ..tr }),
            )
            &&& sget_kind(r2.children[i].components, ComponentKind::Transform) == Some(
                CompV::Transform(TransformV { world: smat_mul(tr.local, tc.local), ..tc }),
            )
        }),
{
    let r2 = stick_ent(r, None);
    let cs2 = stick_comps(r.components, None);
    lemma_stick_comps_get(r.components, None);
    assert(anc_world(None) is None);
    assert(sget_kind(cs2, ComponentKind::Transform) == Some(
        CompV::Transform(TransformV { world: tr.local, ..tr }),
    ));
    lemma_stick_forest(r.children, cs2);
    assert(r2.children[i] == stick_ent(r.children[i], Some(cs2)));
    lemma_stick_comps_get(r.children[i].components, Some(cs2));
    assert(anc_world(Some(cs2)) == Some(tr.local));
    assert(crate::component::stick_comp(CompV::Transform(tc), Some(cs2)) == CompV::Transform(
        TransformV { world: smat_mul(tr.local, tc.local), ..tc },
    ));
}

// ---------------------------------------------------------------------------
// executable tick
// ---------------------------------------------------------------------------

/// One tick of an owned subtree.  `delta` is the frame's time step; it is
/// handed through to the components, none of which presently reads it.
pub fn tick_entity(ent: Entity, delta: i64, anc: Option<&Components>) -> (r: Entity)
    requires
        ent@.wf(),
        match anc {
            Some(a) => a@.wf(),
            None => true,
        },
    ensures
        r@ == stick_ent(ent@, match anc {
            Some(a) => Some(a@),
            None => None,
        }),
    decreases ent,
{
    let ghost e0 = ent;
    let ghost av: Option<ComponentsV> = match anc {
        Some(a) => Some(a@),
        None => None,
    };
    let mut e = ent;
    proof {
        lemma_forest_view(e0.children@);
    }
    e.components.tick(anc);
    let ghost cs2 = stick_comps(e0@.components, av);
    proof {
        lemma_stick_comps_wf(e0@.components, av);
        lemma_stick_forest(e0@.children, cs2);
    }
    let mut i: usize = 0;
    while i < e.children.len()
        invariant
            e0 == ent,
            i <= e.children@.len(),
            e.children@.len() == e0.children@.len(),
            e.id == e0.id,
            e.name@ == e0.name@,
            e.instance_id == e0.instance_id,
            e.parent_id == e0.parent_id,
            e.components@ == cs2,
            cs2 == stick_comps(e0@.components, av),
            cs2.wf(),
            e0@.wf(),
            forall|j: int|
                0 <= j < i ==> (#[trigger] e.children@[j])@ == stick_ent(
                    e0@.children[j],
                    Some(cs2),
                ),
            e0@.children.len() == e.children@.len(),
            forall|j: int|
                i <= j < e.children@.len() ==> #[trigger] e.children@[j] == e0.children@[j],
        decreases e.children@.len() - i,
    {
        proof {
            lemma_forest_view(e0.children@);
            assert(e.children@[i as int] == e0.children@[i as int]);
            assert((e0.children@[i as int])@ == e0@.children[i as int]);
            assert(e0@.children[i as int].wf());
        }
        let ghost prev = e.children@;
        let c = e.children.remove(i);
        assert(c == e0.children@[i as int]);
        proof {
            assert(decreases_to!(e0 => e0.children));
            assert(decreases_to!(e0.children => e0.children@));
            assert(decreases_to!(e0.children@ => e0.children@[i as int]));
            assert(decreases_to!(e0 => c));
        }
        let c2 = tick_entity(c, delta, Some(&e.components));
        e.children.insert(i, c2);
        assert(e.children@ =~= prev.update(i as int, c2));
        i = i + 1;
    }
    proof {
        lemma_forest_view(e.children@);
        lemma_forest_view(e0.children@);
        assert forall|j: int|
            0 <= j < e.children@.len() implies forest_view(e.children@)[j] == stick_forest(
            e0@.children,
            cs2,
        )[j] by {
            assert(forest_view(e.children@)[j] == (e.children@[j])@);
            assert((e.children@[j])@ == stick_ent(e0@.children[j], Some(cs2)));
            assert(stick_forest(e0@.children, cs2)[j] == stick_ent(e0@.children[j], Some(cs2)));
        }
        assert(e@.children =~= stick_forest(e0@.children, cs2));
        assert(e@ == stick_ent(e0@, av));
    }
    e
}

// ---------------------------------------------------------------------------
// read-only search
// ---------------------------------------------------------------------------

/// `forest_contains` over a sequence with one subtree appended.
proof fn lemma_forest_contains_push(s: Seq<EntityV>, e: EntityV, h: u64)
    ensures
        forest_contains(s.push(e), h) == (forest_contains(s, h) || ent_contains(e, h)),
    decreases s.len(),
{
    if s.len() == 0 {
        assert(s.push(e)[0] == e);
        assert(s.push(e).drop_first() =~= s);
    } else {
        assert(s.push(e)[0] == s[0]);
        assert(s.push(e).drop_first() =~= s.drop_first().push(e));
        lemma_forest_contains_push(s.drop_first(), e, h);
    }
}

/// When the subtrees before `i` miss `h` and subtree `i` holds it, the
/// forest holds it.
proof fn lemma_forest_contains_prefix(s: Seq<EntityV>, i: int, h: u64)
    requires
        0 <= i < s.len(),
        ent_contains(s[i], h),
    ensures
        forest_contains(s, h),
    decreases s.len(),
{
    if i == 0 {
    } else {
        assert(s.drop_first()[i - 1] == s[i]);
        lemma_forest_contains_prefix(s.drop_first(), i - 1, h);
    }
}

/// Is an entity with handle `h` present in the forest?
pub fn forest_has(ents: &Vec<Entity>, h: u64) -> (r: bool)
    ensures
        r == forest_contains(forest_view(ents@), h),
    decreases ents@,
{
    let ghost sv = forest_view(ents@);
    proof {
        lemma_forest_view(ents@);
    }
    let mut i: usize = 0;
    while i < ents.len()
        invariant
            i <= ents@.len(),
            sv == forest_view(ents@),
            sv.len() == ents@.len(),
            forall|j: int| 0 <= j < i ==> !ent_contains(#[trigger] sv[j], h),
            !forest_contains(sv.take(i as int), h),
        decreases ents@.len() - i,
    {
        proof {
            lemma_forest_view(ents@);
            assert(decreases_to!(ents@ => ents@[i as int]));
        }
        let e = &ents[i];
        let found = if e.id == h {
            true
        } else {
            forest_has(&e.children, h)
        };
        proof {
            assert(sv[i as int] == (ents@[i as int])@);
            assert(ent_contains(sv[i as int], h) == (e.id == h || forest_contains(
                forest_view(e.children@),
                h,
            )));
        }
        if found {
            proof {
                lemma_forest_contains_prefix(sv, i as int, h);
            }
            return true;
        }
        proof {
            assert(sv.take(i + 1 as int) =~= sv.take(i as int).push(sv[i as int]));
            lemma_forest_contains_push(sv.take(i as int), sv[i as int], h);
        }
        i = i + 1;
    }
    proof {
        assert(sv.take(sv.len() as int) =~= sv);
    }
    false
}

// ---------------------------------------------------------------------------
// attach, detach, destroy: transitions
// ---------------------------------------------------------------------------

/// The subtree after pushing child `c` onto the child sequence of the
/// first entity with handle `p`; unchanged when `p` is absent.
pub open spec fn sattach_ent(e: EntityV, p: u64, c: EntityV) -> EntityV
    decreases e,
{
    if e.id == p {
        EntityV { children: e.children.push(c), ..e }
    } else {
        EntityV { children: sattach_forest(e.children, p, c), ..e }
    }
}

/// The forest after attaching `c` under the first entity with handle `p`.
pub open spec fn sattach_forest(s: Seq<EntityV>, p: u64, c: EntityV) -> Seq<EntityV>
    decreases s,
    via sattach_forest_dec
{
    let i = first_idx(s, subtree_pred(p));
    if i >= 0 {
        s.update(i, sattach_ent(s[i], p, c))
    } else {
        s
    }
}

#[via_fn]
proof fn sattach_forest_dec(s: Seq<EntityV>, p: u64, c: EntityV) {
    lemma_first_idx(s, subtree_pred(p));
}

/// Detaching child `c` from the first entity with handle `p`: the new
/// subtree, and the removed child (with its parent reference cleared)
/// when `c` really was a child of that entity.
pub open spec fn sdetach_ent(e: EntityV, p: u64, c: u64) -> (EntityV, Option<EntityV>)
    decreases e,
{
    if e.id == p {
        let i = first_idx(e.children, eid_pred(c));
        if i >= 0 {
            (
                EntityV { children: e.children.remove(i), ..e },
                Some(EntityV { parent_id: 0, ..e.children[i] }),
            )
        } else {
            (e, None)
        }
    } else {
        let r = sdetach_forest(e.children, p, c);
        (EntityV { children: r.0, ..e }, r.1)
    }
}

/// Detaching over a forest: the first entity with handle `p` is addressed.
pub open spec fn sdetach_forest(s: Seq<EntityV>, p: u64, c: u64) -> (Seq<EntityV>, Option<
    EntityV,
>)
    decreases s,
    via sdetach_forest_dec
{
    let i = first_idx(s, subtree_pred(p));
    if i >= 0 {
        let r = sdetach_ent(s[i], p, c);
        (s.update(i, r.0), r.1)
    } else {
        (s, None)
    }
}

#[via_fn]
proof fn sdetach_forest_dec(s: Seq<EntityV>, p: u64, c: u64) {
    lemma_first_idx(s, subtree_pred(p));
}

/// Destroying the first entity with handle `h`: the forest without that
/// entity's whole subtree, and whether it was found.  The removed subtree
/// itself is `sfind_forest(s, h)`.
pub open spec fn sdestroy_forest(s: Seq<EntityV>, h: u64) -> (Seq<EntityV>, bool)
    decreases s,
    via sdestroy_forest_dec
{
    let i = first_idx(s, subtree_pred(h));
    if i >= 0 {
        if s[i].id == h {
            (s.remove(i), true)
        } else {
            (s.update(i, EntityV { children: sdestroy_forest(s[i].children, h).0, ..s[i] }), true)
        }
    } else {
        (s, false)
    }
}

#[via_fn]
proof fn sdestroy_forest_dec(s: Seq<EntityV>, h: u64) {
    lemma_first_idx(s, subtree_pred(h));
}

// ---------------------------------------------------------------------------
// shared executable search
// ---------------------------------------------------------------------------

/// The index of the first subtree of the forest that holds an entity with
/// handle `h`.
pub fn find_subtree_idx(ents: &Vec<Entity>, h: u64) -> (r: Option<usize>)
    ensures
        ({
            let i = first_idx(forest_view(ents@), subtree_pred(h));
            match r {
                Some(idx) => i == idx && 0 <= i < ents@.len(),
                None => i < 0,
            }
        }),
{
    let ghost sv = forest_view(ents@);
    let ghost p = subtree_pred(h);
    proof {
        lemma_forest_view(ents@);
    }
    let mut i: usize = 0;
    while i < ents.len()
        invariant
            i <= ents@.len(),
            sv == forest_view(ents@),
            p == subtree_pred(h),
            sv.len() == ents@.len(),
            forall|j: int| 0 <= j < i ==> !p(#[trigger] sv[j]),
        decreases ents@.len() - i,
    {
        proof {
            lemma_forest_view(ents@);
            assert(sv[i as int] == (ents@[i as int])@);
        }
        let e = &ents[i];
        let found = if e.id == h {
            true
        } else {
            forest_has(&e.children, h)
        };
        if found {
            proof {
                assert(ent_contains(sv[i as int], h));
                lemma_first_idx_is(sv, p, i as int);
            }
            return Some(i);
        }
        proof {
            assert(!ent_contains(sv[i as int], h));
        }
        i = i + 1;
    }
    proof {
        lemma_first_idx_none(sv, p);
    }
    None
}

// ---------------------------------------------------------------------------
// executable attach
// ---------------------------------------------------------------------------

/// The index of the child with handle `c` in a child sequence (the top
/// level only, no recursion).
pub fn find_child_idx(v: &Vec<Entity>, c: u64) -> (r: Option<usize>)
    ensures
        ({
            let i = first_idx(forest_view(v@), eid_pred(c));
            match r {
                Some(idx) => i == idx && 0 <= i < v@.len(),
                None => i < 0,
            }
        }),
{
    let ghost sv = forest_view(v@);
    let ghost p = eid_pred(c);
    proof {
        lemma_forest_view(v@);
    }
    let mut i: usize = 0;
    while i < v.len()
        invariant
            i <= v@.len(),
            sv == forest_view(v@),
            p == eid_pred(c),
            sv.len() == v@.len(),
            forall|j: int| 0 <= j < i ==> !p(#[trigger] sv[j]),
        decreases v@.len() - i,
    {
        proof {
            lemma_forest_view(v@);
            assert(sv[i as int] == (v@[i as int])@);
        }
        if v[i].id == c {
            proof {
                lemma_first_idx_is(sv, p, i as int);
            }
            return Some(i);
        }
        proof {
            assert(!p(sv[i as int]));
        }
        i = i + 1;
    }
    proof {
        lemma_first_idx_none(sv, p);
    }
    None
}

/// Attach `c` under the first entity with handle `p` inside the subtree
/// rooted at `ent`, which must hold `p`.
pub fn attach_ent(ent: Entity, p: u64, c: Entity) -> (r: Entity)
    requires
        ent@.wf(),
        ent_contains(ent@, p),
        c@.wf(),
        c@.parent_id == p,
    ensures
        r@ == sattach_ent(ent@, p, c@),
        r@.wf(),
    decreases ent,
{
    let mut e = ent;
    if e.id == p {
        let ghost prevc = e.children@;
        e.children.push(c);
        proof {
            lemma_forest_view(prevc);
            lemma_forest_view(e.children@);
            assert forall|j: int|
                0 <= j < e.children@.len() implies forest_view(e.children@)[j] == ent@
                .children.push(c@)[j] by {
                if j < prevc.len() {
                    assert(e.children@[j] == prevc[j]);
                } else {
                    assert(e.children@[j] == c);
                }
            }
            assert(forest_view(e.children@) =~= ent@.children.push(c@));
            assert(e@ == sattach_ent(ent@, p, c@));
        }
        e
    } else {
        match find_subtree_idx(&e.children, p) {
            Some(i) => {
                let ghost prevc = e.children@;
                let ghost csv = forest_view(prevc);
                proof {
                    lemma_forest_view(prevc);
                    assert(csv[i as int] == (prevc[i as int])@);
                    assert(ent@.children[i as int].wf());
                }
                let sub = e.children.remove(i);
                proof {
                    assert(sub == prevc[i as int]);
                    assert(decreases_to!(ent => ent.children));
                    assert(decreases_to!(ent.children => ent.children@));
                    assert(decreases_to!(ent.children@ => ent.children@[i as int]));
                    assert(decreases_to!(ent => sub));
                    assert(csv == ent@.children);
                    lemma_first_idx(csv, subtree_pred(p));
                    assert(ent_contains(sub@, p));
                }
                let sub2 = attach_ent(sub, p, c);
                e.children.insert(i, sub2);
                proof {
                    assert(e.children@ =~= prevc.update(i as int, sub2));
                    lemma_forest_view(e.children@);
                    assert(first_idx(ent@.children, subtree_pred(p)) == i as int);
                    assert forall|j: int|
                        0 <= j < e.children@.len() implies forest_view(e.children@)[j]
                        == sattach_forest(ent@.children, p, c@)[j] by {
                        assert(sattach_forest(ent@.children, p, c@) == ent@.children.update(
                            i as int,
                            sattach_ent(ent@.children[i as int], p, c@),
                        ));
                        if j != i {
                            assert(e.children@[j] == prevc[j]);
                        } else {
                            assert(e.children@[j] == sub2);
                            assert(forest_view(e.children@)[j] == (e.children@[j])@);
                        }
                    }
                    assert(forest_view(e.children@) =~= sattach_forest(ent@.children, p, c@));
                    assert(e@ == sattach_ent(ent@, p, c@));
                    assert forall|j: int|
                        0 <= j < e@.children.len() implies (#[trigger] e@.children[j]).wf()
                        && e@.children[j].parent_id == e@.id by {
                        if j != i {
                            assert(e@.children[j] == ent@.children[j]);
                        }
                    }
                }
                e
            },
            None => {
                proof {
                    lemma_forest_contains_first_idx(ent@.children, p);
                    assert(false);
                }
                e
            },
        }
    }
}

// ---------------------------------------------------------------------------
// executable detach and destroy
// ---------------------------------------------------------------------------

/// Detach the child with handle `c` from the first entity with handle `p`
/// inside the subtree rooted at `ent`, which must hold `p`.  The removed
/// child, its parent reference cleared, is handed back.
pub fn detach_ent(ent: Entity, p: u64, c: u64) -> (r: (Entity, Option<Entity>))
    requires
        ent@.wf(),
        ent_contains(ent@, p),
    ensures
        r.0@ == sdetach_ent(ent@, p, c).0,
        r.0@.wf(),
        match r.1 {
            Some(cc) => sdetach_ent(ent@, p, c).1 == Some(cc@) && cc@.wf() && cc@.parent_id == 0,
            None => sdetach_ent(ent@, p, c).1 is None,
        },
    decreases ent,
{
    let mut e = ent;
    if e.id == p {
        match find_child_idx(&e.children, c) {
            Some(i) => {
                let ghost prevc = e.children@;
                proof {
                    lemma_forest_view(prevc);
                    assert(ent@.children[i as int].wf());
                }
                let mut ch = e.children.remove(i);
                ch.parent_id = 0;
                proof {
                    lemma_forest_view(e.children@);
                    assert forall|j: int|
                        0 <= j < e.children@.len() implies forest_view(e.children@)[j] == ent@
                        .children.remove(i as int)[j] by {
                        if j < i {
                            assert(e.children@[j] == prevc[j]);
                        } else {
                            assert(e.children@[j] == prevc[j + 1]);
                        }
                    }
                    assert(forest_view(e.children@) =~= ent@.children.remove(i as int));
                    assert(ch@ == EntityV { parent_id: 0, ..ent@.children[i as int] });
                }
                (e, Some(ch))
            },
            None => (e, None),
        }
    } else {
        match find_subtree_idx(&e.children, p) {
            Some(i) => {
                let ghost prevc = e.children@;
                let ghost csv = forest_view(prevc);
                proof {
                    lemma_forest_view(prevc);
                    assert(csv[i as int] == (prevc[i as int])@);
                    assert(ent@.children[i as int].wf());
                    assert(csv == ent@.children);
                }
                let sub = e.children.remove(i);
                proof {
                    assert(sub == prevc[i as int]);
                    assert(decreases_to!(ent => ent.children));
                    assert(decreases_to!(ent.children => ent.children@));
                    assert(decreases_to!(ent.children@ => ent.children@[i as int]));
                    assert(decreases_to!(ent => sub));
                    lemma_first_idx(csv, subtree_pred(p));
                    assert(ent_contains(sub@, p));
                }
                let rr = detach_ent(sub, p, c);
                let (sub2, removed) = rr;
                e.children.insert(i, sub2);
                proof {
                    assert(e.children@ =~= prevc.update(i as int, sub2));
                    lemma_forest_view(e.children@);
                    assert(first_idx(ent@.children, subtree_pred(p)) == i as int);
                    assert forall|j: int|
                        0 <= j < e.children@.len() implies forest_view(e.children@)[j]
                        == sdetach_forest(ent@.children, p, c).0[j] by {
                        assert(sdetach_forest(ent@.children, p, c).0 == ent@.children.update(
                            i as int,
                            sdetach_ent(ent@.children[i as int], p, c).0,
                        ));
                        if j != i {
                            assert(e.children@[j] == prevc[j]);
                        } else {
                            assert(e.children@[j] == sub2);
                            assert(forest_view(e.children@)[j] == (e.children@[j])@);
                        }
                    }
                    assert(forest_view(e.children@) =~= sdetach_forest(ent@.children, p, c).0);
                    assert(e@ == sdetach_ent(ent@, p, c).0);
                    assert forall|j: int|
                        0 <= j < e@.children.len() implies (#[trigger] e@.children[j]).wf()
                        && e@.children[j].parent_id == e@.id by {
                        if j != i {
                            assert(e@.children[j] == ent@.children[j]);
                        }
                    }
                }
                (e, removed)
            },
            None => {
                proof {
                    lemma_forest_contains_first_idx(ent@.children, p);
                    assert(false);
                }
                (e, None)
            },
        }
    }
}

/// Destroy the first entity with handle `h` strictly below `ent` (`ent`
/// itself does not carry `h`): the pruned subtree and the removed entity.
pub fn destroy_in_ent(ent: Entity, h: u64) -> (r: (Entity, Entity))
    requires
        ent@.wf(),
        ent@.id != h,
        forest_contains(ent@.children, h),
    ensures
        r.0@ == (EntityV { children: sdestroy_forest(ent@.children, h).0, ..ent@ }),
        r.0@.wf(),
        r.1@ == sfind_forest(ent@.children, h),
        r.1@.wf(),
    decreases ent,
{
    let mut e = ent;
    match find_subtree_idx(&e.children, h) {
        Some(i) => {
            let ghost prevc = e.children@;
            let ghost csv = forest_view(prevc);
            proof {
                lemma_forest_view(prevc);
                assert(csv[i as int] == (prevc[i as int])@);
                assert(ent@.children[i as int].wf());
                assert(csv == ent@.children);
                lemma_first_idx(csv, subtree_pred(h));
            }
            if e.children[i].id == h {
                let removed = e.children.remove(i);
                proof {
                    lemma_forest_view(e.children@);
                    assert forall|j: int|
                        0 <= j < e.children@.len() implies forest_view(e.children@)[j] == ent@
                        .children.remove(i as int)[j] by {
                        if j < i {
                            assert(e.children@[j] == prevc[j]);
                        } else {
                            assert(e.children@[j] == prevc[j + 1]);
                        }
                    }
                    assert(forest_view(e.children@) =~= ent@.children.remove(i as int));
                    assert(removed@ == ent@.children[i as int]);
                    assert(sfind_ent(ent@.children[i as int], h) == ent@.children[i as int]);
                }
                (e, removed)
            } else {
                let sub = e.children.remove(i);
                proof {
                    assert(sub == prevc[i as int]);
                    assert(decreases_to!(ent => ent.children));
                    assert(decreases_to!(ent.children => ent.children@));
                    assert(decreases_to!(ent.children@ => ent.children@[i as int]));
                    assert(decreases_to!(ent => sub));
                    assert(ent_contains(sub@, h));
                    assert(sub@.id != h);
                    assert(forest_contains(sub@.children, h));
                }
                let rr = destroy_in_ent(sub, h);
                let (sub2, removed) = rr;
                e.children.insert(i, sub2);
                proof {
                    assert(e.children@ =~= prevc.update(i as int, sub2));
                    lemma_forest_view(e.children@);
                    assert(first_idx(ent@.children, subtree_pred(h)) == i as int);
                    assert forall|j: int|
                        0 <= j < e.children@.len() implies forest_view(e.children@)[j]
                        == sdestroy_forest(ent@.children, h).0[j] by {
                        assert(sdestroy_forest(ent@.children, h).0 == ent@.children.update(
                            i as int,
                            EntityV {
                                children: sdestroy_forest(ent@.children[i as int].children, h).0,
                                ..ent@.children[i as int]
                            },
                        ));
                        if j != i {
                            assert(e.children@[j] == prevc[j]);
                        } else {
                            assert(e.children@[j] == sub2);
                            assert(forest_view(e.children@)[j] == (e.children@[j])@);
                        }
                    }
                    assert(forest_view(e.children@) =~= sdestroy_forest(ent@.children, h).0);
                    assert forall|j: int|
                        0 <= j < e@.children.len() implies (#[trigger] e@.children[j]).wf()
                        && e@.children[j].parent_id == e@.id by {
                        if j != i {
                            assert(e@.children[j] == ent@.children[j]);
                        }
                    }
                    assert(sfind_forest(ent@.children, h) == sfind_ent(
                        ent@.children[i as int],
                        h,
                    ));
                }
                (e, removed)
            }
        },
        None => {
            proof {
                lemma_forest_contains_first_idx(ent@.children, h);
                assert(false);
            }
            let dummy = Entity {
                id: 1,
                name: String::new(),
                instance_id: 0,
                parent_id: 0,
                children: Vec::new(),
                components: Components::new(),
            };
            (e, dummy)
        },
    }
}

// ---------------------------------------------------------------------------
// executable component operations through the tree
// ---------------------------------------------------------------------------

/// Dispatch one component operation to a components collection.
fn apply_comp_op(cs: &mut Components, op: &CompOp) -> (r: bool)
    requires
        old(cs)@.wf(),
        op.wf(),
    ensures
        final(cs)@ == sapply_comps(old(cs)@, op@).0,
        r == sapply_comps(old(cs)@, op@).1,
{
    match op {
        CompOp::Create(k, id) => cs.create_component(*k, *id),
        CompOp::Remove(cid) => cs.remove_component(*cid),
        CompOp::Premul(cid, m) => cs.transform_local(*cid, m),
    }
}

/// Apply `op` to the components of the first entity with handle `h`
/// inside the subtree rooted at `ent`, which must hold `h`.
pub fn apply_op_ent(ent: Entity, h: u64, op: &CompOp) -> (r: (Entity, bool))
    requires
        ent@.wf(),
        ent_contains(ent@, h),
        op.wf(),
    ensures
        r.0@ == sapply_ent(ent@, h, op@),
        r.0@.wf(),
        r.1 == sapply_comps(sfind_ent(ent@, h).components, op@).1,
    decreases ent,
{
    let mut e = ent;
    if e.id == h {
        let ok = apply_comp_op(&mut e.components, op);
        proof {
            lemma_sapply_comps_wf(ent@.components, op@);
            assert(e@ == sapply_ent(ent@, h, op@));
        }
        (e, ok)
    } else {
        match find_subtree_idx(&e.children, h) {
            Some(i) => {
                let ghost prevc = e.children@;
                let ghost csv = forest_view(prevc);
                proof {
                    lemma_forest_view(prevc);
                    assert(csv[i as int] == (prevc[i as int])@);
                    assert(ent@.children[i as int].wf());
                    assert(csv == ent@.children);
                }
                let sub = e.children.remove(i);
                proof {
                    assert(sub == prevc[i as int]);
                    assert(decreases_to!(ent => ent.children));
                    assert(decreases_to!(ent.children => ent.children@));
                    assert(decreases_to!(ent.children@ => ent.children@[i as int]));
                    assert(decreases_to!(ent => sub));
                    lemma_first_idx(csv, subtree_pred(h));
                    assert(ent_contains(sub@, h));
                }
                let rr = apply_op_ent(sub, h, op);
                let (sub2, ok) = rr;
                e.children.insert(i, sub2);
                proof {
                    assert(e.children@ =~= prevc.update(i as int, sub2));
                    lemma_forest_view(e.children@);
                    assert(first_idx(ent@.children, subtree_pred(h)) == i as int);
                    assert forall|j: int|
                        0 <= j < e.children@.len() implies forest_view(e.children@)[j]
                        == sapply_forest(ent@.children, h, op@)[j] by {
                        assert(sapply_forest(ent@.children, h, op@) == ent@.children.update(
                            i as int,
                            sapply_ent(ent@.children[i as int], h, op@),
                        ));
                        if j != i {
                            assert(e.children@[j] == prevc[j]);
                        } else {
                            assert(e.children@[j] == sub2);
                            assert(forest_view(e.children@)[j] == (e.children@[j])@);
                        }
                    }
                    assert(forest_view(e.children@) =~= sapply_forest(ent@.children, h, op@));
                    assert(e@ == sapply_ent(ent@, h, op@));
                    assert forall|j: int|
                        0 <= j < e@.children.len() implies (#[trigger] e@.children[j]).wf()
                        && e@.children[j].parent_id == e@.id by {
                        if j != i {
                            assert(e@.children[j] == ent@.children[j]);
                        }
                    }
                    assert(sfind_ent(ent@, h) == sfind_ent(ent@.children[i as int], h));
                }
                (e, ok)
            },
            None => {
                proof {
                    lemma_forest_contains_first_idx(ent@.children, h);
                    assert(false);
                }
                (e, false)
            },
        }
    }
}

// ---------------------------------------------------------------------------
// finding the entity that owns a component
// ---------------------------------------------------------------------------

/// Does the subtree rooted at `e` hold a component with handle `cid`?
pub open spec fn ent_has_comp(e: EntityV, cid: u64) -> bool
    decreases e,
{
    comps_has_cid(e.components, cid) || forest_has_comp(e.children, cid)
}

/// Does any subtree of the forest hold a component with handle `cid`?
pub open spec fn forest_has_comp(s: Seq<EntityV>, cid: u64) -> bool
    decreases s,
{
    if s.len() == 0 {
        false
    } else {
        ent_has_comp(s[0], cid) || forest_has_comp(s.drop_first(), cid)
    }
}

/// The handle of the first entity, in depth-first order, whose components
/// hold `cid`; 0 when none does.
pub open spec fn sowner_ent(e: EntityV, cid: u64) -> u64
    decreases e,
{
    if comps_has_cid(e.components, cid) {
        e.id
    } else {
        sowner_forest(e.children, cid)
    }
}

/// The owning entity's handle over a forest; 0 when absent.
pub open spec fn sowner_forest(s: Seq<EntityV>, cid: u64) -> u64
    decreases s,
{
    if s.len() == 0 {
        0
    } else if ent_has_comp(s[0], cid) {
        sowner_ent(s[0], cid)
    } else {
        sowner_forest(s.drop_first(), cid)
    }
}

/// When the subtrees before `i` miss `cid` and subtree `i` holds it, the
/// owner over the forest is the owner within subtree `i`.
proof fn lemma_sowner_prefix(s: Seq<EntityV>, i: int, cid: u64)
    requires
        0 <= i < s.len(),
        ent_has_comp(s[i], cid),
        forall|j: int| 0 <= j < i ==> !ent_has_comp(#[trigger] s[j], cid),
    ensures
        forest_has_comp(s, cid),
        sowner_forest(s, cid) == sowner_ent(s[i], cid),
    decreases s.len(),
{
    if i > 0 {
        assert(forall|j: int| 0 <= j < s.len() - 1 ==> #[trigger] s.drop_first()[j] == s[j + 1]);
        lemma_sowner_prefix(s.drop_first(), i - 1, cid);
    }
}

/// When no subtree holds `cid`, neither does the forest.
proof fn lemma_sowner_none(s: Seq<EntityV>, cid: u64)
    requires
        forall|j: int| 0 <= j < s.len() ==> !ent_has_comp(#[trigger] s[j], cid),
    ensures
        !forest_has_comp(s, cid),
        sowner_forest(s, cid) == 0,
    decreases s.len(),
{
    if s.len() > 0 {
        assert(forall|j: int| 0 <= j < s.len() - 1 ==> #[trigger] s.drop_first()[j] == s[j + 1]);
        lemma_sowner_none(s.drop_first(), cid);
    }
}

/// Find the handle of the first entity of the forest owning the component
/// with handle `cid`.
pub fn find_owner(ents: &Vec<Entity>, cid: u64) -> (r: (bool, u64))
    ensures
        r.0 == forest_has_comp(forest_view(ents@), cid),
        r.1 == sowner_forest(forest_view(ents@), cid),
    decreases ents@,
{
    let ghost sv = forest_view(ents@);
    proof {
        lemma_forest_view(ents@);
    }
    let mut i: usize = 0;
    while i < ents.len()
        invariant
            i <= ents@.len(),
            sv == forest_view(ents@),
            sv.len() == ents@.len(),
            forall|j: int| 0 <= j < i ==> !ent_has_comp(#[trigger] sv[j], cid),
        decreases ents@.len() - i,
    {
        proof {
            lemma_forest_view(ents@);
            assert(sv[i as int] == (ents@[i as int])@);
            assert(decreases_to!(ents@ => ents@[i as int]));
        }
        let e = &ents[i];
        if e.components.has_cid(cid) {
            proof {
                lemma_sowner_prefix(sv, i as int, cid);
            }
            return (true, e.id);
        }
        let rr = find_owner(&e.children, cid);
        if rr.0 {
            proof {
                lemma_sowner_prefix(sv, i as int, cid);
            }
            return (true, rr.1);
        }
        proof {
            assert(!ent_has_comp(sv[i as int], cid));
        }
        i = i + 1;
    }
    proof {
        lemma_sowner_none(sv, cid);
    }
    (false, 0)
}

// ---------------------------------------------------------------------------
// drop notifications
// ---------------------------------------------------------------------------

/// One host-visible drop notification: the class name of the destroyed
/// object and its runtime handle.
pub struct DropNote {
    pub class: String,
    pub id: u64,
}

/// View of a drop notification.
pub struct NoteV {
    pub class: Seq<char>,
    pub id: u64,
}

impl View for DropNote {
    type V = NoteV;

    open spec fn view(&self) -> NoteV {
        NoteV { class: self.class@, id: self.id }
    }
}

/// The notification a destroyed component emits.
pub open spec fn snote_comp(c: CompV) -> NoteV {
    match c.kind() {
        ComponentKind::Transform => NoteV { class: "TransformComponent"@, id: c.cid() },
        ComponentKind::Render => NoteV { class: "RenderComponent"@, id: c.cid() },
    }
}

/// The notifications a destroyed components collection emits: the
/// singleton partition first, then the multiplicity partition.
pub open spec fn snotes_comps(cs: ComponentsV) -> Seq<NoteV> {
    cs.uniq.map(|i: int, c: CompV| snote_comp(c)) + cs.multi.map(|i: int, c: CompV| snote_comp(c))
}

/// The notifications a destroyed subtree emits, depth first: the entity,
/// its components, then its children.
pub open spec fn snotes_ent(e: EntityV) -> Seq<NoteV>
    decreases e,
{
    seq![NoteV { class: "Entity"@, id: e.id }] + snotes_comps(e.components) + snotes_forest(
        e.children,
    )
}

/// The notifications a destroyed forest emits.
pub open spec fn snotes_forest(s: Seq<EntityV>) -> Seq<NoteV>
    decreases s,
{
    if s.len() == 0 {
        Seq::empty()
    } else {
        snotes_ent(s[0]) + snotes_forest(s.drop_first())
    }
}

/// The views of collected notes.
pub open spec fn notes_view(s: Seq<DropNote>) -> Seq<NoteV> {
    s.map(|i: int, n: DropNote| n@)
}

/// Append the drop notifications of the destroyed subtree `e` to `notes`.
pub fn push_notes(ent: Entity, notes: &mut Vec<DropNote>)
    ensures
        notes_view(final(notes)@) == notes_view(old(notes)@) + snotes_ent(ent@),
    decreases ent,
{
    let ghost n0 = notes@;
    let mut e = ent;
    notes.push(DropNote { class: String::from_str("Entity"), id: e.id });
    proof {
        assert(notes_view(notes@) =~= notes_view(n0) + seq![
            NoteV { class: "Entity"@, id: ent@.id },
        ]);
    }
    push_comp_notes(&e.components.uniq_comp, notes);
    push_comp_notes(&e.components.multi_comp, notes);
    let ghost n2 = notes@;
    let ghost chv = forest_view(ent.children@);
    proof {
        lemma_forest_view(ent.children@);
        assert(notes_view(n2) =~= notes_view(n0) + seq![
            NoteV { class: "Entity"@, id: ent@.id },
        ] + snotes_comps(ent@.components));
    }
    let n_children = e.children.len();
    let mut k: usize = 0;
    while e.children.len() > 0
        invariant
            n_children == ent.children@.len(),
            k <= n_children,
            k + e.children@.len() == n_children,
            chv == forest_view(ent.children@),
            chv.len() == ent.children@.len(),
            e.children@ =~= ent.children@.subrange(k as int, ent.children@.len() as int),
            notes_view(notes@) =~= notes_view(n2) + snotes_prefix(chv, k as int),
            forall|j: int| 0 <= j < chv.len() ==> chv[j] == (#[trigger] ent.children@[j])@,
        decreases e.children@.len(),
    {
        let ghost prevc = e.children@;
        let c = e.children.remove(0);
        proof {
            assert(c == ent.children@[k as int]);
            assert(decreases_to!(ent => ent.children));
            assert(decreases_to!(ent.children => ent.children@));
            assert(decreases_to!(ent.children@ => ent.children@[k as int]));
            assert(decreases_to!(ent => c));
            assert(c@ == chv[k as int]);
        }
        push_notes(c, notes);
        proof {
            assert(snotes_prefix(chv, k + 1 as int) =~= snotes_prefix(chv, k as int)
                + snotes_ent(chv[k as int]));
            assert(e.children@ =~= ent.children@.subrange(
                k + 1 as int,
                ent.children@.len() as int,
            ));
        }
        k = k + 1;
    }
    proof {
        lemma_snotes_prefix_all(chv);
        assert(notes_view(notes@) =~= notes_view(n0) + snotes_ent(ent@));
    }
}

/// Append the drop notifications of a sequence of destroyed components.
fn push_comp_notes(comps: &Vec<Component>, notes: &mut Vec<DropNote>)
    ensures
        notes_view(final(notes)@) == notes_view(old(notes)@) + comps_view(comps@).map(
            |i: int, c: CompV| snote_comp(c),
        ),
{
    let ghost n0 = notes@;
    let ghost cv = comps_view(comps@);
    let ghost f = |j: int, c2: CompV| snote_comp(c2);
    let mut i: usize = 0;
    while i < comps.len()
        invariant
            i <= comps@.len(),
            cv == comps_view(comps@),
            f == (|j: int, c2: CompV| snote_comp(c2)),
            cv.len() == comps@.len(),
            notes_view(notes@) =~= notes_view(n0) + cv.map(f).take(i as int),
        decreases comps@.len() - i,
    {
        let ghost prevn = notes@;
        let c = &comps[i];
        match c {
            Component::Transform(t) => {
                notes.push(DropNote { class: String::from_str("TransformComponent"), id: t.id });
            },
            Component::Render(r) => {
                notes.push(DropNote { class: String::from_str("RenderComponent"), id: r.id });
            },
        }
        proof {
            assert(cv[i as int] == (comps@[i as int])@);
            assert(notes@.last()@ == snote_comp(cv[i as int]));
            assert(notes@ =~= prevn.push(notes@.last()));
            assert(cv.map(f).take(i + 1 as int) =~= cv.map(f).take(i as int).push(
                snote_comp(cv[i as int]),
            ));
            assert(notes_view(notes@) =~= notes_view(prevn).push(snote_comp(cv[i as int])));
            assert(notes_view(notes@) =~= notes_view(n0) + cv.map(f).take(i + 1 as int));
        }
        i = i + 1;
    }
    proof {
        assert(cv.map(f).take(cv.len() as int) =~= cv.map(f));
    }
}

/// The notifications of the first `n` subtrees of a forest.
pub open spec fn snotes_prefix(s: Seq<EntityV>, n: int) -> Seq<NoteV>
    decreases n,
{
    if n <= 0 {
        Seq::empty()
    } else {
        snotes_prefix(s, n - 1) + snotes_ent(s[n - 1])
    }
}

/// Over the whole forest, the prefix notes are the forest notes.
proof fn lemma_snotes_prefix_all(s: Seq<EntityV>)
    ensures
        snotes_prefix(s, s.len() as int) == snotes_forest(s),
    decreases s.len(),
{
    lemma_snotes_prefix_shift(s, s.len() as int);
    assert(s.take(s.len() as int) =~= s);
}

/// Prefix notes agree with the cons-style forest notes.
proof fn lemma_snotes_prefix_shift(s: Seq<EntityV>, n: int)
    requires
        0 <= n <= s.len(),
    ensures
        snotes_forest(s.take(n)) == snotes_prefix(s, n),
    decreases n,
{
    if n > 0 {
        lemma_snotes_prefix_shift(s, n - 1);
        lemma_snotes_forest_push(s.take(n - 1), s[n - 1]);
        assert(s.take(n) =~= s.take(n - 1).push(s[n - 1]));
    }
    if n == s.len() {
        assert(s.take(n) =~= s);
    }
}

/// Forest notes over a sequence with one subtree appended.
proof fn lemma_snotes_forest_push(s: Seq<EntityV>, e: EntityV)
    ensures
        snotes_forest(s.push(e)) == snotes_forest(s) + snotes_ent(e),
    decreases s.len(),
{
    if s.len() == 0 {
        assert(s.push(e)[0] == e);
        assert(s.push(e).drop_first() =~= s);
        assert(snotes_forest(s.push(e)) =~= snotes_ent(e));
        assert(snotes_forest(s) + snotes_ent(e) =~= snotes_ent(e));
    } else {
        assert(s.push(e)[0] == s[0]);
        assert(s.push(e).drop_first() =~= s.drop_first().push(e));
        lemma_snotes_forest_push(s.drop_first(), e);
        assert(snotes_forest(s.push(e)) =~= snotes_forest(s) + snotes_ent(e));
    }
}

// ---------------------------------------------------------------------------
// view algebra
// ---------------------------------------------------------------------------

/// Views commute with removal.
pub proof fn lemma_forest_view_remove(s: Seq<Entity>, i: int)
    requires
        0 <= i < s.len(),
    ensures
        forest_view(s.remove(i)) =~= forest_view(s).remove(i),
{
    lemma_forest_view(s);
    lemma_forest_view(s.remove(i));
    assert forall|j: int|
        0 <= j < s.remove(i).len() implies forest_view(s.remove(i))[j] == forest_view(s).remove(
        i,
    )[j] by {
        assert(forest_view(s.remove(i))[j] == (s.remove(i)[j])@);
        if j < i {
            assert(s.remove(i)[j] == s[j]);
        } else {
            assert(s.remove(i)[j] == s[j + 1]);
        }
    }
}

/// Views commute with insertion.
pub proof fn lemma_forest_view_insert(s: Seq<Entity>, i: int, e: Entity)
    requires
        0 <= i <= s.len(),
    ensures
        forest_view(s.insert(i, e)) =~= forest_view(s).insert(i, e@),
{
    lemma_forest_view(s);
    lemma_forest_view(s.insert(i, e));
    assert forall|j: int|
        0 <= j < s.insert(i, e).len() implies forest_view(s.insert(i, e))[j] == forest_view(
        s,
    ).insert(i, e@)[j] by {
        assert(forest_view(s.insert(i, e))[j] == (s.insert(i, e)[j])@);
        if j < i {
            assert(s.insert(i, e)[j] == s[j]);
        } else if j == i {
            assert(s.insert(i, e)[j] == e);
        } else {
            assert(s.insert(i, e)[j] == s[j - 1]);
        }
    }
}

/// Views commute with update.
pub proof fn lemma_forest_view_update(s: Seq<Entity>, i: int, e: Entity)
    requires
        0 <= i < s.len(),
    ensures
        forest_view(s.update(i, e)) =~= forest_view(s).update(i, e@),
{
    lemma_forest_view(s);
    lemma_forest_view(s.update(i, e));
    assert forall|j: int|
        0 <= j < s.update(i, e).len() implies forest_view(s.update(i, e))[j] == forest_view(
        s,
    ).update(i, e@)[j] by {
        assert(forest_view(s.update(i, e))[j] == (s.update(i, e)[j])@);
        if j != i {
            assert(s.update(i, e)[j] == s[j]);
        } else {
            assert(s.update(i, e)[j] == e);
        }
    }
}

/// Views commute with push.
pub proof fn lemma_forest_view_push(s: Seq<Entity>, e: Entity)
    ensures
        forest_view(s.push(e)) =~= forest_view(s).push(e@),
{
    lemma_forest_view(s);
    lemma_forest_view(s.push(e));
    assert forall|j: int|
        0 <= j < s.push(e).len() implies forest_view(s.push(e))[j] == forest_view(s).push(e@)[j]
        by {
        assert(forest_view(s.push(e))[j] == (s.push(e)[j])@);
        if j < s.len() {
            assert(s.push(e)[j] == s[j]);
        } else {
            assert(s.push(e)[j] == e);
        }
    }
}

/// The owning entity named by `sowner_forest` really is in the forest.
pub proof fn lemma_sowner_contains(s: Seq<EntityV>, cid: u64)
    requires
        forest_has_comp(s, cid),
    ensures
        forest_contains(s, sowner_forest(s, cid)),
    decreases s,
{
    if s.len() > 0 {
        if ent_has_comp(s[0], cid) {
            lemma_sowner_ent_contains(s[0], cid);
        } else {
            lemma_sowner_contains(s.drop_first(), cid);
        }
    }
}

/// Within one subtree: the owner handle names an entity of that subtree.
pub proof fn lemma_sowner_ent_contains(e: EntityV, cid: u64)
    requires
        ent_has_comp(e, cid),
    ensures
        ent_contains(e, sowner_ent(e, cid)),
    decreases e,
{
    if comps_has_cid(e.components, cid) {
    } else {
        lemma_sowner_contains(e.children, cid);
    }
}

/// The parent handle of the first entity with handle `h`, or 0 when the
/// forest does not hold `h`.
pub fn find_parent_of(ents: &Vec<Entity>, h: u64) -> (r: u64)
    ensures
        forest_contains(forest_view(ents@), h) ==> r == sfind_forest(
            forest_view(ents@),
            h,
        ).parent_id,
        !forest_contains(forest_view(ents@), h) ==> r == 0,
    decreases ents@,
{
    let ghost sv = forest_view(ents@);
    let ghost p = subtree_pred(h);
    proof {
        lemma_forest_view(ents@);
    }
    let mut i: usize = 0;
    while i < ents.len()
        invariant
            i <= ents@.len(),
            sv == forest_view(ents@),
            p == subtree_pred(h),
            sv.len() == ents@.len(),
            forall|j: int| 0 <= j < i ==> !p(#[trigger] sv[j]),
        decreases ents@.len() - i,
    {
        proof {
            lemma_forest_view(ents@);
            assert(sv[i as int] == (ents@[i as int])@);
            assert(decreases_to!(ents@ => ents@[i as int]));
        }
        let e = &ents[i];
        if e.id == h {
            proof {
                lemma_first_idx_is(sv, p, i as int);
                lemma_forest_contains_first_idx(sv, h);
                assert(sfind_forest(sv, h) == sfind_ent(sv[i as int], h));
            }
            return e.parent_id;
        }
        let has = forest_has(&e.children, h);
        if has {
            proof {
                lemma_first_idx_is(sv, p, i as int);
                lemma_forest_contains_first_idx(sv, h);
                assert(sfind_forest(sv, h) == sfind_ent(sv[i as int], h));
            }
            let r = find_parent_of(&e.children, h);
            return r;
        }
        proof {
            assert(!ent_contains(sv[i as int], h));
        }
        i = i + 1;
    }
    proof {
        lemma_first_idx_none(sv, p);
        lemma_forest_contains_first_idx(sv, h);
    }
    0
}

impl Entity {
    /// Does this entity have a parent?
    pub fn has_parent(&self) -> (b: bool)
        ensures
            b == (self@.parent_id != 0),
    {
        self.parent_id != 0
    }
}

/// A detach that found no child changes nothing.
pub proof fn lemma_sdetach_none_ent(e: EntityV, p: u64, c: u64)
    requires
        sdetach_ent(e, p, c).1 is None,
    ensures
        sdetach_ent(e, p, c).0 == e,
    decreases e,
{
    if e.id == p {
    } else {
        lemma_sdetach_none_forest(e.children, p, c);
        assert(sdetach_ent(e, p, c).0.children == e.children);
    }
}

/// A detach that found no child changes nothing, over a forest.
pub proof fn lemma_sdetach_none_forest(s: Seq<EntityV>, p: u64, c: u64)
    requires
        sdetach_forest(s, p, c).1 is None,
    ensures
        sdetach_forest(s, p, c).0 == s,
    decreases s,
{
    let i = first_idx(s, subtree_pred(p));
    lemma_first_idx(s, subtree_pred(p));
    if i >= 0 {
        lemma_sdetach_none_ent(s[i], p, c);
        assert(sdetach_forest(s, p, c).0 =~= s);
    }
}

// ---------------------------------------------------------------------------
// handle occurrence counting
// ---------------------------------------------------------------------------

/// How many entities of the subtree carry handle `h`.
pub open spec fn count_id_ent(e: EntityV, h: u64) -> nat
    decreases e,
{
    (if e.id == h {
        1nat
    } else {
        0nat
    }) + count_id_forest(e.children, h)
}

/// How many entities of the forest carry handle `h`.
pub open spec fn count_id_forest(s: Seq<EntityV>, h: u64) -> nat
    decreases s,
{
    if s.len() == 0 {
        0
    } else {
        count_id_ent(s[0], h) + count_id_forest(s.drop_first(), h)
    }
}

/// Counting over a forest with one subtree appended.
pub proof fn lemma_count_id_push(s: Seq<EntityV>, e: EntityV, h: u64)
    ensures
        count_id_forest(s.push(e), h) == count_id_forest(s, h) + count_id_ent(e, h),
    decreases s.len(),
{
    if s.len() == 0 {
        assert(s.push(e)[0] == e);
        assert(s.push(e).drop_first() =~= s);
    } else {
        assert(s.push(e)[0] == s[0]);
        assert(s.push(e).drop_first() =~= s.drop_first().push(e));
        lemma_count_id_push(s.drop_first(), e, h);
    }
}

/// Counting over a forest with one subtree removed.
pub proof fn lemma_count_id_remove(s: Seq<EntityV>, i: int, h: u64)
    requires
        0 <= i < s.len(),
    ensures
        count_id_forest(s.remove(i), h) + count_id_ent(s[i], h) == count_id_forest(s, h),
    decreases s.len(),
{
    if i == 0 {
        assert(s.remove(0) =~= s.drop_first());
    } else {
        assert(s.remove(i)[0] == s[0]);
        assert(s.remove(i).drop_first() =~= s.drop_first().remove(i - 1));
        assert(s.drop_first()[i - 1] == s[i]);
        lemma_count_id_remove(s.drop_first(), i - 1, h);
    }
}

/// Counting over a forest with one subtree replaced.
pub proof fn lemma_count_id_update(s: Seq<EntityV>, i: int, x: EntityV, h: u64)
    requires
        0 <= i < s.len(),
    ensures
        count_id_forest(s.update(i, x), h) + count_id_ent(s[i], h) == count_id_forest(s, h)
            + count_id_ent(x, h),
    decreases s.len(),
{
    if i == 0 {
        assert(s.update(0, x)[0] == x);
        assert(s.update(0, x).drop_first() =~= s.drop_first());
    } else {
        assert(s.update(i, x)[0] == s[0]);
        assert(s.update(i, x).drop_first() =~= s.drop_first().update(i - 1, x));
        assert(s.drop_first()[i - 1] == s[i]);
        lemma_count_id_update(s.drop_first(), i - 1, x, h);
    }
}

/// An entity carrying `h` is present exactly when the count is positive.
pub proof fn lemma_count_contains_ent(e: EntityV, h: u64)
    ensures
        ent_contains(e, h) <==> count_id_ent(e, h) >= 1,
    decreases e,
{
    lemma_count_contains_forest(e.children, h);
}

/// An entity carrying `h` is present exactly when the count is positive.
pub proof fn lemma_count_contains_forest(s: Seq<EntityV>, h: u64)
    ensures
        forest_contains(s, h) <==> count_id_forest(s, h) >= 1,
    decreases s,
{
    if s.len() > 0 {
        lemma_count_contains_ent(s[0], h);
        lemma_count_contains_forest(s.drop_first(), h);
    }
}

/// Attaching adds exactly the attached subtree's occurrences, and only
/// when the addressed parent is present.
pub proof fn lemma_count_sattach_ent(e: EntityV, p: u64, c: EntityV, h: u64)
    ensures
        count_id_ent(sattach_ent(e, p, c), h) == count_id_ent(e, h) + (if ent_contains(e, p) {
            count_id_ent(c, h)
        } else {
            0nat
        }),
    decreases e,
{
    if e.id == p {
        lemma_count_id_push(e.children, c, h);
    } else {
        lemma_count_sattach_forest(e.children, p, c, h);
    }
}

/// Attaching over a forest, counted.
pub proof fn lemma_count_sattach_forest(s: Seq<EntityV>, p: u64, c: EntityV, h: u64)
    ensures
        count_id_forest(sattach_forest(s, p, c), h) == count_id_forest(s, h) + (
        if forest_contains(s, p) {
            count_id_ent(c, h)
        } else {
            0nat
        }),
    decreases s,
{
    let i = first_idx(s, subtree_pred(p));
    lemma_first_idx(s, subtree_pred(p));
    lemma_forest_contains_first_idx(s, p);
    if i >= 0 {
        lemma_count_id_update(s, i, sattach_ent(s[i], p, c), h);
        lemma_count_sattach_ent(s[i], p, c, h);
        assert(ent_contains(s[i], p));
    }
}

/// Detaching splits the occurrences between the pruned subtree and the
/// removed child.
pub proof fn lemma_count_sdetach_ent(e: EntityV, p: u64, c: u64, h: u64)
    ensures
        ({
            let r = sdetach_ent(e, p, c);
            match r.1 {
                Some(cv) => count_id_ent(r.0, h) + count_id_ent(cv, h) == count_id_ent(e, h),
                None => count_id_ent(r.0, h) == count_id_ent(e, h),
            }
        }),
    decreases e,
{
    if e.id == p {
        let i = first_idx(e.children, eid_pred(c));
        lemma_first_idx(e.children, eid_pred(c));
        if i >= 0 {
            lemma_count_id_remove(e.children, i, h);
            assert(count_id_ent((EntityV { parent_id: 0, ..e.children[i] }), h)
                == count_id_ent(e.children[i], h));
        }
    } else {
        lemma_count_sdetach_forest(e.children, p, c, h);
    }
}

/// Detaching over a forest, counted.
pub proof fn lemma_count_sdetach_forest(s: Seq<EntityV>, p: u64, c: u64, h: u64)
    ensures
        ({
            let r = sdetach_forest(s, p, c);
            match r.1 {
                Some(cv) => count_id_forest(r.0, h) + count_id_ent(cv, h) == count_id_forest(
                    s,
                    h,
                ),
                None => count_id_forest(r.0, h) == count_id_forest(s, h),
            }
        }),
    decreases s,
{
    let i = first_idx(s, subtree_pred(p));
    lemma_first_idx(s, subtree_pred(p));
    if i >= 0 {
        let r = sdetach_ent(s[i], p, c);
        lemma_count_id_update(s, i, r.0, h);
        lemma_count_sdetach_ent(s[i], p, c, h);
    }
}

/// Destroying removes exactly the destroyed subtree's occurrences.
pub proof fn lemma_count_sdestroy_forest(s: Seq<EntityV>, tgt: u64, h: u64)
    ensures
        ({
            let r = sdestroy_forest(s, tgt);
            if r.1 {
                count_id_forest(r.0, h) + count_id_ent(sfind_forest(s, tgt), h)
                    == count_id_forest(s, h)
            } else {
                count_id_forest(r.0, h) == count_id_forest(s, h)
            }
        }),
    decreases s,
{
    let i = first_idx(s, subtree_pred(tgt));
    lemma_first_idx(s, subtree_pred(tgt));
    if i >= 0 {
        if s[i].id == tgt {
            lemma_count_id_remove(s, i, h);
            assert(sfind_ent(s[i], tgt) == s[i]);
        } else {
            let pruned = (EntityV { children: sdestroy_forest(s[i].children, tgt).0, ..s[i] });
            lemma_count_id_update(s, i, pruned, h);
            lemma_count_sdestroy_forest(s[i].children, tgt, h);
            assert(forest_contains(s[i].children, tgt));
            assert(sdestroy_forest(s[i].children, tgt).1) by {
                lemma_forest_contains_first_idx(s[i].children, tgt);
                lemma_first_idx(s[i].children, subtree_pred(tgt));
            }
            assert(sfind_ent(s[i], tgt) == sfind_forest(s[i].children, tgt));
        }
    }
}

/// A component operation never changes which handles occur where.
pub proof fn lemma_count_sapply_ent(e: EntityV, tgt: u64, op: CompOpV, h: u64)
    ensures
        count_id_ent(sapply_ent(e, tgt, op), h) == count_id_ent(e, h),
    decreases e,
{
    if e.id == tgt {
    } else {
        lemma_count_sapply_forest(e.children, tgt, op, h);
    }
}

/// A component operation over a forest, counted.
pub proof fn lemma_count_sapply_forest(s: Seq<EntityV>, tgt: u64, op: CompOpV, h: u64)
    ensures
        count_id_forest(sapply_forest(s, tgt, op), h) == count_id_forest(s, h),
    decreases s,
{
    let i = first_idx(s, subtree_pred(tgt));
    lemma_first_idx(s, subtree_pred(tgt));
    if i >= 0 {
        lemma_count_id_update(s, i, sapply_ent(s[i], tgt, op), h);
        lemma_count_sapply_ent(s[i], tgt, op, h);
    }
}

/// A tick never changes which handles occur where.
pub proof fn lemma_count_stick_ent(e: EntityV, anc: Option<ComponentsV>, h: u64)
    ensures
        count_id_ent(stick_ent(e, anc), h) == count_id_ent(e, h),
    decreases e,
{
    let cs2 = stick_comps(e.components, anc);
    lemma_count_stick_forest(e.children, cs2, h);
}

/// A tick over a forest, counted.
pub proof fn lemma_count_stick_forest(s: Seq<EntityV>, parent: ComponentsV, h: u64)
    ensures
        count_id_forest(stick_forest(s, parent), h) == count_id_forest(s, h),
    decreases s,
{
    if s.len() > 0 {
        assert(stick_forest(s, parent) == seq![stick_ent(s[0], Some(parent))] + stick_forest(
            s.drop_first(),
            parent,
        ));
        assert(stick_forest(s, parent)[0] == stick_ent(s[0], Some(parent)));
        assert(stick_forest(s, parent).drop_first() =~= stick_forest(s.drop_first(), parent));
        lemma_count_stick_ent(s[0], Some(parent), h);
        lemma_count_stick_forest(s.drop_first(), parent, h);
    }
}

/// When no entity of the forest carries `h`, none of its subtrees does.
pub proof fn lemma_count_zero_not_contains(s: Seq<EntityV>, h: u64)
    requires
        count_id_forest(s, h) == 0,
    ensures
        !forest_contains(s, h),
        forall|j: int| 0 <= j < s.len() ==> !ent_contains(#[trigger] s[j], h),
{
    lemma_count_contains_forest(s, h);
    assert forall|j: int| 0 <= j < s.len() implies !ent_contains(#[trigger] s[j], h) by {
        lemma_count_id_remove(s, j, h);
        lemma_count_contains_ent(s[j], h);
    }
}

/// Attaching a subtree whose root carries a handle found nowhere else:
/// afterwards, the first entity found under that handle is exactly the
/// attached subtree's root.
pub proof fn lemma_sfind_attach_ent(e: EntityV, p: u64, c: EntityV, h: u64)
    requires
        count_id_ent(e, h) == 0,
        ent_contains(e, p),
        c.id == h,
    ensures
        ent_contains(sattach_ent(e, p, c), h),
        sfind_ent(sattach_ent(e, p, c), h) == sfind_ent(c, h),
    decreases e,
{
    assert(e.id != h);
    if e.id == p {
        let after = e.children.push(c);
        lemma_count_zero_not_contains(e.children, h);
        assert(ent_contains(c, h));
        assert forall|j: int|
            0 <= j < e.children.len() implies !subtree_pred(h)(#[trigger] after[j]) by {
            assert(after[j] == e.children[j]);
        }
        assert(subtree_pred(h)(after[e.children.len() as int]));
        crate::component::lemma_first_idx_is(after, subtree_pred(h), e.children.len() as int);
        assert(sfind_forest(after, h) == sfind_ent(c, h));
        lemma_forest_contains_first_idx(after, h);
    } else {
        lemma_sfind_attach_forest(e.children, p, c, h);
    }
}

/// The forest form of [`lemma_sfind_attach_ent`].
pub proof fn lemma_sfind_attach_forest(s: Seq<EntityV>, p: u64, c: EntityV, h: u64)
    requires
        count_id_forest(s, h) == 0,
        forest_contains(s, p),
        c.id == h,
    ensures
        forest_contains(sattach_forest(s, p, c), h),
        sfind_forest(sattach_forest(s, p, c), h) == sfind_ent(c, h),
    decreases s,
{
    let i = first_idx(s, subtree_pred(p));
    lemma_forest_contains_first_idx(s, p);
    lemma_first_idx(s, subtree_pred(p));
    let after = s.update(i, sattach_ent(s[i], p, c));
    lemma_count_zero_not_contains(s, h);
    assert(count_id_ent(s[i], h) == 0) by {
        lemma_count_id_remove(s, i, h);
    }
    lemma_sfind_attach_ent(s[i], p, c, h);
    assert forall|j: int| 0 <= j < i implies !subtree_pred(h)(#[trigger] after[j]) by {
        assert(after[j] == s[j]);
    }
    assert(subtree_pred(h)(after[i]));
    crate::component::lemma_first_idx_is(after, subtree_pred(h), i);
    lemma_forest_contains_first_idx(after, h);
}

} // verus!
