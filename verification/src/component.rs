//! Components: polymorphic behavior/data attachments owned by exactly one
//! entity.
//!
//! Concrete kinds are the variants of [`Component`]; every kind declares
//! whether an entity may hold at most one instance of it ("singleton").
//! A [`Components`] collection keeps two partitions: singleton instances,
//! at most one per kind, and an ordered sequence for kinds that allow
//! multiplicity.
//!
//! Every executable type has a mathematical view (`CompV`, `ComponentsV`)
//! over sequences and plain values; the collection operations are specified
//! as functional transitions on those views, and the singleton-enforcement
//! law is proved about the `screate` transition.

use vstd::prelude::*;

verus! {

use crate::mat::{Mat4, mat_mul, sident, smat_mul};

/// 128-bit type identifier of the transform component kind.
pub const TRANSFORM_TYPE_UUID: u128 = 0xbd122d2f_cc3e_4d99_8bf2_ba1b23015e46;

/// 128-bit type identifier of the render component kind.
pub const RENDER_TYPE_UUID: u128 = 0xf8128f7a_685e_4436_a831_3a2adab3b0dc;

/// 128-bit type identifier of the entity aggregate itself.
pub const ENTITY_TYPE_UUID: u128 = 0x1d9f39bc_ed1b_4868_8475_67b8d3caf88c;

/// The concrete component kinds the runtime knows.
#[derive(PartialEq, Eq, Structural, Clone, Copy, Debug)]
pub enum ComponentKind {
    Transform,
    Render,
}

/// Whether a kind is singleton-per-entity.  Both present kinds are.
pub open spec fn kind_is_singleton(k: ComponentKind) -> bool {
    match k {
        ComponentKind::Transform => true,
        ComponentKind::Render => true,
    }
}

impl ComponentKind {
    /// Executable form of [`kind_is_singleton`].
    pub fn is_uniq(&self) -> (b: bool)
        ensures
            b == kind_is_singleton(*self),
    {
        match self {
            ComponentKind::Transform => true,
            ComponentKind::Render => true,
        }
    }

    /// The persisted 128-bit identifier of this kind.
    pub open spec fn spec_type_uuid(self) -> u128 {
        match self {
            ComponentKind::Transform => TRANSFORM_TYPE_UUID,
            ComponentKind::Render => RENDER_TYPE_UUID,
        }
    }

    pub fn type_uuid(&self) -> (r: u128)
        ensures
            r == self.spec_type_uuid(),
    {
        match self {
            ComponentKind::Transform => TRANSFORM_TYPE_UUID,
            ComponentKind::Render => RENDER_TYPE_UUID,
        }
    }
}

// ---------------------------------------------------------------------------
// executable component types
// ---------------------------------------------------------------------------

/// A reference to an external resource, persisted by path alone; the host
/// resolves the path to loaded data outside the object model.
pub struct ExtRes {
    pub path: String,
}

/// The one fully specified concrete kind: a local transform and the world
/// transform derived from it on every tick.
pub struct TransformComponent {
    /// Runtime handle of this instance; never persisted.
    pub id: u64,
    pub local_matrix: Mat4,
    pub world_matrix: Mat4,
}

/// A renderable attachment: references to mesh and skeleton resources.
pub struct RenderComponent {
    /// Runtime handle of this instance; never persisted.
    pub id: u64,
    pub object: ExtRes,
    pub skeleton: ExtRes,
}

/// A polymorphic component value.
pub enum Component {
    Transform(TransformComponent),
    Render(RenderComponent),
}

/// The components of one entity, split into the singleton partition (at
/// most one instance per singleton kind) and the multiplicity partition.
pub struct Components {
    pub uniq_comp: Vec<Component>,
    pub multi_comp: Vec<Component>,
}

// ---------------------------------------------------------------------------
// views
// ---------------------------------------------------------------------------

/// View of a transform component.
pub struct TransformV {
    pub id: u64,
    pub local: Seq<i64>,
    pub world: Seq<i64>,
}

/// View of a render component.
pub struct RenderV {
    pub id: u64,
    pub object: Seq<char>,
    pub skeleton: Seq<char>,
}

/// View of a polymorphic component.
pub enum CompV {
    Transform(TransformV),
    Render(RenderV),
}

/// View of a components collection.
pub struct ComponentsV {
    pub uniq: Seq<CompV>,
    pub multi: Seq<CompV>,
}

impl CompV {
    pub open spec fn kind(self) -> ComponentKind {
        match self {
            CompV::Transform(_) => ComponentKind::Transform,
            CompV::Render(_) => ComponentKind::Render,
        }
    }

    pub open spec fn cid(self) -> u64 {
        match self {
            CompV::Transform(t) => t.id,
            CompV::Render(r) => r.id,
        }
    }

    pub open spec fn wf(self) -> bool {
        match self {
            CompV::Transform(t) => t.local.len() == 16 && t.world.len() == 16,
            CompV::Render(_) => true,
        }
    }

    /// The default instance of `kind` carrying runtime handle `id`: what the
    /// type registry's zero-argument constructor produces.
    pub open spec fn default_of(kind: ComponentKind, id: u64) -> CompV {
        match kind {
            ComponentKind::Transform => CompV::Transform(
                TransformV { id, local: sident(), world: sident() },
            ),
            ComponentKind::Render => CompV::Render(
                RenderV { id, object: Seq::empty(), skeleton: Seq::empty() },
            ),
        }
    }
}

impl View for Component {
    type V = CompV;

    open spec fn view(&self) -> CompV {
        match self {
            Component::Transform(t) => CompV::Transform(
                TransformV { id: t.id, local: t.local_matrix.m@, world: t.world_matrix.m@ },
            ),
            Component::Render(r) => CompV::Render(
                RenderV { id: r.id, object: r.object.path@, skeleton: r.skeleton.path@ },
            ),
        }
    }
}

impl Component {
    pub open spec fn kind(self) -> ComponentKind {
        self@.kind()
    }

    pub fn get_kind(&self) -> (k: ComponentKind)
        ensures
            k == self@.kind(),
    {
        match self {
            Component::Transform(_) => ComponentKind::Transform,
            Component::Render(_) => ComponentKind::Render,
        }
    }

    pub fn get_cid(&self) -> (r: u64)
        ensures
            r == self@.cid(),
    {
        match self {
            Component::Transform(t) => t.id,
            Component::Render(r) => r.id,
        }
    }

    /// The zero-argument constructor of `kind`, with runtime handle `id`.
    pub fn default_of(kind: ComponentKind, id: u64) -> (r: Component)
        ensures
            r@ == CompV::default_of(kind, id),
            r@.wf(),
    {
        match kind {
            ComponentKind::Transform => Component::Transform(
                TransformComponent {
                    id,
                    local_matrix: Mat4::identity(),
                    world_matrix: Mat4::identity(),
                },
            ),
            ComponentKind::Render => {
                let r = Component::Render(
                    RenderComponent {
                        id,
                        object: ExtRes { path: String::new() },
                        skeleton: ExtRes { path: String::new() },
                    },
                );
                assert(r@.wf());
                assert(r@ == CompV::default_of(kind, id)) by {
                    assert(r@->Render_0.object =~= Seq::<char>::empty());
                    assert(r@->Render_0.skeleton =~= Seq::<char>::empty());
                }
                r
            },
        }
    }
}

/// The views of a sequence of components.
pub open spec fn comps_view(s: Seq<Component>) -> Seq<CompV> {
    s.map(|i: int, c: Component| c@)
}

impl View for Components {
    type V = ComponentsV;

    open spec fn view(&self) -> ComponentsV {
        ComponentsV { uniq: comps_view(self.uniq_comp@), multi: comps_view(self.multi_comp@) }
    }
}

impl ComponentsV {
    pub open spec fn empty() -> ComponentsV {
        ComponentsV { uniq: Seq::empty(), multi: Seq::empty() }
    }

    /// Well-formedness: singleton kinds appear at most once, each partition
    /// holds only instances of the fitting kinds, and each instance is well
    /// formed.
    pub open spec fn wf(self) -> bool {
        &&& forall|i: int| 0 <= i < self.uniq.len() ==> (#[trigger] self.uniq[i]).wf()
        &&& forall|i: int| 0 <= i < self.multi.len() ==> (#[trigger] self.multi[i]).wf()
        &&& forall|i: int|
            0 <= i < self.uniq.len() ==> kind_is_singleton(#[trigger] self.uniq[i].kind())
        &&& forall|i: int|
            0 <= i < self.multi.len() ==> !kind_is_singleton(#[trigger] self.multi[i].kind())
        &&& forall|i: int, j: int|
            0 <= i < j < self.uniq.len() ==> #[trigger] self.uniq[i].kind() != #[trigger] self.uniq[j].kind()
    }
}

// ---------------------------------------------------------------------------
// first-index combinator
// ---------------------------------------------------------------------------

/// The predicate "has kind `k`".
pub open spec fn kind_pred(k: ComponentKind) -> spec_fn(CompV) -> bool {
    |c: CompV| c.kind() == k
}

/// The predicate "has runtime handle `cid`".
pub open spec fn cid_pred(cid: u64) -> spec_fn(CompV) -> bool {
    |c: CompV| c.cid() == cid
}

/// Index of the first element satisfying `p`, or -1 when none does.
pub open spec fn first_idx<A>(s: Seq<A>, p: spec_fn(A) -> bool) -> int
    decreases s.len(),
{
    if s.len() == 0 {
        -1
    } else if p(s[0]) {
        0
    } else {
        let r = first_idx(s.drop_first(), p);
        if r < 0 {
            -1
        } else {
            r + 1
        }
    }
}

/// The characteristic properties of [`first_idx`].
pub proof fn lemma_first_idx<A>(s: Seq<A>, p: spec_fn(A) -> bool)
    ensures
        first_idx(s, p) >= 0 ==> 0 <= first_idx(s, p) < s.len() && p(s[first_idx(s, p)])
            && (forall|j: int| 0 <= j < first_idx(s, p) ==> !p(#[trigger] s[j])),
        first_idx(s, p) < 0 ==> (forall|j: int| 0 <= j < s.len() ==> !p(#[trigger] s[j])),
    decreases s.len(),
{
    if s.len() == 0 {
    } else if p(s[0]) {
    } else {
        let t = s.drop_first();
        let r = first_idx(t, p);
        lemma_first_idx(t, p);
        assert(forall|j: int| 0 <= j < s.len() - 1 ==> #[trigger] t[j] == s[j + 1]);
        if r >= 0 {
            assert(first_idx(s, p) == r + 1);
            assert(p(s[r + 1]));
            assert forall|j: int| 0 <= j < r + 1 implies !p(#[trigger] s[j]) by {
                if j > 0 {
                    assert(t[j - 1] == s[j]);
                }
            }
        } else {
            assert forall|j: int| 0 <= j < s.len() implies !p(#[trigger] s[j]) by {
                if j > 0 {
                    assert(t[j - 1] == s[j]);
                }
            }
        }
    }
}

/// When element `i` satisfies `p` and nothing before it does, `i` is the
/// first index.
pub proof fn lemma_first_idx_is<A>(s: Seq<A>, p: spec_fn(A) -> bool, i: int)
    requires
        0 <= i < s.len(),
        p(s[i]),
        forall|j: int| 0 <= j < i ==> !p(#[trigger] s[j]),
    ensures
        first_idx(s, p) == i,
{
    lemma_first_idx(s, p);
    let f = first_idx(s, p);
    if f < 0 {
        assert(!p(s[i]));
    } else if f < i {
        assert(!p(s[f]));
    } else if f > i {
        assert(!p(s[i]));
    }
}

/// When nothing satisfies `p`, there is no first index.
pub proof fn lemma_first_idx_none<A>(s: Seq<A>, p: spec_fn(A) -> bool)
    requires
        forall|j: int| 0 <= j < s.len() ==> !p(#[trigger] s[j]),
    ensures
        first_idx(s, p) < 0,
{
    lemma_first_idx(s, p);
    if first_idx(s, p) >= 0 {
        assert(!p(s[first_idx(s, p)]));
    }
}

/// How many elements of `s` have kind `k`.
pub open spec fn count_kind(s: Seq<CompV>, k: ComponentKind) -> nat
    decreases s.len(),
{
    if s.len() == 0 {
        0
    } else {
        (if s[0].kind() == k {
            1nat
        } else {
            0nat
        }) + count_kind(s.drop_first(), k)
    }
}

proof fn lemma_count_kind_none(s: Seq<CompV>, k: ComponentKind)
    requires
        forall|j: int| 0 <= j < s.len() ==> (#[trigger] s[j]).kind() != k,
    ensures
        count_kind(s, k) == 0,
    decreases s.len(),
{
    if s.len() > 0 {
        assert(forall|j: int| 0 <= j < s.len() - 1 ==> #[trigger] s.drop_first()[j] == s[j + 1]);
        lemma_count_kind_none(s.drop_first(), k);
    }
}

proof fn lemma_count_kind_push(s: Seq<CompV>, k: ComponentKind, c: CompV)
    ensures
        count_kind(s.push(c), k) == count_kind(s, k) + (if c.kind() == k {
            1nat
        } else {
            0nat
        }),
    decreases s.len(),
{
    if s.len() == 0 {
        assert(s.push(c).drop_first() =~= s);
    } else {
        assert(s.push(c).drop_first() =~= s.drop_first().push(c));
        lemma_count_kind_push(s.drop_first(), k, c);
    }
}

// ---------------------------------------------------------------------------
// transitions on views
// ---------------------------------------------------------------------------

/// Does the collection already hold an instance of `k` in the partition in
/// which `k` lives?
pub open spec fn has_kind(cs: ComponentsV, k: ComponentKind) -> bool {
    if kind_is_singleton(k) {
        first_idx(cs.uniq, kind_pred(k)) >= 0
    } else {
        first_idx(cs.multi, kind_pred(k)) >= 0
    }
}

/// Creating a component of kind `k` with fresh runtime handle `id`:
/// fails, changing nothing, when `k` is singleton and already present;
/// otherwise appends the default instance to the fitting partition.
pub open spec fn screate(cs: ComponentsV, k: ComponentKind, id: u64) -> (ComponentsV, bool) {
    if kind_is_singleton(k) {
        if has_kind(cs, k) {
            (cs, false)
        } else {
            (ComponentsV { uniq: cs.uniq.push(CompV::default_of(k, id)), ..cs }, true)
        }
    } else {
        (ComponentsV { multi: cs.multi.push(CompV::default_of(k, id)), ..cs }, true)
    }
}

/// Removing the component with runtime handle `cid`: fails when no
/// partition holds it, else deletes the first occurrence.
pub open spec fn sremove(cs: ComponentsV, cid: u64) -> (ComponentsV, bool) {
    let iu = first_idx(cs.uniq, cid_pred(cid));
    let im = first_idx(cs.multi, cid_pred(cid));
    if iu >= 0 {
        (ComponentsV { uniq: cs.uniq.remove(iu), ..cs }, true)
    } else if im >= 0 {
        (ComponentsV { multi: cs.multi.remove(im), ..cs }, true)
    } else {
        (cs, false)
    }
}

/// Looking a component up by kind: singleton kinds are found in the
/// singleton partition, others by scanning the multiplicity partition.
pub open spec fn sget_kind(cs: ComponentsV, k: ComponentKind) -> Option<CompV> {
    if kind_is_singleton(k) {
        let i = first_idx(cs.uniq, kind_pred(k));
        if i >= 0 {
            Some(cs.uniq[i])
        } else {
            None
        }
    } else {
        let i = first_idx(cs.multi, kind_pred(k));
        if i >= 0 {
            Some(cs.multi[i])
        } else {
            None
        }
    }
}

/// The world matrix an ancestor contributes: the world matrix of its
/// transform component, when it has one.
pub open spec fn anc_world(anc: Option<ComponentsV>) -> Option<Seq<i64>> {
    match anc {
        None => None,
        Some(a) => match sget_kind(a, ComponentKind::Transform) {
            Some(CompV::Transform(t)) => Some(t.world),
            _ => None,
        },
    }
}

/// One tick of a single component: a transform recomputes its world matrix
/// as (ancestor world) × (local), or the local matrix alone when no
/// ancestor transform exists; other kinds are unchanged.
pub open spec fn stick_comp(c: CompV, anc: Option<ComponentsV>) -> CompV {
    match c {
        CompV::Transform(t) => CompV::Transform(
            TransformV {
                world: match anc_world(anc) {
                    Some(w) => smat_mul(w, t.local),
                    None => t.local,
                },
                ..t
            },
        ),
        CompV::Render(r) => CompV::Render(r),
    }
}

/// One tick of a whole collection: every singleton component, then every
/// multiplicity component.
pub open spec fn stick_comps(cs: ComponentsV, anc: Option<ComponentsV>) -> ComponentsV {
    ComponentsV {
        uniq: cs.uniq.map(|i: int, c: CompV| stick_comp(c, anc)),
        multi: cs.multi.map(|i: int, c: CompV| stick_comp(c, anc)),
    }
}

/// Applying `op` to the transform component with handle `cid`: fails when
/// `cid` does not name a transform component of this collection; otherwise
/// premultiplies the local matrix by the operation matrix `m`.
pub open spec fn stransform_local(cs: ComponentsV, cid: u64, m: Seq<i64>) -> (ComponentsV, bool) {
    let iu = first_idx(cs.uniq, cid_pred(cid));
    if iu >= 0 {
        match cs.uniq[iu] {
            CompV::Transform(t) => (
                ComponentsV {
                    uniq: cs.uniq.update(
                        iu,
                        CompV::Transform(TransformV { local: smat_mul(m, t.local), ..t }),
                    ),
                    ..cs
                },
                true,
            ),
            _ => (cs, false),
        }
    } else {
        (cs, false)
    }
}

// ---------------------------------------------------------------------------
// laws about the transitions
// ---------------------------------------------------------------------------

/// Singleton enforcement: once creating a singleton kind has succeeded, a
/// second creation of the same kind fails, changes nothing, and the
/// collection holds exactly one instance of the kind.
pub proof fn lemma_singleton_enforcement(
    cs: ComponentsV,
    k: ComponentKind,
    id1: u64,
    id2: u64,
)
    requires
        kind_is_singleton(k),
        screate(cs, k, id1).1,
    ensures
        screate(screate(cs, k, id1).0, k, id2).1 == false,
        screate(screate(cs, k, id1).0, k, id2).0 == screate(cs, k, id1).0,
        count_kind(screate(cs, k, id1).0.uniq, k) == 1,
{
    let p = kind_pred(k);
    let cs1 = screate(cs, k, id1).0;
    lemma_first_idx(cs.uniq, p);
    assert(count_kind(cs.uniq, k) == 0) by {
        lemma_count_kind_none(cs.uniq, k);
    }
    lemma_count_kind_push(cs.uniq, k, CompV::default_of(k, id1));
    assert(CompV::default_of(k, id1).kind() == k);
    assert(cs1.uniq[cs.uniq.len() as int] == CompV::default_of(k, id1));
    assert(p(cs1.uniq[cs.uniq.len() as int]));
    lemma_first_idx(cs1.uniq, p);
    assert(first_idx(cs1.uniq, p) >= 0) by {
        if first_idx(cs1.uniq, p) < 0 {
            assert(!p(cs1.uniq[cs.uniq.len() as int]));
        }
    }
    assert(has_kind(cs1, k));
}

/// Creation preserves well-formedness.
pub proof fn lemma_screate_wf(cs: ComponentsV, k: ComponentKind, id: u64)
    requires
        cs.wf(),
    ensures
        screate(cs, k, id).0.wf(),
{
    let p = kind_pred(k);
    if kind_is_singleton(k) && !has_kind(cs, k) {
        lemma_first_idx(cs.uniq, p);
        let cs1 = screate(cs, k, id).0;
        assert(forall|i: int|
            0 <= i < cs.uniq.len() ==> cs1.uniq[i] == #[trigger] cs.uniq[i]);
        assert(cs1.uniq.last() == CompV::default_of(k, id));
        assert(CompV::default_of(k, id).wf());
    }
}

/// Removal preserves well-formedness.
pub proof fn lemma_sremove_wf(cs: ComponentsV, cid: u64)
    requires
        cs.wf(),
    ensures
        sremove(cs, cid).0.wf(),
{
    let pu = cid_pred(cid);
    let iu = first_idx(cs.uniq, pu);
    let im = first_idx(cs.multi, pu);
    lemma_first_idx(cs.uniq, pu);
    lemma_first_idx(cs.multi, pu);
    if iu >= 0 {
        let s2 = cs.uniq.remove(iu);
        assert(forall|j: int|
            0 <= j < s2.len() ==> #[trigger] s2[j] == (if j < iu {
                cs.uniq[j]
            } else {
                cs.uniq[j + 1]
            }));
    } else if im >= 0 {
        let s2 = cs.multi.remove(im);
        assert(forall|j: int|
            0 <= j < s2.len() ==> #[trigger] s2[j] == (if j < im {
                cs.multi[j]
            } else {
                cs.multi[j + 1]
            }));
    }
}

// ---------------------------------------------------------------------------
// executable operations
// ---------------------------------------------------------------------------

impl Components {
    pub fn new() -> (r: Components)
        ensures
            r@ == ComponentsV::empty(),
            r@.wf(),
    {
        let r = Components { uniq_comp: Vec::new(), multi_comp: Vec::new() };
        assert(r@.uniq =~= Seq::<CompV>::empty());
        assert(r@.multi =~= Seq::<CompV>::empty());
        r
    }

    /// Find the index of the first component of kind `k` in the singleton
    /// partition.
    fn find_uniq_kind(&self, k: ComponentKind) -> (r: Option<usize>)
        ensures
            ({
                let i = first_idx(self@.uniq, kind_pred(k));
                match r {
                    Some(idx) => i == idx && 0 <= i < self@.uniq.len(),
                    None => i < 0,
                }
            }),
    {
        let ghost p = kind_pred(k);
        proof {
            lemma_first_idx(self@.uniq, p);
        }
        let mut i: usize = 0;
        while i < self.uniq_comp.len()
            invariant
                i <= self.uniq_comp@.len(),
                self@.uniq.len() == self.uniq_comp@.len(),
                forall|j: int| 0 <= j < i ==> !p(#[trigger] self@.uniq[j]),
                p == kind_pred(k),
            decreases self.uniq_comp@.len() - i,
        {
            let kk = self.uniq_comp[i].get_kind();
            if kk == k {
                proof {
                    lemma_first_idx(self@.uniq, p);
                    if first_idx(self@.uniq, p) != i {
                        assert(p(self@.uniq[i as int]));
                    }
                }
                return Some(i);
            }
            assert(!p(self@.uniq[i as int]));
            i = i + 1;
        }
        proof {
            lemma_first_idx(self@.uniq, p);
            if first_idx(self@.uniq, p) >= 0 {
                assert(p(self@.uniq[first_idx(self@.uniq, p)]));
            }
        }
        None
    }

    /// Create a default component of kind `k` with fresh runtime handle
    /// `id`; reports whether it was inserted (it is not when `k` is a
    /// singleton kind already present).
    pub fn create_component(&mut self, k: ComponentKind, id: u64) -> (r: bool)
        ensures
            final(self)@ == screate(old(self)@, k, id).0,
            r == screate(old(self)@, k, id).1,
    {
        if k.is_uniq() {
            match self.find_uniq_kind(k) {
                Some(_) => false,
                None => {
                    self.uniq_comp.push(Component::default_of(k, id));
                    assert(self@.uniq =~= screate(old(self)@, k, id).0.uniq);
                    true
                },
            }
        } else {
            self.multi_comp.push(Component::default_of(k, id));
            assert(self@.multi =~= screate(old(self)@, k, id).0.multi);
            true
        }
    }

    /// Find the index of the first component with runtime handle `cid` in
    /// the given partition (false = singleton, true = multiplicity).
    fn find_cid(v: &Vec<Component>, cid: u64) -> (r: Option<usize>)
        ensures
            ({
                let i = first_idx(comps_view(v@), cid_pred(cid));
                match r {
                    Some(idx) => i == idx && 0 <= i < v@.len(),
                    None => i < 0,
                }
            }),
    {
        let ghost p = cid_pred(cid);
        let mut i: usize = 0;
        while i < v.len()
            invariant
                i <= v@.len(),
                forall|j: int| 0 <= j < i ==> !p(#[trigger] comps_view(v@)[j]),
                p == cid_pred(cid),
            decreases v@.len() - i,
        {
            let cc = v[i].get_cid();
            if cc == cid {
                proof {
                    lemma_first_idx(comps_view(v@), p);
                    if first_idx(comps_view(v@), p) != i {
                        assert(p(comps_view(v@)[i as int]));
                    }
                }
                return Some(i);
            }
            assert(!p(comps_view(v@)[i as int]));
            i = i + 1;
        }
        proof {
            lemma_first_idx(comps_view(v@), p);
            if first_idx(comps_view(v@), p) >= 0 {
                assert(p(comps_view(v@)[first_idx(comps_view(v@), p)]));
            }
        }
        None
    }

    /// Remove the component with runtime handle `cid`; reports whether a
    /// component of this collection was removed.
    pub fn remove_component(&mut self, cid: u64) -> (r: bool)
        ensures
            final(self)@ == sremove(old(self)@, cid).0,
            r == sremove(old(self)@, cid).1,
    {
        match Components::find_cid(&self.uniq_comp, cid) {
            Some(i) => {
                self.uniq_comp.remove(i);
                assert(self@.uniq =~= sremove(old(self)@, cid).0.uniq);
                true
            },
            None => {
                match Components::find_cid(&self.multi_comp, cid) {
                    Some(i) => {
                        self.multi_comp.remove(i);
                        assert(self@.multi =~= sremove(old(self)@, cid).0.multi);
                        true
                    },
                    None => false,
                }
            },
        }
    }

    /// Look up the component of kind `k`, as [`sget_kind`] describes.
    pub fn get_component(&self, k: ComponentKind) -> (r: Option<&Component>)
        ensures
            match r {
                Some(c) => sget_kind(self@, k) == Some(c@),
                None => sget_kind(self@, k) is None,
            },
    {
        if k.is_uniq() {
            match self.find_uniq_kind(k) {
                Some(i) => Some(&self.uniq_comp[i]),
                None => None,
            }
        } else {
            let ghost p = kind_pred(k);
            let mut i: usize = 0;
            while i < self.multi_comp.len()
                invariant
                    !kind_is_singleton(k),
                    i <= self.multi_comp@.len(),
                    self@.multi.len() == self.multi_comp@.len(),
                    forall|j: int| 0 <= j < i ==> !p(#[trigger] self@.multi[j]),
                    p == kind_pred(k),
                decreases self.multi_comp@.len() - i,
            {
                let kk = self.multi_comp[i].get_kind();
                if kk == k {
                    proof {
                        assert(self@.multi[i as int] == self.multi_comp@[i as int]@);
                        lemma_first_idx_is(self@.multi, p, i as int);
                        assert(first_idx(self@.multi, p) == i as int);
                        assert(sget_kind(self@, k) == Some(self@.multi[i as int]));
                    }
                    return Some(&self.multi_comp[i]);
                }
                assert(!p(self@.multi[i as int]));
                i = i + 1;
            }
            proof {
                lemma_first_idx_none(self@.multi, p);
            }
            None
        }
    }

    /// Premultiply the local matrix of the transform component with handle
    /// `cid` by `m`, as [`stransform_local`] describes.
    pub fn transform_local(&mut self, cid: u64, m: &Mat4) -> (r: bool)
        requires
            m.wf(),
            old(self)@.wf(),
        ensures
            final(self)@ == stransform_local(old(self)@, cid, m.m@).0,
            r == stransform_local(old(self)@, cid, m.m@).1,
    {
        match Components::find_cid(&self.uniq_comp, cid) {
            Some(i) => {
                assert(self.uniq_comp@[i as int]@ == self@.uniq[i as int]);
                assert(self@.uniq[i as int].wf());
                let c = self.uniq_comp.remove(i);
                assert(c@ == old(self)@.uniq[i as int]);
                match c {
                    Component::Transform(t) => {
                        assert(t.local_matrix.wf());
                        let nl = mat_mul(m, &t.local_matrix);
                        let nc = Component::Transform(
                            TransformComponent {
                                id: t.id,
                                local_matrix: nl,
                                world_matrix: t.world_matrix,
                            },
                        );
                        self.uniq_comp.insert(i, nc);
                        assert(self.uniq_comp@ =~= old(self).uniq_comp@.update(i as int, nc));
                        assert(self@.uniq =~= stransform_local(old(self)@, cid, m.m@).0.uniq);
                        true
                    },
                    Component::Render(q) => {
                        self.uniq_comp.insert(i, Component::Render(q));
                        assert(self.uniq_comp@ =~= old(self).uniq_comp@);
                        assert(self@.uniq =~= old(self)@.uniq);
                        false
                    },
                }
            },
            None => false,
        }
    }

    /// The world matrix of this collection's transform component, when it
    /// has one.
    pub fn transform_world(&self) -> (r: Option<Mat4>)
        requires
            self@.wf(),
        ensures
            match r {
                Some(w) => anc_world(Some(self@)) == Some(w.m@) && w.wf(),
                None => anc_world(Some(self@)) is None,
            },
    {
        let ghost p = kind_pred(ComponentKind::Transform);
        match self.get_component(ComponentKind::Transform) {
            Some(c) => match c {
                Component::Transform(t) => {
                    proof {
                        lemma_first_idx(self@.uniq, p);
                        assert(c@ == self@.uniq[first_idx(self@.uniq, p)]);
                        assert(c@.wf());
                    }
                    Some(t.world_matrix.duplicate())
                },
                Component::Render(_) => {
                    proof {
                        lemma_first_idx(self@.uniq, p);
                        assert(c@.kind() == ComponentKind::Transform);
                        assert(false);
                    }
                    None
                },
            },
            None => None,
        }
    }

    /// One tick of every component: the singleton partition first, then the
    /// multiplicity partition, as [`stick_comps`] describes.
    pub fn tick(&mut self, anc: Option<&Components>)
        requires
            old(self)@.wf(),
            match anc {
                Some(a) => a@.wf(),
                None => true,
            },
        ensures
            final(self)@ == stick_comps(old(self)@, match anc {
                Some(a) => Some(a@),
                None => None,
            }),
    {
        let ghost av = match anc {
            Some(a) => Some(a@),
            None => None,
        };
        let aw: Option<Mat4> = match anc {
            Some(a) => a.transform_world(),
            None => None,
        };
        proof {
            match &aw {
                Some(w) => {
                    assert(anc_world(av) == Some(w.m@));
                },
                None => {
                    assert(anc_world(av) is None);
                },
            }
        }
        let mut i: usize = 0;
        while i < self.uniq_comp.len()
            invariant
                i <= self.uniq_comp@.len(),
                self.uniq_comp@.len() == old(self)@.uniq.len(),
                self.multi_comp@ == old(self).multi_comp@,
                old(self)@.wf(),
                match aw {
                    Some(w) => anc_world(av) == Some(w.m@) && w.wf(),
                    None => anc_world(av) is None,
                },
                forall|j: int|
                    0 <= j < i ==> self@.uniq[j] == stick_comp(#[trigger] old(self)@.uniq[j], av),
                forall|j: int| i <= j < self@.uniq.len() ==> self@.uniq[j] == #[trigger] old(
                    self,
                )@.uniq[j],
            decreases self.uniq_comp@.len() - i,
        {
            let ghost prev = self.uniq_comp@;
            assert(self.uniq_comp@[i as int]@ == self@.uniq[i as int]);
            let c = self.uniq_comp.remove(i);
            assert(c@ == old(self)@.uniq[i as int]);
            assert(c@.wf());
            let nc = tick_one(c, &aw);
            self.uniq_comp.insert(i, nc);
            assert(self.uniq_comp@ =~= prev.update(i as int, nc));
            assert(forall|j: int|
                0 <= j < self@.uniq.len() && j != i ==> self@.uniq[j] == comps_view(prev)[j]);
            assert(self@.uniq[i as int] == nc@);
            i = i + 1;
        }
        let mut i2: usize = 0;
        while i2 < self.multi_comp.len()
            invariant
                i2 <= self.multi_comp@.len(),
                self.multi_comp@.len() == old(self)@.multi.len(),
                self@.uniq =~= stick_comps(old(self)@, av).uniq,
                old(self)@.wf(),
                match aw {
                    Some(w) => anc_world(av) == Some(w.m@) && w.wf(),
                    None => anc_world(av) is None,
                },
                forall|j: int|
                    0 <= j < i2 ==> self@.multi[j] == stick_comp(
                        #[trigger] old(self)@.multi[j],
                        av,
                    ),
                forall|j: int| i2 <= j < self@.multi.len() ==> self@.multi[j] == #[trigger] old(
                    self,
                )@.multi[j],
            decreases self.multi_comp@.len() - i2,
        {
            let ghost prev = self.multi_comp@;
            assert(self.multi_comp@[i2 as int]@ == self@.multi[i2 as int]);
            let c = self.multi_comp.remove(i2);
            assert(c@ == old(self)@.multi[i2 as int]);
            assert(c@.wf());
            let nc = tick_one(c, &aw);
            self.multi_comp.insert(i2, nc);
            assert(self.multi_comp@ =~= prev.update(i2 as int, nc));
            assert(forall|j: int|
                0 <= j < self@.multi.len() && j != i2 ==> self@.multi[j] == comps_view(prev)[j]);
            assert(self@.multi[i2 as int] == nc@);
            i2 = i2 + 1;
        }
        assert(self@.uniq =~= stick_comps(old(self)@, av).uniq);
        assert(self@.multi =~= stick_comps(old(self)@, av).multi);
    }
}

/// One component's tick, with the ancestor's world matrix already looked
/// up (`aw`), so that the borrow of the ancestor collection is not held
/// while this collection is being rebuilt.
fn tick_one(c: Component, aw: &Option<Mat4>) -> (r: Component)
    requires
        c@.wf(),
        match aw {
            Some(w) => w.wf(),
            None => true,
        },
    ensures
        forall|anc: Option<ComponentsV>|
            anc_world(anc) == (match aw {
                Some(w) => Some(w.m@),
                None => None::<Seq<i64>>,
            }) ==> r@ == stick_comp(c@, anc),
{
    match c {
        Component::Transform(t) => {
            let nw = match aw {
                Some(w) => mat_mul(w, &t.local_matrix),
                None => t.local_matrix.duplicate(),
            };
            Component::Transform(
                TransformComponent { id: t.id, local_matrix: t.local_matrix, world_matrix: nw },
            )
        },
        Component::Render(r) => Component::Render(r),
    }
}

/// Does either partition hold a component with runtime handle `cid`?
pub open spec fn comps_has_cid(cs: ComponentsV, cid: u64) -> bool {
    first_idx(cs.uniq, cid_pred(cid)) >= 0 || first_idx(cs.multi, cid_pred(cid)) >= 0
}

impl Components {
    /// Executable form of [`comps_has_cid`].
    pub fn has_cid(&self, cid: u64) -> (r: bool)
        ensures
            r == comps_has_cid(self@, cid),
    {
        match Components::find_cid(&self.uniq_comp, cid) {
            Some(_) => true,
            None => match Components::find_cid(&self.multi_comp, cid) {
                Some(_) => true,
                None => false,
            },
        }
    }
}

} // verus!
