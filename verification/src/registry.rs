//! The type registry: a table mapping a 128-bit type identifier to the
//! zero-argument constructor of a concrete component kind.  Container
//! codecs use it to reconstruct a concrete kind from nothing but the
//! identifier recovered from a persisted stream; an unregistered
//! identifier is a fatal decode error.

use vstd::prelude::*;

verus! {

use crate::component::{Component, CompV, ComponentKind, first_idx, lemma_first_idx,
    lemma_first_idx_is, lemma_first_idx_none, TRANSFORM_TYPE_UUID, RENDER_TYPE_UUID};

/// One registration: a type identifier and the kind it constructs.
pub struct Registration {
    pub type_uuid: u128,
    pub kind: ComponentKind,
}

/// The registry.
pub struct TypeRegistry {
    pub entries: Vec<Registration>,
}

/// View of the registry: the registered pairs in registration order.
pub open spec fn reg_view(v: Seq<Registration>) -> Seq<(u128, ComponentKind)> {
    v.map(|i: int, r: Registration| (r.type_uuid, r.kind))
}

/// The predicate "is registered under `id`".
pub open spec fn reg_pred(id: u128) -> spec_fn((u128, ComponentKind)) -> bool {
    |e: (u128, ComponentKind)| e.0 == id
}

/// The kind registered under `id`, if any (first registration wins).
pub open spec fn slookup(s: Seq<(u128, ComponentKind)>, id: u128) -> Option<ComponentKind> {
    let i = first_idx(s, reg_pred(id));
    if i >= 0 {
        Some(s[i].1)
    } else {
        None
    }
}

impl View for TypeRegistry {
    type V = Seq<(u128, ComponentKind)>;

    open spec fn view(&self) -> Seq<(u128, ComponentKind)> {
        reg_view(self.entries@)
    }
}

impl TypeRegistry {
    pub fn new() -> (r: TypeRegistry)
        ensures
            r@ == Seq::<(u128, ComponentKind)>::empty(),
    {
        let r = TypeRegistry { entries: Vec::new() };
        proof {
            assert(r@ =~= Seq::<(u128, ComponentKind)>::empty());
        }
        r
    }

    /// Register `kind` under `id`.  Called once per concrete kind before
    /// any deserialization.
    pub fn register(&mut self, id: u128, kind: ComponentKind)
        ensures
            final(self)@ == old(self)@.push((id, kind)),
    {
        let ghost prev = self.entries@;
        self.entries.push(Registration { type_uuid: id, kind });
        proof {
            assert(self@ =~= reg_view(prev).push((id, kind)));
        }
    }

    /// Look the kind registered under `id` up.
    pub fn lookup(&self, id: u128) -> (r: Option<ComponentKind>)
        ensures
            r == slookup(self@, id),
    {
        let ghost p = reg_pred(id);
        let mut i: usize = 0;
        while i < self.entries.len()
            invariant
                i <= self.entries@.len(),
                p == reg_pred(id),
                self@.len() == self.entries@.len(),
                forall|j: int| 0 <= j < i ==> !p(#[trigger] self@[j]),
            decreases self.entries@.len() - i,
        {
            proof {
                assert(self@[i as int] == (self.entries@[i as int].type_uuid,
                self.entries@[i as int].kind));
            }
            if self.entries[i].type_uuid == id {
                let k = self.entries[i].kind;
                proof {
                    lemma_first_idx_is(self@, p, i as int);
                }
                return Some(k);
            }
            proof {
                assert(!p(self@[i as int]));
            }
            i = i + 1;
        }
        proof {
            lemma_first_idx_none(self@, p);
        }
        None
    }

    /// Construct the default instance of the kind registered under `id`,
    /// giving it the runtime handle `cid`; fails exactly when `id` is not
    /// registered.
    pub fn construct(&self, id: u128, cid: u64) -> (r: Option<Component>)
        ensures
            match slookup(self@, id) {
                Some(k) => (match r {
                    Some(c) => c@ == CompV::default_of(k, cid) && c@.wf(),
                    None => false,
                }),
                None => r is None,
            },
    {
        match self.lookup(id) {
            Some(k) => Some(Component::default_of(k, cid)),
            None => None,
        }
    }
}

/// Build the registry the runtime starts with: every concrete component
/// kind, registered under its persisted type identifier.
pub fn init_reflection() -> (r: TypeRegistry)
    ensures
        slookup(r@, TRANSFORM_TYPE_UUID) == Some(ComponentKind::Transform),
        slookup(r@, RENDER_TYPE_UUID) == Some(ComponentKind::Render),
{
    let mut reg = TypeRegistry::new();
    reg.register(TRANSFORM_TYPE_UUID, ComponentKind::Transform);
    reg.register(RENDER_TYPE_UUID, ComponentKind::Render);
    proof {
        let s = reg@;
        assert(s.len() == 2);
        assert(s[0] == (TRANSFORM_TYPE_UUID, ComponentKind::Transform));
        assert(s[1] == (RENDER_TYPE_UUID, ComponentKind::Render));
        lemma_first_idx_is(s, reg_pred(TRANSFORM_TYPE_UUID), 0);
        assert(!reg_pred(RENDER_TYPE_UUID)(s[0]));
        lemma_first_idx_is(s, reg_pred(RENDER_TYPE_UUID), 1);
    }
    reg
}

/// A field-level reflection descriptor: the display label of a field,
/// whether it is persisted, and whether an editor may write it.
pub struct ReflectVarInfo {
    pub display: &'static str,
    pub serialize: bool,
    pub readonly: bool,
}

/// The reflection descriptors of a transform component's fields.
pub fn transform_reflect_info() -> (r: Vec<ReflectVarInfo>)
    ensures
        r@.len() == 2,
        r@[0].serialize && !r@[0].readonly,
        r@[1].serialize && r@[1].readonly,
{
    let mut v: Vec<ReflectVarInfo> = Vec::new();
    v.push(ReflectVarInfo { display: "Local Matrix", serialize: true, readonly: false });
    v.push(ReflectVarInfo { display: "World Matrix", serialize: true, readonly: true });
    v
}

/// The reflection descriptors of an entity's fields.
pub fn entity_reflect_info() -> (r: Vec<ReflectVarInfo>)
    ensures
        r@.len() == 4,
        forall|i: int| 0 <= i < r@.len() ==> (#[trigger] r@[i]).serialize,
{
    let mut v: Vec<ReflectVarInfo> = Vec::new();
    v.push(ReflectVarInfo { display: "Name", serialize: true, readonly: false });
    v.push(ReflectVarInfo { display: "UUID", serialize: true, readonly: true });
    v.push(ReflectVarInfo { display: "Children", serialize: true, readonly: false });
    v.push(ReflectVarInfo { display: "Components", serialize: true, readonly: false });
    v
}

} // verus!
