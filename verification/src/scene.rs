//! The scene runtime context: the object registry holding every root
//! entity, the running handle generator, and the queue of drop
//! notifications the host consumes.
//!
//! Every externally addressable object is named by an opaque 64-bit
//! handle; 0 means "none".  A handle is the object's own runtime id, so it
//! stays valid however the object moves between the registry and a
//! parent's child sequence.

use vstd::prelude::*;

verus! {

use crate::component::{Components, ComponentKind};
use crate::entity::{
    Entity, EntityV, DropNote, NoteV, forest_view, forest_wf, notes_view, lemma_forest_view,
    find_child_idx, find_subtree_idx, find_owner, eid_pred, subtree_pred, ent_contains,
    forest_contains, sfind_ent, sfind_forest, sapply_ent, sapply_forest, sapply_comps,
    sattach_ent, sdetach_ent, sdestroy_forest, stick_ent, snotes_ent, attach_ent, detach_ent,
    destroy_in_ent, apply_op_ent, tick_entity, push_notes, CompOp, CompOpV, sowner_forest,
    forest_has_comp, lemma_forest_contains_first_idx, lemma_forest_view_remove,
    lemma_forest_view_insert, lemma_forest_view_update, lemma_forest_view_push,
    lemma_sowner_contains, find_parent_of, count_id_ent, count_id_forest, lemma_count_id_push,
    lemma_count_id_remove, lemma_count_id_update, lemma_count_contains_ent,
    lemma_count_contains_forest, lemma_count_sattach_ent, lemma_count_sdetach_ent,
    lemma_count_sdestroy_forest, lemma_count_sapply_forest, lemma_count_stick_ent,
    lemma_forest_contains_exists, lemma_count_zero_not_contains, lemma_sfind_attach_ent,
};
use crate::mat::{Mat4, stranslation, sscaling};
use crate::format::u64_to_string;

/// View of a scene.
pub struct SceneV {
    pub roots: Seq<EntityV>,
    pub next_id: u64,
    pub notes: Seq<NoteV>,
}

/// The scene: object registry, handle generator, and pending drop
/// notifications.
pub struct Scene {
    /// The object registry: every root entity, keyed by position; an
    /// entity is here exactly when it has no parent.
    pub roots: Vec<Entity>,
    /// The next unassigned runtime handle.
    pub next_id: u64,
    /// Drop notifications not yet consumed by the host.
    pub notes: Vec<DropNote>,
}

impl View for Scene {
    type V = SceneV;

    open spec fn view(&self) -> SceneV {
        SceneV {
            roots: forest_view(self.roots@),
            next_id: self.next_id,
            notes: notes_view(self.notes@),
        }
    }
}

impl SceneV {
    /// Scene well-formedness: every registered entity is a well-formed
    /// root (no parent reference), and handles start past the reserved
    /// range.  It also pins the handle discipline: every handle names at
    /// most one entity anywhere in the scene, and every handle in use
    /// lies below the generator, so a freshly generated handle never
    /// collides with a live one.
    pub open spec fn wf(self) -> bool {
        &&& forest_wf(self.roots)
        &&& forall|i: int| 0 <= i < self.roots.len() ==> (#[trigger] self.roots[i]).parent_id == 0
        &&& self.next_id >= 100
        &&& forall|h: u64| #[trigger] count_id_forest(self.roots, h) <= 1
        &&& forall|h: u64| h >= self.next_id ==> #[trigger] count_id_forest(self.roots, h) == 0
    }
}

/// Start the runtime: an empty registry and the first usable handle.
pub fn engine_init() -> (s: Scene)
    ensures
        s@.wf(),
        s@.roots == Seq::<EntityV>::empty(),
        s@.notes == Seq::<NoteV>::empty(),
        s@.next_id == 100,
{
    let s = Scene { roots: Vec::new(), next_id: 100, notes: Vec::new() };
    proof {
        assert(s@.roots =~= Seq::<EntityV>::empty());
        assert(s@.notes =~= Seq::<NoteV>::empty());
        assert(forall|h: u64| #[trigger] count_id_forest(s@.roots, h) == 0);
    }
    s
}

impl Scene {
    /// Hand out the next runtime handle.  Handles are never 0; the
    /// generator stops growing at the top of the range rather than wrap.
    /// Handles strictly increase until the top of the range, so no two
    /// calls ever hand out the same handle before exhaustion.
    pub fn engine_next_global_id(&mut self) -> (r: u64)
        requires
            old(self)@.wf(),
        ensures
            final(self)@.wf(),
            r == old(self).next_id,
            r != 0,
            final(self).roots == old(self).roots,
            final(self).notes == old(self).notes,
            old(self).next_id < u64::MAX ==> final(self).next_id == old(self).next_id + 1,
            final(self).next_id > old(self).next_id || old(self).next_id == u64::MAX,
            final(self).next_id >= old(self).next_id,
    {
        let r = self.next_id;
        if self.next_id < u64::MAX {
            self.next_id = self.next_id + 1;
        }
        proof {
            assert(self@.roots == old(self)@.roots);
            assert forall|h: u64| #[trigger] count_id_forest(self@.roots, h) <= 1 by {
                assert(count_id_forest(old(self)@.roots, h) <= 1);
            }
            assert forall|h: u64|
                h >= self@.next_id implies #[trigger] count_id_forest(self@.roots, h) == 0 by {
                assert(count_id_forest(old(self)@.roots, h) == 0);
            }
        }
        r
    }

    /// Register a parentless entity in the object registry.  The
    /// entity's handles must be fresh: nowhere in the registry already,
    /// below the generator, and without duplicates of their own.
    pub fn engine_pin(&mut self, e: Entity)
        requires
            old(self)@.wf(),
            e@.wf(),
            e@.parent_id == 0,
            forall|h: u64| #[trigger] count_id_ent(e@, h) <= 1,
            forall|h: u64|
                #[trigger] count_id_ent(e@, h) >= 1 ==> count_id_forest(old(self)@.roots, h) == 0
                    && h < old(self)@.next_id,
        ensures
            final(self)@.wf(),
            final(self)@.roots == old(self)@.roots.push(e@),
            final(self)@.next_id == old(self)@.next_id,
            final(self)@.notes == old(self)@.notes,
    {
        let ghost prev = self.roots@;
        self.roots.push(e);
        proof {
            lemma_forest_view(prev);
            lemma_forest_view(self.roots@);
            assert forall|j: int|
                0 <= j < self.roots@.len() implies forest_view(self.roots@)[j] == old(
                self,
            )@.roots.push(e@)[j] by {
                if j < prev.len() {
                    assert(self.roots@[j] == prev[j]);
                } else {
                    assert(self.roots@[j] == e);
                }
            }
            assert(forest_view(self.roots@) =~= old(self)@.roots.push(e@));
            assert forall|h: u64| #[trigger] count_id_forest(self@.roots, h) <= 1 by {
                lemma_count_id_push(old(self)@.roots, e@, h);
                assert(count_id_forest(old(self)@.roots, h) <= 1);
                assert(count_id_ent(e@, h) <= 1);
                if count_id_ent(e@, h) >= 1 {
                    assert(count_id_forest(old(self)@.roots, h) == 0);
                }
            }
            assert forall|h: u64|
                h >= self@.next_id implies #[trigger] count_id_forest(self@.roots, h) == 0 by {
                lemma_count_id_push(old(self)@.roots, e@, h);
                assert(count_id_forest(old(self)@.roots, h) == 0);
                if count_id_ent(e@, h) >= 1 {
                    assert(h < old(self)@.next_id);
                }
            }
        }
    }

    /// Remove and return the registered entity with handle `id`, if the
    /// registry holds one.
    pub fn engine_remove(&mut self, id: u64) -> (r: Option<Entity>)
        requires
            old(self)@.wf(),
        ensures
            final(self)@.wf(),
            final(self)@.next_id == old(self)@.next_id,
            final(self)@.notes == old(self)@.notes,
            ({
                let i = first_idx_roots(old(self)@.roots, id);
                match r {
                    Some(e) => i >= 0 && e@ == old(self)@.roots[i] && final(self)@.roots == old(
                        self,
                    )@.roots.remove(i) && e@.wf() && e@.parent_id == 0,
                    None => i < 0 && final(self)@.roots == old(self)@.roots,
                }
            }),
    {
        match find_child_idx(&self.roots, id) {
            Some(i) => {
                let ghost prev = self.roots@;
                proof {
                    lemma_forest_view(prev);
                }
                let e = self.roots.remove(i);
                proof {
                    lemma_forest_view(self.roots@);
                    assert forall|j: int|
                        0 <= j < self.roots@.len() implies forest_view(self.roots@)[j] == old(
                        self,
                    )@.roots.remove(i as int)[j] by {
                        if j < i {
                            assert(self.roots@[j] == prev[j]);
                        } else {
                            assert(self.roots@[j] == prev[j + 1]);
                        }
                    }
                    assert(forest_view(self.roots@) =~= old(self)@.roots.remove(i as int));
                    assert forall|h: u64| #[trigger] count_id_forest(self@.roots, h) <= 1 by {
                        lemma_count_id_remove(old(self)@.roots, i as int, h);
                        assert(count_id_forest(old(self)@.roots, h) <= 1);
                    }
                    assert forall|h: u64|
                        h >= self@.next_id implies #[trigger] count_id_forest(self@.roots, h)
                        == 0 by {
                        lemma_count_id_remove(old(self)@.roots, i as int, h);
                        assert(count_id_forest(old(self)@.roots, h) == 0);
                    }
                }
                Some(e)
            },
            None => None,
        }
    }

    /// Hand the pending drop notifications to the host and clear the
    /// queue.
    pub fn drain_notes(&mut self) -> (r: Vec<DropNote>)
        ensures
            notes_view(r@) == old(self)@.notes,
            final(self)@.notes == Seq::<NoteV>::empty(),
            final(self).roots == old(self).roots,
            final(self).next_id == old(self).next_id,
    {
        let mut out: Vec<DropNote> = Vec::new();
        core::mem::swap(&mut out, &mut self.notes);
        proof {
            assert(notes_view(self.notes@) =~= Seq::<NoteV>::empty());
        }
        out
    }
}

/// The index of the top-level root with handle `id`, as a spec value.
pub open spec fn first_idx_roots(s: Seq<EntityV>, id: u64) -> int {
    crate::component::first_idx(s, eid_pred(id))
}

/// Relies on `uuid::Uuid::new_v4`: a freshly generated random 128-bit
/// identifier.  Nothing can be promised of a random value.  The call can
/// abort only if the operating system's random source fails, an
/// environmental condition independent of any input.
#[verifier::external_body]
fn random_uuid() -> (r: u128)
{
    uuid::Uuid::new_v4().as_u128()
}

impl Entity {
    /// A fresh, parentless, empty entity.  Its default name is the decimal
    /// form of its runtime handle.
    pub fn new(s: &mut Scene) -> (e: Entity)
        requires
            old(s)@.wf(),
        ensures
            final(s)@.wf(),
            final(s)@.roots == old(s)@.roots,
            final(s)@.notes == old(s)@.notes,
            old(s)@.next_id < u64::MAX ==> final(s)@.next_id == old(s)@.next_id + 1,
            final(s)@.next_id > old(s)@.next_id || old(s)@.next_id == u64::MAX,
            final(s)@.next_id >= old(s)@.next_id,
            e@.wf(),
            e@.id == old(s)@.next_id,
            e@.parent_id == 0,
            e@.name == crate::format::spec_dec_u64(old(s)@.next_id as nat),
            e@.children == Seq::<EntityV>::empty(),
            e@.components == crate::component::ComponentsV::empty(),
            !forest_contains(final(s)@.roots, e@.id),
            forall|h: u64| #[trigger] count_id_ent(e@, h) == (if h == e@.id {
                1nat
            } else {
                0nat
            }),
    {
        let id = s.engine_next_global_id();
        let e = Entity {
            id,
            name: u64_to_string(id),
            instance_id: random_uuid(),
            parent_id: 0,
            children: Vec::new(),
            components: Components::new(),
        };
        proof {
            assert(e@.children =~= Seq::<EntityV>::empty());
            assert(forall|h: u64| #[trigger] count_id_forest(e@.children, h) == 0);
            assert(count_id_forest(old(s)@.roots, e@.id) == 0);
            lemma_count_contains_forest(old(s)@.roots, e@.id);
        }
        e
    }

    /// Create a fresh root entity, register it, and return its handle.
    /// The handle is fresh: it names nothing that was in the scene, and
    /// the generator moves strictly past it, so no later handle repeats
    /// it.  (The generator must not be exhausted.)
    pub fn pinned(s: &mut Scene) -> (h: u64)
        requires
            old(s)@.wf(),
            old(s)@.next_id < u64::MAX,
        ensures
            final(s)@.wf(),
            h == old(s)@.next_id,
            h != 0,
            final(s)@.next_id == old(s)@.next_id + 1,
            final(s)@.next_id > h,
            !forest_contains(old(s)@.roots, h),
            forall|j: int|
                0 <= j < old(s)@.roots.len() ==> (#[trigger] old(s)@.roots[j]).id != h,
            final(s)@.notes == old(s)@.notes,
            final(s)@.roots.len() == old(s)@.roots.len() + 1,
            final(s)@.roots.last().id == h,
            final(s)@.roots.last().parent_id == 0,
            final(s)@.roots.last().children == Seq::<EntityV>::empty(),
            final(s)@.roots.last().components == crate::component::ComponentsV::empty(),
            forall|j: int|
                0 <= j < old(s)@.roots.len() ==> final(s)@.roots[j] == #[trigger] old(
                    s,
                )@.roots[j],
    {
        proof {
            assert(count_id_forest(old(s)@.roots, old(s)@.next_id) == 0);
            lemma_count_contains_forest(old(s)@.roots, old(s)@.next_id);
            lemma_forest_contains_exists(old(s)@.roots, old(s)@.next_id);
            assert forall|j: int|
                0 <= j < old(s)@.roots.len() implies (#[trigger] old(s)@.roots[j]).id != old(
                s,
            )@.next_id by {
                if old(s)@.roots[j].id == old(s)@.next_id {
                    assert(ent_contains(old(s)@.roots[j], old(s)@.next_id));
                }
            }
        }
        let e = Entity::new(s);
        let h = e.id;
        proof {
            assert(forall|h2: u64|
                #[trigger] count_id_ent(e@, h2) >= 1 ==> h2 == e@.id);
            assert(count_id_forest(s@.roots, e@.id) == 0) by {
                lemma_count_contains_forest(s@.roots, e@.id);
            }
            assert(e@.id < s@.next_id);
        }
        s.engine_pin(e);
        h
    }
}

impl Scene {
    /// Attach the registered root `child` under the entity `parent`:
    /// fails, changing nothing, when `child` is not a parentless
    /// registered entity, or when `parent` is not an entity of the scene
    /// outside `child`'s own subtree.  On success `child` leaves the
    /// registry, moves into `parent`'s child sequence, and its parent
    /// back-reference names `parent`.
    pub fn add_child(&mut self, parent: u64, child: u64) -> (r: bool)
        requires
            old(self)@.wf(),
        ensures
            final(self)@.wf(),
            final(self)@.next_id == old(self)@.next_id,
            final(self)@.notes == old(self)@.notes,
            ({
                let ci = first_idx_roots(old(self)@.roots, child);
                if ci < 0 {
                    r == false && final(self)@.roots == old(self)@.roots
                } else {
                    let rest = old(self)@.roots.remove(ci);
                    let pi = crate::component::first_idx(rest, subtree_pred(parent));
                    if pi < 0 {
                        r == false && final(self)@.roots == old(self)@.roots
                    } else {
                        r == true && final(self)@.roots == rest.update(
                            pi,
                            sattach_ent(
                                rest[pi],
                                parent,
                                (EntityV { parent_id: parent, ..old(self)@.roots[ci] }),
                            ),
                        )
                    }
                }
            }),
    {
        let ghost sv0 = old(self)@.roots;
        match find_child_idx(&self.roots, child) {
            None => false,
            Some(ci) => {
                let ghost prev = self.roots@;
                proof {
                    lemma_forest_view(prev);
                }
                let mut c = self.roots.remove(ci);
                proof {
                    lemma_forest_view_remove(prev, ci as int);
                    assert(forest_view(self.roots@) =~= sv0.remove(ci as int));
                    assert(c@ == sv0[ci as int]);
                }
                match find_subtree_idx(&self.roots, parent) {
                    None => {
                        let ghost afterrm = self.roots@;
                        self.roots.insert(ci, c);
                        proof {
                            lemma_forest_view_insert(afterrm, ci as int, c);
                            assert(forest_view(self.roots@) =~= sv0.remove(ci as int).insert(
                                ci as int,
                                sv0[ci as int],
                            ));
                            assert(forest_view(self.roots@) =~= sv0);
                        }
                        false
                    },
                    Some(pi) => {
                        c.parent_id = parent;
                        let ghost rest = sv0.remove(ci as int);
                        let ghost cv2 = (EntityV { parent_id: parent, ..sv0[ci as int] });
                        proof {
                            assert(c@ == cv2);
                            lemma_forest_view(self.roots@);
                            assert(rest[pi as int] == (self.roots@[pi as int])@);
                            crate::component::lemma_first_idx(rest, subtree_pred(parent));
                            assert(ent_contains(rest[pi as int], parent));
                        }
                        let ghost beforep = self.roots@;
                        let p = self.roots.remove(pi);
                        let p2 = attach_ent(p, parent, c);
                        self.roots.insert(pi, p2);
                        proof {
                            assert(self.roots@ =~= beforep.update(pi as int, p2));
                            lemma_forest_view_update(beforep, pi as int, p2);
                            assert(forest_view(self.roots@) =~= rest.update(
                                pi as int,
                                sattach_ent(rest[pi as int], parent, cv2),
                            ));
                            assert forall|j: int|
                                0 <= j < self@.roots.len() implies (#[trigger] self@.roots[j]).wf()
                                && self@.roots[j].parent_id == 0 by {
                                if j != pi {
                                    assert(self@.roots[j] == rest[j]);
                                    if j < ci {
                                        assert(rest[j] == sv0[j]);
                                    } else {
                                        assert(rest[j] == sv0[j + 1]);
                                    }
                                } else {
                                    assert(self@.roots[j] == p2@);
                                    assert(p2@.parent_id == rest[pi as int].parent_id);
                                    if pi < ci {
                                        assert(rest[pi as int] == sv0[pi as int]);
                                    } else {
                                        assert(rest[pi as int] == sv0[pi as int + 1]);
                                    }
                                }
                            }
                            assert(ent_contains(rest[pi as int], parent));
                            assert forall|h: u64|
                                #[trigger] count_id_forest(self@.roots, h) == count_id_forest(
                                sv0,
                                h,
                            ) by {
                                lemma_count_id_update(
                                    rest,
                                    pi as int,
                                    sattach_ent(rest[pi as int], parent, cv2),
                                    h,
                                );
                                crate::entity::lemma_count_sattach_ent(
                                    rest[pi as int],
                                    parent,
                                    cv2,
                                    h,
                                );
                                assert(count_id_ent(cv2, h) == count_id_ent(sv0[ci as int], h));
                                lemma_count_id_remove(sv0, ci as int, h);
                            }
                            assert forall|h: u64|
                                #[trigger] count_id_forest(self@.roots, h) <= 1 by {
                                assert(count_id_forest(sv0, h) <= 1);
                            }
                            assert forall|h: u64|
                                h >= self@.next_id implies #[trigger] count_id_forest(
                                self@.roots,
                                h,
                            ) == 0 by {
                                assert(count_id_forest(sv0, h) == 0);
                            }
                        }
                        true
                    },
                }
            },
        }
    }

    /// Detach `child` from the entity `parent` and re-register it as a
    /// root: fails, changing nothing, unless `parent` is an entity of the
    /// scene and `child` currently sits in its child sequence.
    pub fn remove_child(&mut self, parent: u64, child: u64) -> (r: bool)
        requires
            old(self)@.wf(),
        ensures
            final(self)@.wf(),
            final(self)@.next_id == old(self)@.next_id,
            final(self)@.notes == old(self)@.notes,
            ({
                let pi = crate::component::first_idx(old(self)@.roots, subtree_pred(parent));
                if pi < 0 {
                    r == false && final(self)@.roots == old(self)@.roots
                } else {
                    let d = sdetach_ent(old(self)@.roots[pi], parent, child);
                    match d.1 {
                        Some(cv) => r == true && final(self)@.roots == old(self)@.roots.update(
                            pi,
                            d.0,
                        ).push(cv),
                        None => r == false && final(self)@.roots == old(self)@.roots,
                    }
                }
            }),
    {
        let ghost sv0 = old(self)@.roots;
        match find_subtree_idx(&self.roots, parent) {
            None => false,
            Some(pi) => {
                let ghost prev = self.roots@;
                proof {
                    lemma_forest_view(prev);
                    assert(sv0[pi as int] == (prev[pi as int])@);
                    crate::component::lemma_first_idx(sv0, subtree_pred(parent));
                }
                let p = self.roots.remove(pi);
                let rr = detach_ent(p, parent, child);
                let (p2, removed) = rr;
                match removed {
                    Some(c) => {
                        self.roots.insert(pi, p2);
                        proof {
                            assert(self.roots@ =~= prev.update(pi as int, p2));
                            lemma_forest_view_update(prev, pi as int, p2);
                        }
                        let ghost mid = self.roots@;
                        self.roots.push(c);
                        proof {
                            lemma_forest_view_push(mid, c);
                            assert(forest_view(self.roots@) =~= sv0.update(
                                pi as int,
                                sdetach_ent(sv0[pi as int], parent, child).0,
                            ).push(c@));
                            assert forall|j: int|
                                0 <= j < self@.roots.len() implies (#[trigger] self@.roots[j]).wf()
                                && self@.roots[j].parent_id == 0 by {
                                if j < sv0.len() && j != pi {
                                    assert(self@.roots[j] == sv0[j]);
                                } else if j == pi {
                                    assert(self@.roots[j] == p2@);
                                    assert(p2@.parent_id == sv0[pi as int].parent_id);
                                }
                            }
                            assert forall|h: u64|
                                #[trigger] count_id_forest(self@.roots, h) == count_id_forest(
                                sv0,
                                h,
                            ) by {
                                let d = sdetach_ent(sv0[pi as int], parent, child);
                                lemma_count_id_push(sv0.update(pi as int, d.0), c@, h);
                                lemma_count_id_update(sv0, pi as int, d.0, h);
                                crate::entity::lemma_count_sdetach_ent(
                                    sv0[pi as int],
                                    parent,
                                    child,
                                    h,
                                );
                            }
                            assert forall|h: u64|
                                #[trigger] count_id_forest(self@.roots, h) <= 1 by {
                                assert(count_id_forest(sv0, h) <= 1);
                            }
                            assert forall|h: u64|
                                h >= self@.next_id implies #[trigger] count_id_forest(
                                self@.roots,
                                h,
                            ) == 0 by {
                                assert(count_id_forest(sv0, h) == 0);
                            }
                        }
                        true
                    },
                    None => {
                        self.roots.insert(pi, p2);
                        proof {
                            assert(self.roots@ =~= prev.update(pi as int, p2));
                            lemma_forest_view_update(prev, pi as int, p2);
                            crate::entity::lemma_sdetach_none_ent(sv0[pi as int], parent, child);
                            assert(p2@ == sv0[pi as int]);
                            assert(forest_view(self.roots@) =~= sv0);
                        }
                        false
                    },
                }
            },
        }
    }

    /// The handle of the parent of entity `h`, or 0 when `h` is a root or
    /// not an entity of this scene.
    pub fn get_parent(&self, h: u64) -> (r: u64)
        ensures
            forest_contains(self@.roots, h) ==> r == sfind_forest(self@.roots, h).parent_id,
            !forest_contains(self@.roots, h) ==> r == 0,
    {
        crate::entity::find_parent_of(&self.roots, h)
    }

    /// Destroy the entity `h`: detach-and-drop its whole subtree, pushing
    /// one drop notification per destroyed entity and component, depth
    /// first.  Fails when `h` is not an entity of this scene.
    pub fn destroy(&mut self, h: u64) -> (r: bool)
        requires
            old(self)@.wf(),
        ensures
            final(self)@.wf(),
            final(self)@.next_id == old(self)@.next_id,
            final(self)@.roots == sdestroy_forest(old(self)@.roots, h).0,
            r == sdestroy_forest(old(self)@.roots, h).1,
            r ==> final(self)@.notes == old(self)@.notes + snotes_ent(
                sfind_forest(old(self)@.roots, h),
            ),
            !r ==> final(self)@.notes == old(self)@.notes,
    {
        let ghost sv0 = old(self)@.roots;
        match find_subtree_idx(&self.roots, h) {
            None => {
                proof {
                    lemma_forest_contains_first_idx(sv0, h);
                }
                false
            },
            Some(i) => {
                let ghost prev = self.roots@;
                proof {
                    lemma_forest_view(prev);
                    assert(sv0[i as int] == (prev[i as int])@);
                    crate::component::lemma_first_idx(sv0, subtree_pred(h));
                }
                if self.roots[i].id == h {
                    let e = self.roots.remove(i);
                    proof {
                        lemma_forest_view_remove(prev, i as int);
                        assert(forest_view(self.roots@) =~= sv0.remove(i as int));
                        assert(e@ == sv0[i as int]);
                        assert(sfind_forest(sv0, h) == sfind_ent(sv0[i as int], h));
                    }
                    proof {
                        assert forall|h: u64|
                            #[trigger] count_id_forest(self@.roots, h) <= count_id_forest(
                            sv0,
                            h,
                        ) by {
                            lemma_count_id_remove(sv0, i as int, h);
                        }
                        assert forall|h: u64|
                            #[trigger] count_id_forest(self@.roots, h) <= 1 by {
                            assert(count_id_forest(sv0, h) <= 1);
                        }
                        assert forall|h: u64|
                            h >= self@.next_id implies #[trigger] count_id_forest(
                            self@.roots,
                            h,
                        ) == 0 by {
                            assert(count_id_forest(sv0, h) == 0);
                        }
                    }
                    let ghost mid_roots = self@.roots;
                    let mut notes = Vec::new();
                    core::mem::swap(&mut notes, &mut self.notes);
                    push_notes(e, &mut notes);
                    core::mem::swap(&mut notes, &mut self.notes);
                    proof {
                        assert(self@.roots == mid_roots);
                        assert(self@.wf());
                    }
                    true
                } else {
                    let e = self.roots.remove(i);
                    let rr = destroy_in_ent(e, h);
                    let (e2, removed) = rr;
                    self.roots.insert(i, e2);
                    proof {
                        assert(self.roots@ =~= prev.update(i as int, e2));
                        lemma_forest_view_update(prev, i as int, e2);
                        assert(forest_view(self.roots@) =~= sv0.update(
                            i as int,
                            (EntityV { children: sdestroy_forest(sv0[i as int].children, h).0, ..sv0[i as int] }),
                        ));
                        assert(sfind_forest(sv0, h) == sfind_ent(sv0[i as int], h));
                        assert forall|j: int|
                            0 <= j < self@.roots.len() implies (#[trigger] self@.roots[j]).wf()
                            && self@.roots[j].parent_id == 0 by {
                            if j != i {
                                assert(self@.roots[j] == sv0[j]);
                            } else {
                                assert(self@.roots[j] == e2@);
                                assert(e2@.parent_id == sv0[i as int].parent_id);
                            }
                        }
                        assert(self@.roots == sdestroy_forest(sv0, h).0);
                        assert(sdestroy_forest(sv0, h).1);
                        assert forall|h2: u64|
                            #[trigger] count_id_forest(self@.roots, h2) <= count_id_forest(
                            sv0,
                            h2,
                        ) by {
                            lemma_count_sdestroy_forest(sv0, h, h2);
                        }
                        assert forall|h2: u64|
                            #[trigger] count_id_forest(self@.roots, h2) <= 1 by {
                            assert(count_id_forest(sv0, h2) <= 1);
                        }
                        assert forall|h2: u64|
                            h2 >= self@.next_id implies #[trigger] count_id_forest(
                            self@.roots,
                            h2,
                        ) == 0 by {
                            assert(count_id_forest(sv0, h2) == 0);
                        }
                    }
                    let ghost mid_roots = self@.roots;
                    let mut notes = Vec::new();
                    core::mem::swap(&mut notes, &mut self.notes);
                    push_notes(removed, &mut notes);
                    core::mem::swap(&mut notes, &mut self.notes);
                    proof {
                        assert(self@.roots == mid_roots);
                        assert(self@.wf());
                    }
                    true
                }
            },
        }
    }
}

impl Scene {
    /// Apply one component operation addressed to entity `h`.
    fn apply_at(&mut self, h: u64, op: &CompOp) -> (r: (bool, bool))
        requires
            old(self)@.wf(),
            op.wf(),
        ensures
            final(self)@.wf(),
            final(self)@.next_id == old(self)@.next_id,
            final(self)@.notes == old(self)@.notes,
            final(self)@.roots == sapply_forest(old(self)@.roots, h, op@),
            r.0 == forest_contains(old(self)@.roots, h),
            r.0 ==> r.1 == sapply_comps(sfind_forest(old(self)@.roots, h).components, op@).1,
            !r.0 ==> r.1 == false && final(self)@.roots == old(self)@.roots,
    {
        let ghost sv0 = old(self)@.roots;
        match find_subtree_idx(&self.roots, h) {
            None => {
                proof {
                    lemma_forest_contains_first_idx(sv0, h);
                }
                (false, false)
            },
            Some(i) => {
                let ghost prev = self.roots@;
                proof {
                    lemma_forest_view(prev);
                    assert(sv0[i as int] == (prev[i as int])@);
                    crate::component::lemma_first_idx(sv0, subtree_pred(h));
                    lemma_forest_contains_first_idx(sv0, h);
                }
                let e = self.roots.remove(i);
                let rr = apply_op_ent(e, h, op);
                let (e2, ok) = rr;
                self.roots.insert(i, e2);
                proof {
                    assert(self.roots@ =~= prev.update(i as int, e2));
                    lemma_forest_view_update(prev, i as int, e2);
                    assert(forest_view(self.roots@) =~= sv0.update(
                        i as int,
                        sapply_ent(sv0[i as int], h, op@),
                    ));
                    assert(sfind_forest(sv0, h) == sfind_ent(sv0[i as int], h));
                    assert forall|j: int|
                        0 <= j < self@.roots.len() implies (#[trigger] self@.roots[j]).wf()
                        && self@.roots[j].parent_id == 0 by {
                        if j != i {
                            assert(self@.roots[j] == sv0[j]);
                        } else {
                            assert(self@.roots[j] == e2@);
                            assert(e2@.parent_id == sv0[i as int].parent_id);
                        }
                    }
                    assert(self@.roots == sapply_forest(sv0, h, op@));
                    assert forall|h2: u64|
                        #[trigger] count_id_forest(self@.roots, h2) == count_id_forest(
                        sv0,
                        h2,
                    ) by {
                        lemma_count_sapply_forest(sv0, h, op@, h2);
                    }
                    assert forall|h2: u64| #[trigger] count_id_forest(self@.roots, h2) <= 1 by {
                        assert(count_id_forest(sv0, h2) <= 1);
                    }
                    assert forall|h2: u64|
                        h2 >= self@.next_id implies #[trigger] count_id_forest(self@.roots, h2)
                        == 0 by {
                        assert(count_id_forest(sv0, h2) == 0);
                    }
                }
                (true, ok)
            },
        }
    }

    /// Create a default component of kind `k` on entity `h`.  The fresh
    /// component handle is returned; creation fails (`None`, no change to
    /// the entity) when `h` is not an entity of this scene, or when `k` is
    /// a singleton kind of which the entity already holds an instance.
    pub fn create_component(&mut self, h: u64, k: ComponentKind) -> (r: Option<u64>)
        requires
            old(self)@.wf(),
        ensures
            final(self)@.wf(),
            final(self)@.notes == old(self)@.notes,
            ({
                let cid = old(self)@.next_id;
                let op = CompOpV::Create(k, cid);
                if !forest_contains(old(self)@.roots, h) {
                    r is None && final(self)@.roots == old(self)@.roots
                } else {
                    final(self)@.roots == sapply_forest(old(self)@.roots, h, op) && (r == (
                    if sapply_comps(sfind_forest(old(self)@.roots, h).components, op).1 {
                        Some(cid)
                    } else {
                        None::<u64>
                    }))
                }
            }),
    {
        let ghost sv0 = old(self)@.roots;
        let present = crate::entity::forest_has(&self.roots, h);
        if !present {
            return None;
        }
        let cid = self.engine_next_global_id();
        let op = CompOp::Create(k, cid);
        let rr = self.apply_at(h, &op);
        if rr.1 {
            Some(cid)
        } else {
            None
        }
    }

    /// Remove the component with handle `cid` from entity `h`.  Fails when
    /// `h` is not an entity of this scene or `cid` names none of its
    /// components.
    pub fn remove_component(&mut self, h: u64, cid: u64) -> (r: bool)
        requires
            old(self)@.wf(),
        ensures
            final(self)@.wf(),
            final(self)@.next_id == old(self)@.next_id,
            final(self)@.notes == old(self)@.notes,
            ({
                let op = CompOpV::Remove(cid);
                if !forest_contains(old(self)@.roots, h) {
                    r == false && final(self)@.roots == old(self)@.roots
                } else {
                    final(self)@.roots == sapply_forest(old(self)@.roots, h, op) && r
                        == sapply_comps(sfind_forest(old(self)@.roots, h).components, op).1
                }
            }),
    {
        let op = CompOp::Remove(cid);
        let rr = self.apply_at(h, &op);
        rr.1
    }

    /// Premultiply the local matrix of the transform component with handle
    /// `cid` by `m`.  The operation addresses the first entity owning
    /// `cid`; it fails when no entity does, or when `cid` does not name a
    /// transform component.
    pub fn rotate(&mut self, cid: u64, m: &Mat4) -> (r: bool)
        requires
            old(self)@.wf(),
            m.wf(),
        ensures
            final(self)@.wf(),
            final(self)@.next_id == old(self)@.next_id,
            final(self)@.notes == old(self)@.notes,
            ({
                let owner = sowner_forest(old(self)@.roots, cid);
                let op = CompOpV::Premul(cid, m.m@);
                if !forest_has_comp(old(self)@.roots, cid) {
                    r == false && final(self)@.roots == old(self)@.roots
                } else {
                    final(self)@.roots == sapply_forest(old(self)@.roots, owner, op) && r
                        == sapply_comps(sfind_forest(old(self)@.roots, owner).components, op).1
                }
            }),
    {
        let ghost sv0 = old(self)@.roots;
        let rr = find_owner(&self.roots, cid);
        if !rr.0 {
            return false;
        }
        let owner = rr.1;
        proof {
            lemma_sowner_contains(sv0, cid);
        }
        let op = CompOp::Premul(cid, m.duplicate());
        let ar = self.apply_at(owner, &op);
        ar.1
    }

    /// Append a translation by `(x, y, z)` to the transform component
    /// with handle `cid`.
    pub fn translate(&mut self, cid: u64, x: i64, y: i64, z: i64) -> (r: bool)
        requires
            old(self)@.wf(),
        ensures
            final(self)@.wf(),
            final(self)@.next_id == old(self)@.next_id,
            final(self)@.notes == old(self)@.notes,
            ({
                let owner = sowner_forest(old(self)@.roots, cid);
                let op = CompOpV::Premul(cid, stranslation(x, y, z));
                if !forest_has_comp(old(self)@.roots, cid) {
                    r == false && final(self)@.roots == old(self)@.roots
                } else {
                    final(self)@.roots == sapply_forest(old(self)@.roots, owner, op) && r
                        == sapply_comps(sfind_forest(old(self)@.roots, owner).components, op).1
                }
            }),
    {
        let m = Mat4::translation(x, y, z);
        self.rotate(cid, &m)
    }

    /// Append a non-uniform scaling by `(x, y, z)` to the transform
    /// component with handle `cid`.
    pub fn scale(&mut self, cid: u64, x: i64, y: i64, z: i64) -> (r: bool)
        requires
            old(self)@.wf(),
        ensures
            final(self)@.wf(),
            final(self)@.next_id == old(self)@.next_id,
            final(self)@.notes == old(self)@.notes,
            ({
                let owner = sowner_forest(old(self)@.roots, cid);
                let op = CompOpV::Premul(cid, sscaling(x, y, z));
                if !forest_has_comp(old(self)@.roots, cid) {
                    r == false && final(self)@.roots == old(self)@.roots
                } else {
                    final(self)@.roots == sapply_forest(old(self)@.roots, owner, op) && r
                        == sapply_comps(sfind_forest(old(self)@.roots, owner).components, op).1
                }
            }),
    {
        let m = Mat4::scaling(x, y, z);
        self.rotate(cid, &m)
    }

    /// One tick of the tree below the root entity `h`: rejected, with no
    /// effect, unless `h` is a registered root (an entity with a parent
    /// cannot be ticked directly).
    pub fn tick(&mut self, h: u64, delta: i64) -> (r: bool)
        requires
            old(self)@.wf(),
        ensures
            final(self)@.wf(),
            final(self)@.next_id == old(self)@.next_id,
            final(self)@.notes == old(self)@.notes,
            ({
                let i = first_idx_roots(old(self)@.roots, h);
                if i < 0 {
                    r == false && final(self)@.roots == old(self)@.roots
                } else {
                    r == true && final(self)@.roots == old(self)@.roots.update(
                        i,
                        stick_ent(old(self)@.roots[i], None),
                    )
                }
            }),
    {
        let ghost sv0 = old(self)@.roots;
        match find_child_idx(&self.roots, h) {
            None => false,
            Some(i) => {
                let ghost prev = self.roots@;
                proof {
                    lemma_forest_view(prev);
                    assert(sv0[i as int] == (prev[i as int])@);
                }
                let e = self.roots.remove(i);
                let e2 = tick_entity(e, delta, None);
                self.roots.insert(i, e2);
                proof {
                    assert(self.roots@ =~= prev.update(i as int, e2));
                    lemma_forest_view_update(prev, i as int, e2);
                    assert(forest_view(self.roots@) =~= sv0.update(
                        i as int,
                        stick_ent(sv0[i as int], None),
                    ));
                    crate::entity::lemma_stick_ent_wf(sv0[i as int], None);
                    assert forall|j: int|
                        0 <= j < self@.roots.len() implies (#[trigger] self@.roots[j]).wf()
                        && self@.roots[j].parent_id == 0 by {
                        if j != i {
                            assert(self@.roots[j] == sv0[j]);
                        } else {
                            assert(self@.roots[j] == stick_ent(sv0[i as int], None));
                        }
                    }
                    assert forall|h2: u64|
                        #[trigger] count_id_forest(self@.roots, h2) == count_id_forest(
                        sv0,
                        h2,
                    ) by {
                        lemma_count_id_update(sv0, i as int, stick_ent(sv0[i as int], None), h2);
                        lemma_count_stick_ent(sv0[i as int], None, h2);
                    }
                    assert forall|h2: u64| #[trigger] count_id_forest(self@.roots, h2) <= 1 by {
                        assert(count_id_forest(sv0, h2) <= 1);
                    }
                    assert forall|h2: u64|
                        h2 >= self@.next_id implies #[trigger] count_id_forest(self@.roots, h2)
                        == 0 by {
                        assert(count_id_forest(sv0, h2) == 0);
                    }
                }
                true
            },
        }
    }
}

/// Parent/child invariant, the other half: once attaching `c` under `p`
/// has succeeded, `c` is no longer a registered root, so a second attach
/// of the same child can never succeed again — the child already has a
/// parent.  Handle uniqueness comes from the scene invariant: every
/// handle names at most one entity.
pub proof fn lemma_attach_twice(sv: SceneV, p: u64, c: u64)
    requires
        sv.wf(),
        first_idx_roots(sv.roots, c) >= 0,
        crate::component::first_idx(
            sv.roots.remove(first_idx_roots(sv.roots, c)),
            subtree_pred(p),
        ) >= 0,
    ensures
        ({
            let ci = first_idx_roots(sv.roots, c);
            let rest = sv.roots.remove(ci);
            let pi = crate::component::first_idx(rest, subtree_pred(p));
            let after = rest.update(
                pi,
                sattach_ent(rest[pi], p, (EntityV { parent_id: p, ..sv.roots[ci] })),
            );
            first_idx_roots(after, c) < 0
        }),
{
    let roots = sv.roots;
    let ci = first_idx_roots(roots, c);
    let rest = roots.remove(ci);
    let pi = crate::component::first_idx(rest, subtree_pred(p));
    crate::component::lemma_first_idx(roots, eid_pred(c));
    crate::component::lemma_first_idx(rest, subtree_pred(p));
    let after = rest.update(
        pi,
        sattach_ent(rest[pi], p, (EntityV { parent_id: p, ..roots[ci] })),
    );
    assert(sattach_ent(rest[pi], p, (EntityV { parent_id: p, ..roots[ci] })).id == rest[pi].id);
    assert(count_id_forest(rest, c) == 0) by {
        lemma_count_id_remove(roots, ci, c);
        assert(count_id_forest(roots, c) <= 1);
        assert(count_id_ent(roots[ci], c) >= 1);
    }
    assert forall|j: int| 0 <= j < after.len() implies !eid_pred(c)(#[trigger] after[j]) by {
        assert(count_id_ent(rest[j], c) == 0) by {
            lemma_count_id_remove(rest, j, c);
        }
        if j != pi {
            assert(after[j] == rest[j]);
        }
        assert(after[j].id == rest[j].id);
    }
    crate::component::lemma_first_idx_none(after, eid_pred(c));
}

/// Parent/child scenario, the reading half: in a well-formed scene,
/// after attaching the registered root `c` under `p` succeeds, the first
/// entity found under handle `c` is the attached child, and its parent
/// reference names `p` — so looking the child's parent up yields `p`.
pub proof fn lemma_get_parent_after_attach(sv: SceneV, p: u64, c: u64)
    requires
        sv.wf(),
        first_idx_roots(sv.roots, c) >= 0,
        crate::component::first_idx(
            sv.roots.remove(first_idx_roots(sv.roots, c)),
            subtree_pred(p),
        ) >= 0,
    ensures
        ({
            let ci = first_idx_roots(sv.roots, c);
            let rest = sv.roots.remove(ci);
            let pi = crate::component::first_idx(rest, subtree_pred(p));
            let after = rest.update(
                pi,
                sattach_ent(rest[pi], p, (EntityV { parent_id: p, ..sv.roots[ci] })),
            );
            &&& forest_contains(after, c)
            &&& sfind_forest(after, c).parent_id == p
        }),
{
    let ci = first_idx_roots(sv.roots, c);
    let rest = sv.roots.remove(ci);
    let pi = crate::component::first_idx(rest, subtree_pred(p));
    let cv2 = (EntityV { parent_id: p, ..sv.roots[ci] });
    let after = rest.update(pi, sattach_ent(rest[pi], p, cv2));
    crate::component::lemma_first_idx(sv.roots, eid_pred(c));
    crate::component::lemma_first_idx(rest, subtree_pred(p));
    assert(sv.roots[ci].id == c);
    assert(cv2.id == c);
    assert(count_id_forest(rest, c) == 0) by {
        lemma_count_id_remove(sv.roots, ci, c);
        assert(count_id_forest(sv.roots, c) <= 1);
        assert(count_id_ent(sv.roots[ci], c) >= 1);
    }
    assert(count_id_ent(rest[pi], c) == 0) by {
        lemma_count_id_remove(rest, pi, c);
        crate::entity::lemma_count_contains_ent(rest[pi], c);
    }
    assert(ent_contains(rest[pi], p));
    lemma_sfind_attach_ent(rest[pi], p, cv2, c);
    lemma_count_zero_not_contains(rest, c);
    assert forall|j: int| 0 <= j < pi implies !subtree_pred(c)(#[trigger] after[j]) by {
        assert(after[j] == rest[j]);
    }
    assert(subtree_pred(c)(after[pi]));
    crate::component::lemma_first_idx_is(after, subtree_pred(c), pi);
    crate::entity::lemma_forest_contains_first_idx(after, c);
    assert(sfind_forest(after, c) == sfind_ent(sattach_ent(rest[pi], p, cv2), c));
    assert(sfind_ent(cv2, c) == cv2);
}

impl Scene {
    /// Load a serialized subtree from its binary form and register it as
    /// a fresh root: the decoded tree's runtime handles are drawn from
    /// this scene's generator, so they are fresh and the registry
    /// invariant is preserved.  `None` when the data does not decode, or
    /// when the generator is exhausted.
    pub fn load_binary(&mut self, data: &Vec<u8>) -> (r: Option<u64>)
        requires
            old(self)@.wf(),
        ensures
            final(self)@.wf(),
            final(self)@.notes == old(self)@.notes,
            match r {
                Some(h) => ({
                    let dec = crate::codec::sdec_entity(crate::bytes::stream_from(data@, 0));
                    let nr = final(self)@.roots;
                    &&& dec is Some
                    &&& nr.len() == old(self)@.roots.len() + 1
                    &&& forall|j: int|
                        0 <= j < old(self)@.roots.len() ==> nr[j] == #[trigger] old(
                            self,
                        )@.roots[j]
                    &&& crate::codec::strip_ent(nr.last()) == dec->Some_0.0
                    &&& nr.last().parent_id == 0
                    &&& nr.last().id == h
                }),
                None => final(self)@.roots == old(self)@.roots && (crate::codec::sdec_entity(
                    crate::bytes::stream_from(data@, 0),
                ) is None || final(self)@.next_id == u64::MAX),
            },
    {
        let mut pos: usize = 0;
        let ghost id_lo = self.next_id;
        let decoded = crate::codec::deserialize_binary(data, &mut pos, &mut self.next_id, 0);
        proof {
            assert(self@.roots == old(self)@.roots);
            assert forall|h: u64| #[trigger] count_id_forest(self@.roots, h) <= 1 by {
                assert(count_id_forest(old(self)@.roots, h) <= 1);
            }
            assert forall|h: u64|
                h >= self@.next_id implies #[trigger] count_id_forest(self@.roots, h) == 0 by {
                assert(count_id_forest(old(self)@.roots, h) == 0);
            }
        }
        match decoded {
            Some(e) => {
                if self.next_id < u64::MAX {
                    let h = e.id;
                    proof {
                        assert(crate::entity::count_id_ent(e@, h) >= 1);
                        assert(id_lo <= h);
                        assert forall|h2: u64|
                            #[trigger] crate::entity::count_id_ent(e@, h2) >= 1 implies
                            count_id_forest(self@.roots, h2) == 0 && h2 < self@.next_id by {
                            assert(id_lo <= h2 < self@.next_id);
                            assert(count_id_forest(old(self)@.roots, h2) == 0);
                        }
                    }
                    self.engine_pin(e);
                    Some(h)
                } else {
                    None
                }
            },
            None => None,
        }
    }
}

} // verus!
