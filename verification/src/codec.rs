//! The binary codec for the entity tree.
//!
//! The persisted form of an entity is: its name (length-prefixed UTF-8),
//! its 128-bit identity, the child count followed by each child's own
//! encoding, and the two component partitions, each a count followed by
//! the elements.  A component is polymorphic, so its 128-bit type
//! identifier is written immediately before its body; the body holds the
//! kind's persisted fields.
//!
//! Runtime handles and parent back-references are never persisted: the
//! spec-level codecs work on *persisted views* (`PEntityV`, `PCompV`),
//! the projection of the runtime views onto what the format stores.  The
//! `lemma_round_trip_entity` law shows the format is unambiguous: decoding
//! an encoding, whatever follows it, consumes exactly the encoding and
//! yields the encoded tree.

use vstd::prelude::*;

verus! {

use crate::bytes::{
    senc_u8, senc_u16, senc_u32, senc_u64, senc_i64, senc_u128, senc_bool, senc_str,
    sdec_u8, sdec_u16, sdec_u32, sdec_u64, sdec_i64, sdec_u128, sdec_bool, sdec_str,
    lemma_u8_round_trip, lemma_u16_round_trip, lemma_u32_round_trip, lemma_u64_round_trip,
    lemma_i64_round_trip, lemma_u128_round_trip, lemma_bool_round_trip, lemma_str_round_trip,
    encode_u8, encode_u16, encode_u32, encode_u64, encode_i64, encode_u128, encode_bool,
    encode_string, decode_u8, decode_u16, decode_u32, decode_u64, decode_i64, decode_u128,
    decode_bool, decode_string, stream_from,
};
use crate::component::{CompV, ComponentsV, ComponentKind, Component, Components, comps_view,
    TransformComponent, RenderComponent, ExtRes, TRANSFORM_TYPE_UUID, RENDER_TYPE_UUID};
use crate::entity::{EntityV, Entity};
use crate::mat::Mat4;
use vstd::utf8::encode_utf8;

// ---------------------------------------------------------------------------
// persisted views
// ---------------------------------------------------------------------------

/// The persisted fields of one component.
pub enum PCompV {
    Transform { local: Seq<i64>, world: Seq<i64> },
    Render { object: Seq<char>, skeleton: Seq<char> },
}

/// The persisted fields of one entity.
pub struct PEntityV {
    pub name: Seq<char>,
    pub instance_id: u128,
    pub children: Seq<PEntityV>,
    pub uniq: Seq<PCompV>,
    pub multi: Seq<PCompV>,
}

/// Project a runtime component view onto its persisted fields.
pub open spec fn strip_comp(c: CompV) -> PCompV {
    match c {
        CompV::Transform(t) => PCompV::Transform { local: t.local, world: t.world },
        CompV::Render(r) => PCompV::Render { object: r.object, skeleton: r.skeleton },
    }
}

/// Project a sequence of runtime component views.
pub open spec fn strip_comps(s: Seq<CompV>) -> Seq<PCompV> {
    s.map(|i: int, c: CompV| strip_comp(c))
}

/// Project a runtime entity view onto its persisted fields.
pub open spec fn strip_ent(e: EntityV) -> PEntityV
    decreases e,
{
    PEntityV {
        name: e.name,
        instance_id: e.instance_id,
        children: strip_forest(e.children),
        uniq: strip_comps(e.components.uniq),
        multi: strip_comps(e.components.multi),
    }
}

/// Project a forest of runtime entity views.
pub open spec fn strip_forest(s: Seq<EntityV>) -> Seq<PEntityV>
    decreases s,
{
    if s.len() == 0 {
        Seq::empty()
    } else {
        seq![strip_ent(s[0])] + strip_forest(s.drop_first())
    }
}

/// `strip_forest` maps pointwise.
pub proof fn lemma_strip_forest(s: Seq<EntityV>)
    ensures
        strip_forest(s).len() == s.len(),
        forall|i: int| 0 <= i < s.len() ==> strip_forest(s)[i] == strip_ent(#[trigger] s[i]),
    decreases s,
{
    if s.len() > 0 {
        lemma_strip_forest(s.drop_first());
        assert(strip_forest(s) == seq![strip_ent(s[0])] + strip_forest(s.drop_first()));
        assert forall|i: int|
            0 <= i < s.len() implies strip_forest(s)[i] == strip_ent(#[trigger] s[i]) by {
            if i > 0 {
                assert(s.drop_first()[i - 1] == s[i]);
                assert(strip_forest(s)[i] == strip_forest(s.drop_first())[i - 1]);
            }
        }
    }
}

impl PCompV {
    /// The concrete kind of this persisted component.
    pub open spec fn pkind(self) -> ComponentKind {
        match self {
            PCompV::Transform { .. } => ComponentKind::Transform,
            PCompV::Render { .. } => ComponentKind::Render,
        }
    }

    /// The persisted type identifier of this component's kind.
    pub open spec fn type_uuid(self) -> u128 {
        match self {
            PCompV::Transform { .. } => TRANSFORM_TYPE_UUID,
            PCompV::Render { .. } => RENDER_TYPE_UUID,
        }
    }

    /// A component is encodable when its fields fit the format.
    pub open spec fn bounded(self) -> bool {
        match self {
            PCompV::Transform { local, world } => local.len() == 16 && world.len() == 16,
            PCompV::Render { object, skeleton } => encode_utf8(object).len()
                < 0x8000_0000_0000_0000 && encode_utf8(skeleton).len() < 0x8000_0000_0000_0000,
        }
    }
}

/// The partition discipline of a persisted components collection:
/// singleton kinds appear at most once and live in the singleton
/// partition, the multiplicity partition holds only kinds that allow
/// multiplicity.
pub open spec fn pcomps_wf(uniq: Seq<PCompV>, multi: Seq<PCompV>) -> bool {
    &&& forall|i: int|
        0 <= i < uniq.len() ==> crate::component::kind_is_singleton(
            (#[trigger] uniq[i]).pkind(),
        )
    &&& forall|i: int|
        0 <= i < multi.len() ==> !crate::component::kind_is_singleton(
            (#[trigger] multi[i]).pkind(),
        )
    &&& forall|i: int, j: int|
        0 <= i < j < uniq.len() ==> (#[trigger] uniq[i]).pkind() != (#[trigger] uniq[j]).pkind()
}

impl PEntityV {
    /// An entity is encodable when every persisted field fits the format.
    pub open spec fn bounded(self) -> bool
        decreases self,
    {
        &&& pcomps_wf(self.uniq, self.multi)
        &&& encode_utf8(self.name).len() < 0x8000_0000_0000_0000
        &&& self.children.len() < 0x1_0000_0000_0000_0000
        &&& self.uniq.len() < 0x1_0000_0000_0000_0000
        &&& self.multi.len() < 0x1_0000_0000_0000_0000
        &&& forall|i: int| 0 <= i < self.uniq.len() ==> (#[trigger] self.uniq[i]).bounded()
        &&& forall|i: int| 0 <= i < self.multi.len() ==> (#[trigger] self.multi[i]).bounded()
        &&& forall|i: int| 0 <= i < self.children.len() ==> (#[trigger] self.children[i]).bounded()
    }
}

// ---------------------------------------------------------------------------
// spec encoders
// ---------------------------------------------------------------------------

/// The encoding of a sequence of matrix entries.
pub open spec fn senc_mat(m: Seq<i64>) -> Seq<u8>
    decreases m.len(),
{
    if m.len() == 0 {
        Seq::empty()
    } else {
        senc_i64(m[0]) + senc_mat(m.drop_first())
    }
}

/// The encoding of one component's body.
pub open spec fn senc_comp_body(c: PCompV) -> Seq<u8> {
    match c {
        PCompV::Transform { local, world } => senc_mat(local) + senc_mat(world),
        PCompV::Render { object, skeleton } => senc_str(object) + senc_str(skeleton),
    }
}

/// The encoding of one polymorphic component: type identifier, then body.
pub open spec fn senc_comp(c: PCompV) -> Seq<u8> {
    senc_u128(c.type_uuid()) + senc_comp_body(c)
}

/// The encoding of a sequence of polymorphic components.
pub open spec fn senc_comp_seq(s: Seq<PCompV>) -> Seq<u8>
    decreases s.len(),
{
    if s.len() == 0 {
        Seq::empty()
    } else {
        senc_comp(s[0]) + senc_comp_seq(s.drop_first())
    }
}

/// The encoding of one entity.
pub open spec fn senc_entity(e: PEntityV) -> Seq<u8>
    decreases e,
{
    senc_str(e.name) + senc_u128(e.instance_id) + senc_u64(e.children.len() as u64)
        + senc_ent_seq(e.children) + senc_u64(e.uniq.len() as u64) + senc_comp_seq(e.uniq)
        + senc_u64(e.multi.len() as u64) + senc_comp_seq(e.multi)
}

/// The encoding of a sequence of entities.
pub open spec fn senc_ent_seq(s: Seq<PEntityV>) -> Seq<u8>
    decreases s,
{
    if s.len() == 0 {
        Seq::empty()
    } else {
        senc_entity(s[0]) + senc_ent_seq(s.drop_first())
    }
}

// ---------------------------------------------------------------------------
// spec decoders
// ---------------------------------------------------------------------------

/// Decode exactly `n` matrix entries.
pub open spec fn sdec_mat(s: Seq<u8>, n: nat) -> Option<(Seq<i64>, int)>
    decreases n,
{
    if n == 0 {
        Some((Seq::empty(), 0int))
    } else {
        match sdec_i64(s) {
            Some((v, k)) => match sdec_mat(s.skip(k), (n - 1) as nat) {
                Some((vs, k2)) => Some((seq![v] + vs, k + k2)),
                None => None,
            },
            None => None,
        }
    }
}

/// Decode one component body of the given kind.
pub open spec fn sdec_comp_body(s: Seq<u8>, k: ComponentKind) -> Option<(PCompV, int)> {
    match k {
        ComponentKind::Transform => match sdec_mat(s, 16) {
            Some((local, k1)) => match sdec_mat(s.skip(k1), 16) {
                Some((world, k2)) => Some((PCompV::Transform { local, world }, k1 + k2)),
                None => None,
            },
            None => None,
        },
        ComponentKind::Render => match sdec_str(s) {
            Some((object, k1)) => match sdec_str(s.skip(k1)) {
                Some((skeleton, k2)) => Some((PCompV::Render { object, skeleton }, k1 + k2)),
                None => None,
            },
            None => None,
        },
    }
}

/// The kind a persisted type identifier names, as the start-up registry
/// resolves it.
pub open spec fn skind_of_uuid(u: u128) -> Option<ComponentKind> {
    if u == TRANSFORM_TYPE_UUID {
        Some(ComponentKind::Transform)
    } else if u == RENDER_TYPE_UUID {
        Some(ComponentKind::Render)
    } else {
        None
    }
}

/// Decode one polymorphic component: the type identifier resolves the
/// concrete kind; an unregistered identifier is fatal.
pub open spec fn sdec_comp(s: Seq<u8>) -> Option<(PCompV, int)> {
    match sdec_u128(s) {
        Some((u, k0)) => match skind_of_uuid(u) {
            Some(kind) => match sdec_comp_body(s.skip(k0), kind) {
                Some((c, k1)) => Some((c, k0 + k1)),
                None => None,
            },
            None => None,
        },
        None => None,
    }
}

/// Decode exactly `n` polymorphic components.
pub open spec fn sdec_comp_seq(s: Seq<u8>, n: nat) -> Option<(Seq<PCompV>, int)>
    decreases n,
{
    if n == 0 {
        Some((Seq::empty(), 0int))
    } else {
        match sdec_comp(s) {
            Some((c, k)) => match sdec_comp_seq(s.skip(k), (n - 1) as nat) {
                Some((cs, k2)) => Some((seq![c] + cs, k + k2)),
                None => None,
            },
            None => None,
        }
    }
}

/// Decode one entity: its name, then the later fields in stages.
pub open spec fn sdec_entity(s: Seq<u8>) -> Option<(PEntityV, int)>
    decreases s.len(), 4nat,
{
    match sdec_str(s) {
        Some((name, k0)) => sdec_ent_children(s, name, k0),
        None => None,
    }
}

/// Stage two: the 128-bit identity, the child count, and the children,
/// starting `k0` bytes into the stream.
pub open spec fn sdec_ent_children(s: Seq<u8>, name: Seq<char>, k0: int) -> Option<(
    PEntityV,
    int,
)>
    decreases s.len(), 3nat,
{
    if !(8 <= k0 && k0 + 24 <= s.len()) {
        None
    } else {
        match sdec_u128(s.skip(k0)) {
            Some((uuid, _)) => match sdec_u64(s.skip(k0 + 16)) {
                Some((nc, _)) => match sdec_ent_seq(s.skip(k0 + 24), nc as nat) {
                    Some((children, kc)) => sdec_ent_comps(s, name, uuid, children, k0 + 24 + kc),
                    None => None,
                },
                None => None,
            },
            None => None,
        }
    }
}

/// Stage three: the singleton partition, `k` bytes into the stream.
pub open spec fn sdec_ent_comps(
    s: Seq<u8>,
    name: Seq<char>,
    uuid: u128,
    children: Seq<PEntityV>,
    k: int,
) -> Option<(PEntityV, int)>
    decreases s.len(), 2nat,
{
    if !(0 <= k && k + 8 <= s.len()) {
        None
    } else {
        match sdec_u64(s.skip(k)) {
            Some((nu, _)) => match sdec_comp_seq(s.skip(k + 8), nu as nat) {
                Some((uniq, ku)) => sdec_ent_multi(s, name, uuid, children, uniq, k + 8 + ku),
                None => None,
            },
            None => None,
        }
    }
}

/// Stage four: the multiplicity partition, `k` bytes into the stream.
pub open spec fn sdec_ent_multi(
    s: Seq<u8>,
    name: Seq<char>,
    uuid: u128,
    children: Seq<PEntityV>,
    uniq: Seq<PCompV>,
    k: int,
) -> Option<(PEntityV, int)>
    decreases s.len(), 1nat,
{
    if !(0 <= k && k + 8 <= s.len()) {
        None
    } else {
        match sdec_u64(s.skip(k)) {
            Some((nm, _)) => match sdec_comp_seq(s.skip(k + 8), nm as nat) {
                Some((multi, km)) => {
                    if pcomps_wf(uniq, multi) {
                        Some((
                            PEntityV { name, instance_id: uuid, children, uniq, multi },
                            k + 8 + km,
                        ))
                    } else {
                        None
                    }
                },
                None => None,
            },
            None => None,
        }
    }
}

/// Decode exactly `n` entities.
pub open spec fn sdec_ent_seq(s: Seq<u8>, n: nat) -> Option<(Seq<PEntityV>, int)>
    decreases s.len(), 5nat, n,
{
    if n == 0 {
        Some((Seq::empty(), 0int))
    } else {
        match sdec_entity(s) {
            Some((e, k)) => {
                if k <= 0 || k > s.len() {
                    None
                } else {
                    match sdec_ent_seq(s.skip(k), (n - 1) as nat) {
                        Some((es, k2)) => Some((seq![e] + es, k + k2)),
                        None => None,
                    }
                }
            },
            None => None,
        }
    }
}

// ---------------------------------------------------------------------------
// round trip
// ---------------------------------------------------------------------------

/// Matrix entries decode back from their encoding, whatever follows.
proof fn lemma_rt_mat(m: Seq<i64>, rest: Seq<u8>)
    ensures
        sdec_mat(senc_mat(m) + rest, m.len()) == Some((m, senc_mat(m).len() as int)),
        senc_mat(m).len() == 8 * m.len(),
    decreases m.len(),
{
    if m.len() == 0 {
        assert(senc_mat(m) + rest =~= rest);
        assert(sdec_mat(rest, 0) == Some((Seq::<i64>::empty(), 0int)));
        assert(m =~= Seq::<i64>::empty());
    } else {
        let s = senc_mat(m) + rest;
        let tail = senc_mat(m.drop_first()) + rest;
        assert(s =~= senc_i64(m[0]) + tail);
        lemma_i64_round_trip(m[0], tail);
        assert(s.skip(8) =~= tail);
        lemma_rt_mat(m.drop_first(), rest);
        assert(seq![m[0]] + m.drop_first() =~= m);
    }
}

/// One component decodes back from its encoding, whatever follows.
#[verifier::rlimit(100)]
proof fn lemma_rt_comp(c: PCompV, rest: Seq<u8>)
    requires
        c.bounded(),
    ensures
        sdec_comp(senc_comp(c) + rest) == Some((c, senc_comp(c).len() as int)),
        senc_comp(c).len() >= 16,
{
    let s = senc_comp(c) + rest;
    let body = senc_comp_body(c);
    assert(s =~= senc_u128(c.type_uuid()) + (body + rest));
    lemma_u128_round_trip(c.type_uuid(), body + rest);
    assert(s.skip(16) =~= body + rest);
    match c {
        PCompV::Transform { local, world } => {
            assert(skind_of_uuid(c.type_uuid()) == Some(ComponentKind::Transform));
            let b = body + rest;
            assert(b =~= senc_mat(local) + (senc_mat(world) + rest));
            lemma_rt_mat(local, senc_mat(world) + rest);
            assert(b.skip(senc_mat(local).len() as int) =~= senc_mat(world) + rest);
            lemma_rt_mat(world, rest);
        },
        PCompV::Render { object, skeleton } => {
            assert(skind_of_uuid(c.type_uuid()) == Some(ComponentKind::Render));
            let b = body + rest;
            assert(b =~= senc_str(object) + (senc_str(skeleton) + rest));
            lemma_str_round_trip(object, senc_str(skeleton) + rest);
            assert(b.skip(senc_str(object).len() as int) =~= senc_str(skeleton) + rest);
            lemma_str_round_trip(skeleton, rest);
        },
    }
}

/// A component sequence decodes back from its encoding, whatever follows.
#[verifier::rlimit(100)]
#[verifier::spinoff_prover]
proof fn lemma_rt_comp_seq(s: Seq<PCompV>, rest: Seq<u8>)
    requires
        forall|i: int| 0 <= i < s.len() ==> (#[trigger] s[i]).bounded(),
    ensures
        sdec_comp_seq(senc_comp_seq(s) + rest, s.len()) == Some((
            s,
            senc_comp_seq(s).len() as int,
        )),
    decreases s.len(),
{
    if s.len() == 0 {
        assert(senc_comp_seq(s) + rest =~= rest);
        assert(s =~= Seq::<PCompV>::empty());
    } else {
        let whole = senc_comp_seq(s) + rest;
        let tail = senc_comp_seq(s.drop_first()) + rest;
        assert(whole =~= senc_comp(s[0]) + tail);
        lemma_rt_comp(s[0], tail);
        assert(whole.skip(senc_comp(s[0]).len() as int) =~= tail);
        assert(forall|i: int| 0 <= i < s.len() - 1 ==> #[trigger] s.drop_first()[i] == s[i + 1]);
        lemma_rt_comp_seq(s.drop_first(), rest);
        assert(seq![s[0]] + s.drop_first() =~= s);
    }
}

/// An entity decodes back from its encoding, whatever follows: the format
/// is an unambiguous prefix code, which is the heart of the binary
/// round-trip property.
/// Skipping a leading block of a concatenation leaves the rest.
proof fn lemma_skip_concat(a: Seq<u8>, b: Seq<u8>)
    ensures
        (a + b).skip(a.len() as int) == b,
        (a + b).len() == a.len() + b.len(),
{
    assert((a + b).skip(a.len() as int) =~= b);
}

/// Two successive skips are one combined skip.
proof fn lemma_skip_skip(s: Seq<u8>, a: int, b: int)
    requires
        0 <= a,
        0 <= b,
        a + b <= s.len(),
    ensures
        s.skip(a).skip(b) == s.skip(a + b),
{
    assert(s.skip(a).skip(b) =~= s.skip(a + b));
}

/// Unfold stage four under its hypotheses.
proof fn lemma_stage_multi(
    s: Seq<u8>,
    name: Seq<char>,
    uuid: u128,
    children: Seq<PEntityV>,
    uniq: Seq<PCompV>,
    multi: Seq<PCompV>,
    k: int,
    km: int,
)
    requires
        0 <= k,
        k + 8 <= s.len(),
        multi.len() < 0x1_0000_0000_0000_0000,
        pcomps_wf(uniq, multi),
        sdec_u64(s.skip(k)) == Some(((multi.len() as u64), 8int)),
        sdec_comp_seq(s.skip(k + 8), multi.len()) == Some((multi, km)),
    ensures
        sdec_ent_multi(s, name, uuid, children, uniq, k) == Some((
            PEntityV { name, instance_id: uuid, children, uniq, multi },
            k + 8 + km,
        )),
{
    assert((multi.len() as u64) as nat == multi.len());
}

/// Unfold stage three under its hypotheses.
proof fn lemma_stage_comps(
    s: Seq<u8>,
    name: Seq<char>,
    uuid: u128,
    children: Seq<PEntityV>,
    uniq: Seq<PCompV>,
    k: int,
    ku: int,
)
    requires
        0 <= k,
        k + 8 <= s.len(),
        uniq.len() < 0x1_0000_0000_0000_0000,
        sdec_u64(s.skip(k)) == Some(((uniq.len() as u64), 8int)),
        sdec_comp_seq(s.skip(k + 8), uniq.len()) == Some((uniq, ku)),
    ensures
        sdec_ent_comps(s, name, uuid, children, k) == sdec_ent_multi(
            s,
            name,
            uuid,
            children,
            uniq,
            k + 8 + ku,
        ),
{
    assert((uniq.len() as u64) as nat == uniq.len());
}

/// Unfold stage two under its hypotheses.
proof fn lemma_stage_children(
    s: Seq<u8>,
    name: Seq<char>,
    uuid: u128,
    children: Seq<PEntityV>,
    k0: int,
    kc: int,
)
    requires
        8 <= k0,
        k0 + 24 <= s.len(),
        children.len() < 0x1_0000_0000_0000_0000,
        sdec_u128(s.skip(k0)) == Some((uuid, 16int)),
        sdec_u64(s.skip(k0 + 16)) == Some(((children.len() as u64), 8int)),
        sdec_ent_seq(s.skip(k0 + 24), children.len()) == Some((children, kc)),
    ensures
        sdec_ent_children(s, name, k0) == sdec_ent_comps(s, name, uuid, children, k0 + 24 + kc),
{
    assert((children.len() as u64) as nat == children.len());
}

/// Unfold stage one under its hypotheses.
proof fn lemma_stage_entity(s: Seq<u8>, name: Seq<char>, k0: int)
    requires
        sdec_str(s) == Some((name, k0)),
    ensures
        sdec_entity(s) == sdec_ent_children(s, name, k0),
{
}

/// The entity encoding, re-associated into nested form, with its length.
#[verifier::rlimit(100)]
proof fn lemma_entity_assoc(e: PEntityV, rest: Seq<u8>)
    ensures
        senc_entity(e) + rest == senc_str(e.name) + (senc_u128(e.instance_id) + (senc_u64(
            e.children.len() as u64,
        ) + (senc_ent_seq(e.children) + (senc_u64(e.uniq.len() as u64) + (senc_comp_seq(e.uniq)
            + (senc_u64(e.multi.len() as u64) + (senc_comp_seq(e.multi) + rest))))))),
        senc_entity(e).len() == senc_str(e.name).len() + 40 + senc_ent_seq(e.children).len()
            + senc_comp_seq(e.uniq).len() + senc_comp_seq(e.multi).len(),
{
    assert(senc_entity(e) + rest =~= senc_str(e.name) + (senc_u128(e.instance_id) + (senc_u64(
        e.children.len() as u64,
    ) + (senc_ent_seq(e.children) + (senc_u64(e.uniq.len() as u64) + (senc_comp_seq(e.uniq) + (
    senc_u64(e.multi.len() as u64) + (senc_comp_seq(e.multi) + rest))))))));
}

/// Round trip, stage one: the name and the identity.
#[verifier::rlimit(100)]
#[verifier::spinoff_prover]
proof fn lemma_rte_half1a(e: PEntityV, rest: Seq<u8>)
    requires
        e.bounded(),
    ensures
        ({
            let whole = senc_entity(e) + rest;
            let k0 = senc_str(e.name).len() as int;
            &&& 8 <= k0
            &&& whole.skip(k0 + 16) == senc_u64(e.children.len() as u64) + (senc_ent_seq(
                e.children,
            ) + (senc_u64(e.uniq.len() as u64) + (senc_comp_seq(e.uniq) + (senc_u64(
                e.multi.len() as u64,
            ) + (senc_comp_seq(e.multi) + rest)))))
            &&& sdec_str(whole) == Some((e.name, k0))
            &&& sdec_u128(whole.skip(k0)) == Some((e.instance_id, 16int))
        }),
    decreases e, 0nat,
{
    let r7 = rest;
    let r6 = senc_comp_seq(e.multi) + r7;
    let r5 = senc_u64(e.multi.len() as u64) + r6;
    let r4 = senc_comp_seq(e.uniq) + r5;
    let r3 = senc_u64(e.uniq.len() as u64) + r4;
    let r2 = senc_ent_seq(e.children) + r3;
    let r1 = senc_u64(e.children.len() as u64) + r2;
    let r0 = senc_u128(e.instance_id) + r1;
    let whole = senc_entity(e) + rest;
    lemma_entity_assoc(e, rest);
    assert(whole == senc_str(e.name) + r0);
    lemma_str_round_trip(e.name, r0);
    lemma_skip_concat(senc_str(e.name), r0);
    let k0 = senc_str(e.name).len() as int;
    assert(whole.skip(k0) == r0);
    lemma_u128_round_trip(e.instance_id, r1);
    lemma_skip_concat(senc_u128(e.instance_id), r1);
    assert(whole.skip(k0).skip(16) == r1);
    lemma_skip_skip(whole, k0, 16);
}

/// Round trip, stage two: the child count and the children.
#[verifier::rlimit(100)]
#[verifier::spinoff_prover]
proof fn lemma_rte_half1b(e: PEntityV, rest: Seq<u8>)
    requires
        e.bounded(),
    ensures
        ({
            let whole = senc_entity(e) + rest;
            let k0 = senc_str(e.name).len() as int;
            let kc = senc_ent_seq(e.children).len() as int;
            &&& 8 <= k0
            &&& 0 <= kc
            &&& whole.len() == senc_entity(e).len() + rest.len()
            &&& senc_entity(e).len() == k0 + 40 + kc + senc_comp_seq(e.uniq).len()
                + senc_comp_seq(e.multi).len()
            &&& whole.skip(k0 + 24 + kc) == senc_u64(e.uniq.len() as u64) + (senc_comp_seq(e.uniq)
                + (senc_u64(e.multi.len() as u64) + (senc_comp_seq(e.multi) + rest)))
            &&& sdec_entity(whole) == sdec_ent_comps(
                whole,
                e.name,
                e.instance_id,
                e.children,
                k0 + 24 + kc,
            )
        }),
    decreases e, 1nat,
{
    let r7 = rest;
    let r6 = senc_comp_seq(e.multi) + r7;
    let r5 = senc_u64(e.multi.len() as u64) + r6;
    let r4 = senc_comp_seq(e.uniq) + r5;
    let r3 = senc_u64(e.uniq.len() as u64) + r4;
    let r2 = senc_ent_seq(e.children) + r3;
    let r1 = senc_u64(e.children.len() as u64) + r2;
    let whole = senc_entity(e) + rest;
    let k0 = senc_str(e.name).len() as int;
    lemma_rte_half1a(e, rest);
    lemma_entity_assoc(e, rest);
    assert(whole.skip(k0 + 16) == r1);
    lemma_u64_round_trip(e.children.len() as u64, r2);
    lemma_skip_concat(senc_u64(e.children.len() as u64), r2);
    assert(whole.skip(k0 + 16).skip(8) == r2);
    lemma_skip_skip(whole, k0 + 16, 8);
    lemma_rt_ent_seq(e.children, r3);
    lemma_skip_concat(senc_ent_seq(e.children), r3);
    let kc = senc_ent_seq(e.children).len() as int;
    assert((e.children.len() as u64) as nat == e.children.len());
    assert(whole.skip(k0 + 24).skip(kc) == r3);
    lemma_skip_skip(whole, k0 + 24, kc);
    lemma_stage_children(whole, e.name, e.instance_id, e.children, k0, kc);
    lemma_stage_entity(whole, e.name, k0);
}

/// Second half of the entity round trip: the component partitions.
#[verifier::rlimit(100)]
#[verifier::spinoff_prover]
proof fn lemma_rte_half2(e: PEntityV, rest: Seq<u8>, k: int)
    requires
        e.bounded(),
        0 <= k,
        (senc_entity(e) + rest).len() == k + 16 + senc_comp_seq(e.uniq).len() + senc_comp_seq(
            e.multi,
        ).len() + rest.len(),
        (senc_entity(e) + rest).skip(k) == senc_u64(e.uniq.len() as u64) + (senc_comp_seq(e.uniq)
            + (senc_u64(e.multi.len() as u64) + (senc_comp_seq(e.multi) + rest))),
    ensures
        sdec_ent_comps(senc_entity(e) + rest, e.name, e.instance_id, e.children, k) == Some((
            e,
            k + 16 + senc_comp_seq(e.uniq).len() + senc_comp_seq(e.multi).len(),
        )),
{
    let whole = senc_entity(e) + rest;
    let r7 = rest;
    let r6 = senc_comp_seq(e.multi) + r7;
    let r5 = senc_u64(e.multi.len() as u64) + r6;
    let r4 = senc_comp_seq(e.uniq) + r5;
    let r3 = senc_u64(e.uniq.len() as u64) + r4;
    assert(whole.skip(k) == r3);
    lemma_u64_round_trip(e.uniq.len() as u64, r4);
    lemma_skip_concat(senc_u64(e.uniq.len() as u64), r4);
    assert(whole.skip(k).skip(8) == r4);
    lemma_skip_skip(whole, k, 8);
    lemma_rt_comp_seq(e.uniq, r5);
    lemma_skip_concat(senc_comp_seq(e.uniq), r5);
    let ku = senc_comp_seq(e.uniq).len() as int;
    assert((e.uniq.len() as u64) as nat == e.uniq.len());
    assert(whole.skip(k + 8).skip(ku) == r5);
    lemma_skip_skip(whole, k + 8, ku);
    lemma_u64_round_trip(e.multi.len() as u64, r6);
    lemma_skip_concat(senc_u64(e.multi.len() as u64), r6);
    assert(whole.skip(k + 8 + ku).skip(8) == r6);
    lemma_skip_skip(whole, k + 8 + ku, 8);
    lemma_rt_comp_seq(e.multi, r7);
    let km = senc_comp_seq(e.multi).len() as int;
    assert((e.multi.len() as u64) as nat == e.multi.len());
    lemma_stage_multi(
        whole,
        e.name,
        e.instance_id,
        e.children,
        e.uniq,
        e.multi,
        k + 8 + ku,
        km,
    );
    assert(e == (PEntityV {
        name: e.name,
        instance_id: e.instance_id,
        children: e.children,
        uniq: e.uniq,
        multi: e.multi,
    }));
    lemma_stage_comps(whole, e.name, e.instance_id, e.children, e.uniq, k, ku);
}

/// An entity decodes back from its encoding, whatever follows: the format
/// is an unambiguous prefix code, which is the heart of the binary
/// round-trip property.
#[verifier::rlimit(100)]
#[verifier::spinoff_prover]
pub proof fn lemma_round_trip_entity(e: PEntityV, rest: Seq<u8>)
    requires
        e.bounded(),
    ensures
        sdec_entity(senc_entity(e) + rest) == Some((e, senc_entity(e).len() as int)),
        senc_entity(e).len() >= 8,
    decreases e, 2nat,
{
    lemma_rte_half1b(e, rest);
    let k0 = senc_str(e.name).len() as int;
    let kc = senc_ent_seq(e.children).len() as int;
    lemma_rte_half2(e, rest, k0 + 24 + kc);
}

/// An entity sequence decodes back from its encoding, whatever follows.
#[verifier::rlimit(100)]
#[verifier::spinoff_prover]
pub proof fn lemma_rt_ent_seq(s: Seq<PEntityV>, rest: Seq<u8>)
    requires
        forall|i: int| 0 <= i < s.len() ==> (#[trigger] s[i]).bounded(),
    ensures
        sdec_ent_seq(senc_ent_seq(s) + rest, s.len()) == Some((s, senc_ent_seq(s).len() as int)),
    decreases s, 2nat,
{
    if s.len() == 0 {
        assert(senc_ent_seq(s) + rest =~= rest);
        assert(s =~= Seq::<PEntityV>::empty());
    } else {
        let whole = senc_ent_seq(s) + rest;
        let tail = senc_ent_seq(s.drop_first()) + rest;
        assert(whole =~= senc_entity(s[0]) + tail);
        lemma_round_trip_entity(s[0], tail);
        let k = senc_entity(s[0]).len() as int;
        lemma_skip_concat(senc_entity(s[0]), tail);
        assert(k > 0);
        assert(k <= whole.len());
        assert(whole.skip(k) == tail);
        assert(forall|i: int| 0 <= i < s.len() - 1 ==> #[trigger] s.drop_first()[i] == s[i + 1]);
        lemma_rt_ent_seq(s.drop_first(), rest);
        assert(seq![s[0]] + s.drop_first() =~= s);
    }
}

// ---------------------------------------------------------------------------
// executable encoder
// ---------------------------------------------------------------------------

/// Append the encoding of the matrix entries.
fn encode_mat(out: &mut Vec<u8>, m: &Mat4)
    ensures
        final(out)@ == old(out)@ + senc_mat(m.m@),
{
    let ghost base = out@;
    let mut i: usize = 0;
    while i < m.m.len()
        invariant
            i <= m.m@.len(),
            out@ =~= base + senc_mat(m.m@.take(i as int)),
        decreases m.m@.len() - i,
    {
        encode_i64(out, m.m[i]);
        proof {
            lemma_senc_mat_push(m.m@.take(i as int), m.m@[i as int]);
            assert(m.m@.take(i + 1 as int) =~= m.m@.take(i as int).push(m.m@[i as int]));
        }
        i = i + 1;
    }
    proof {
        assert(m.m@.take(m.m@.len() as int) =~= m.m@);
    }
}

/// Matrix encodings extend one entry at a time.
proof fn lemma_senc_mat_push(m: Seq<i64>, v: i64)
    ensures
        senc_mat(m.push(v)) == senc_mat(m) + senc_i64(v),
    decreases m.len(),
{
    if m.len() == 0 {
        assert(m.push(v)[0] == v);
        assert(m.push(v).drop_first() =~= m);
        assert(senc_mat(m.push(v)) =~= senc_mat(m) + senc_i64(v));
    } else {
        assert(m.push(v)[0] == m[0]);
        assert(m.push(v).drop_first() =~= m.drop_first().push(v));
        lemma_senc_mat_push(m.drop_first(), v);
        assert(senc_mat(m.push(v)) =~= senc_mat(m) + senc_i64(v));
    }
}

/// Append the encoding of one polymorphic component.
fn encode_comp(out: &mut Vec<u8>, c: &Component)
    ensures
        final(out)@ == old(out)@ + senc_comp(strip_comp(c@)),
{
    match c {
        Component::Transform(t) => {
            encode_u128(out, TRANSFORM_TYPE_UUID);
            encode_mat(out, &t.local_matrix);
            encode_mat(out, &t.world_matrix);
            assert(final(out)@ =~= old(out)@ + senc_comp(strip_comp(c@)));
        },
        Component::Render(r) => {
            encode_u128(out, RENDER_TYPE_UUID);
            encode_string(out, &r.object.path);
            encode_string(out, &r.skeleton.path);
            assert(final(out)@ =~= old(out)@ + senc_comp(strip_comp(c@)));
        },
    }
}

/// Component-sequence encodings extend one element at a time.
proof fn lemma_senc_comp_seq_push(s: Seq<PCompV>, c: PCompV)
    ensures
        senc_comp_seq(s.push(c)) == senc_comp_seq(s) + senc_comp(c),
    decreases s.len(),
{
    if s.len() == 0 {
        assert(s.push(c)[0] == c);
        assert(s.push(c).drop_first() =~= s);
        assert(senc_comp_seq(s.push(c)) =~= senc_comp_seq(s) + senc_comp(c));
    } else {
        assert(s.push(c)[0] == s[0]);
        assert(s.push(c).drop_first() =~= s.drop_first().push(c));
        lemma_senc_comp_seq_push(s.drop_first(), c);
        assert(senc_comp_seq(s.push(c)) =~= senc_comp_seq(s) + senc_comp(c));
    }
}

/// Append the encoding of one component partition: the element count,
/// then each element.
fn encode_comp_partition(out: &mut Vec<u8>, v: &Vec<Component>)
    ensures
        final(out)@ == old(out)@ + senc_u64(v@.len() as u64) + senc_comp_seq(
            strip_comps(comps_view(v@)),
        ),
{
    let ghost base = out@;
    let ghost pcs = strip_comps(comps_view(v@));
    encode_u64(out, v.len() as u64);
    let mut i: usize = 0;
    while i < v.len()
        invariant
            i <= v@.len(),
            pcs == strip_comps(comps_view(v@)),
            pcs.len() == v@.len(),
            out@ =~= base + senc_u64(v@.len() as u64) + senc_comp_seq(pcs.take(i as int)),
        decreases v@.len() - i,
    {
        proof {
            assert(pcs[i as int] == strip_comp((v@[i as int])@));
        }
        encode_comp(out, &v[i]);
        proof {
            lemma_senc_comp_seq_push(pcs.take(i as int), pcs[i as int]);
            assert(pcs.take(i + 1 as int) =~= pcs.take(i as int).push(pcs[i as int]));
        }
        i = i + 1;
    }
    proof {
        assert(pcs.take(pcs.len() as int) =~= pcs);
    }
}

/// Entity-sequence encodings extend one element at a time.
proof fn lemma_senc_ent_seq_push(s: Seq<PEntityV>, e: PEntityV)
    ensures
        senc_ent_seq(s.push(e)) == senc_ent_seq(s) + senc_entity(e),
    decreases s.len(),
{
    if s.len() == 0 {
        assert(s.push(e)[0] == e);
        assert(s.push(e).drop_first() =~= s);
        assert(senc_ent_seq(s.push(e)) =~= senc_ent_seq(s) + senc_entity(e));
    } else {
        assert(s.push(e)[0] == s[0]);
        assert(s.push(e).drop_first() =~= s.drop_first().push(e));
        lemma_senc_ent_seq_push(s.drop_first(), e);
        assert(senc_ent_seq(s.push(e)) =~= senc_ent_seq(s) + senc_entity(e));
    }
}

/// Append the binary encoding of a whole entity subtree.
pub fn serialize_binary(ent: &Entity, out: &mut Vec<u8>)
    ensures
        final(out)@ == old(out)@ + senc_entity(strip_ent(ent@)),
    decreases ent,
{
    let ghost base = out@;
    let ghost pe = strip_ent(ent@);
    encode_string(out, &ent.name);
    encode_u128(out, ent.instance_id);
    encode_u64(out, ent.children.len() as u64);
    proof {
        crate::entity::lemma_forest_view(ent.children@);
        lemma_strip_forest(crate::entity::forest_view(ent.children@));
        assert(pe.children.len() == ent.children@.len());
    }
    let mut i: usize = 0;
    while i < ent.children.len()
        invariant
            i <= ent.children@.len(),
            pe == strip_ent(ent@),
            pe.children.len() == ent.children@.len(),
            forall|j: int|
                0 <= j < ent.children@.len() ==> pe.children[j] == strip_ent(
                    (#[trigger] ent.children@[j])@,
                ),
            out@ =~= base + senc_str(ent.name@) + senc_u128(ent.instance_id) + senc_u64(
                ent.children@.len() as u64,
            ) + senc_ent_seq(pe.children.take(i as int)),
        decreases ent.children@.len() - i,
    {
        proof {
            assert(decreases_to!(ent => ent.children));
            assert(decreases_to!(ent.children => ent.children@));
            assert(decreases_to!(ent.children@ => ent.children@[i as int]));
        }
        serialize_binary(&ent.children[i], out);
        proof {
            lemma_senc_ent_seq_push(pe.children.take(i as int), pe.children[i as int]);
            assert(pe.children.take(i + 1 as int) =~= pe.children.take(i as int).push(
                pe.children[i as int],
            ));
        }
        i = i + 1;
    }
    proof {
        assert(pe.children.take(pe.children.len() as int) =~= pe.children);
    }
    encode_comp_partition(out, &ent.components.uniq_comp);
    encode_comp_partition(out, &ent.components.multi_comp);
    proof {
        assert(final(out)@ =~= base + senc_entity(pe));
    }
}

// ---------------------------------------------------------------------------
// executable decoder
// ---------------------------------------------------------------------------

/// Skipping within a stream advances the cursor.
proof fn lemma_stream_skip(data: Seq<u8>, pos: int, k: int)
    requires
        0 <= pos,
        0 <= k,
        pos + k <= data.len(),
    ensures
        stream_from(data, pos).skip(k) == stream_from(data, pos + k),
{
    assert(stream_from(data, pos).skip(k) =~= stream_from(data, pos + k));
}

/// Decode sixteen matrix entries.
fn decode_mat(data: &Vec<u8>, pos: &mut usize) -> (r: Option<Mat4>)
    requires
        *old(pos) <= data@.len(),
    ensures
        *final(pos) <= data@.len(),
        *old(pos) <= *final(pos),
        match r {
            Some(m) => m.wf() && sdec_mat(stream_from(data@, *old(pos) as int), 16) == Some((
                m.m@,
                *final(pos) - *old(pos),
            )),
            None => sdec_mat(stream_from(data@, *old(pos) as int), 16) is None && *final(pos)
                == *old(pos),
        },
{
    let start: usize = *pos;
    let ghost s0 = stream_from(data@, start as int);
    let mut m: Vec<i64> = Vec::new();
    let mut i: usize = 0;
    while i < 16
        invariant
            *old(pos) == start,
            i <= 16,
            start <= *pos <= data@.len(),
            m@.len() == i as int,
            s0 == stream_from(data@, start as int),
            sdec_mat(s0, 16) == (match sdec_mat(
                stream_from(data@, *pos as int),
                (16 - i) as nat,
            ) {
                Some((vs, k)) => Some((m@ + vs, (*pos - start) + k)),
                None => None::<(Seq<i64>, int)>,
            }),
        decreases 16 - i,
    {
        let ghost scur = stream_from(data@, *pos as int);
        let ghost pos_before = *pos;
        match decode_i64(data, pos) {
            Some(v) => {
                m.push(v);
                proof {
                    lemma_stream_skip(data@, pos_before as int, 8);
                    assert(scur.skip(8) == stream_from(data@, pos_before + 8));
                    assert(sdec_mat(scur, (16 - i) as nat) == (match sdec_mat(
                        scur.skip(8),
                        (15 - i) as nat,
                    ) {
                        Some((vs, k2)) => Some((seq![v] + vs, 8 + k2)),
                        None => None::<(Seq<i64>, int)>,
                    }));
                    assert forall|vs: Seq<i64>| true implies m@ + vs == m@.drop_last() + (
                    seq![v] + vs) by {
                        assert(m@ + vs =~= m@.drop_last() + (seq![v] + vs));
                    }
                }
                i = i + 1;
            },
            None => {
                proof {
                    assert(sdec_mat(scur, (16 - i) as nat) is None);
                }
                *pos = start;
                return None;
            },
        }
    }
    proof {
        assert(sdec_mat(stream_from(data@, *pos as int), 0nat) == Some((
            Seq::<i64>::empty(),
            0int,
        )));
        assert(m@ + Seq::<i64>::empty() =~= m@);
    }
    Some(Mat4 { m })
}

/// Decode one polymorphic component, giving it the fresh runtime handle
/// `cid`.
fn decode_comp(data: &Vec<u8>, pos: &mut usize, cid: u64) -> (r: Option<Component>)
    requires
        *old(pos) <= data@.len(),
    ensures
        *old(pos) <= *final(pos) <= data@.len(),
        match r {
            Some(c) => c@.wf() && sdec_comp(stream_from(data@, *old(pos) as int)) == Some((
                strip_comp(c@),
                *final(pos) - *old(pos),
            )),
            None => sdec_comp(stream_from(data@, *old(pos) as int)) is None && *final(pos)
                == *old(pos),
        },
{
    let start: usize = *pos;
    let ghost s0 = stream_from(data@, start as int);
    match decode_u128(data, pos) {
        Some(u) => {
            proof {
                lemma_stream_skip(data@, start as int, 16);
            }
            if u == TRANSFORM_TYPE_UUID {
                let ghost p1 = *pos;
                match decode_mat(data, pos) {
                    Some(local) => {
                        proof {
                            lemma_stream_skip(data@, p1 as int, *pos - p1);
                        }
                        match decode_mat(data, pos) {
                            Some(world) => {
                                let c = Component::Transform(
                                    TransformComponent {
                                        id: cid,
                                        local_matrix: local,
                                        world_matrix: world,
                                    },
                                );
                                assert(sdec_comp(s0) == Some((
                                    strip_comp(c@),
                                    *pos - start as int,
                                )));
                                Some(c)
                            },
                            None => {
                                *pos = start;
                                None
                            },
                        }
                    },
                    None => {
                        *pos = start;
                        None
                    },
                }
            } else if u == RENDER_TYPE_UUID {
                let ghost p1 = *pos;
                match decode_string(data, pos) {
                    Some(object) => {
                        proof {
                            lemma_stream_skip(data@, p1 as int, *pos - p1);
                        }
                        match decode_string(data, pos) {
                            Some(skeleton) => {
                                let c = Component::Render(
                                    RenderComponent {
                                        id: cid,
                                        object: ExtRes { path: object },
                                        skeleton: ExtRes { path: skeleton },
                                    },
                                );
                                assert(sdec_comp(s0) == Some((
                                    strip_comp(c@),
                                    *pos - start as int,
                                )));
                                Some(c)
                            },
                            None => {
                                *pos = start;
                                None
                            },
                        }
                    },
                    None => {
                        *pos = start;
                        None
                    },
                }
            } else {
                proof {
                    assert(skind_of_uuid(u) is None);
                }
                *pos = start;
                None
            }
        },
        None => None,
    }
}

/// Decode one component partition: the count, then the elements, each
/// with a fresh runtime handle drawn from `idc`.
fn decode_comp_partition(data: &Vec<u8>, pos: &mut usize, idc: &mut u64) -> (r: Option<
    Vec<Component>,
>)
    requires
        *old(pos) <= data@.len(),
    ensures
        *old(pos) <= *final(pos) <= data@.len(),
        *final(idc) >= *old(idc),
        ({
            let st = stream_from(data@, *old(pos) as int);
            match r {
                Some(v) => match sdec_u64(st) {
                    Some((n, _)) => v@.len() == n as nat && sdec_comp_seq(st.skip(8), n as nat)
                        == Some((
                        strip_comps(comps_view(v@)),
                        *final(pos) - *old(pos) - 8,
                    )) && (forall|j: int| 0 <= j < v@.len() ==> (#[trigger] comps_view(v@)[j]).wf()),
                    None => false,
                },
                None => (match sdec_u64(st) {
                    Some((n, _)) => sdec_comp_seq(st.skip(8), n as nat) is None,
                    None => true,
                }) && *final(pos) == *old(pos),
            }
        }),
{
    let start: usize = *pos;
    let ghost s0 = stream_from(data@, start as int);
    match decode_u64(data, pos) {
        Some(n) => {
            let ghost sb = stream_from(data@, *pos as int);
            proof {
                lemma_stream_skip(data@, start as int, 8);
                assert(sb == s0.skip(8));
            }
            let mut v: Vec<Component> = Vec::new();
            let mut i: u64 = 0;
            while i < n
                invariant
                    *old(pos) == start,
                    i <= n,
                    start + 8 <= *pos <= data@.len(),
                    *idc >= *old(idc),
                    v@.len() == i as nat,
                    s0 == stream_from(data@, start as int),
                    sdec_u64(s0) == Some((n, 8int)),
                    sb == s0.skip(8),
                    forall|j: int| 0 <= j < v@.len() ==> (#[trigger] comps_view(v@)[j]).wf(),
                    sdec_comp_seq(sb, n as nat) == (match sdec_comp_seq(
                        stream_from(data@, *pos as int),
                        (n - i) as nat,
                    ) {
                        Some((cs, k)) => Some((
                            strip_comps(comps_view(v@)) + cs,
                            (*pos - start - 8) + k,
                        )),
                        None => None::<(Seq<PCompV>, int)>,
                    }),
                decreases n - i,
            {
                let ghost scur = stream_from(data@, *pos as int);
                let ghost pos_before = *pos;
                let ghost vprev = v@;
                let cid = *idc;
                if *idc < u64::MAX {
                    *idc = *idc + 1;
                }
                match decode_comp(data, pos, cid) {
                    Some(c) => {
                        v.push(c);
                        proof {
                            lemma_stream_skip(
                                data@,
                                pos_before as int,
                                *pos - pos_before,
                            );
                            assert(forall|j: int|
                                0 <= j < vprev.len() ==> #[trigger] comps_view(v@)[j]
                                    == comps_view(vprev)[j]);
                            assert(comps_view(v@)[vprev.len() as int] == c@);
                            assert(strip_comps(comps_view(v@)) =~= strip_comps(
                                comps_view(vprev),
                            ).push(strip_comp(c@)));
                            assert forall|cs: Seq<PCompV>| true implies strip_comps(
                                comps_view(v@),
                            ) + cs == strip_comps(comps_view(vprev)) + (seq![strip_comp(c@)]
                                + cs) by {
                                assert(strip_comps(comps_view(v@)) + cs =~= strip_comps(
                                    comps_view(vprev),
                                ) + (seq![strip_comp(c@)] + cs));
                            }
                        }
                        i = i + 1;
                    },
                    None => {
                        proof {
                            assert(sdec_comp_seq(scur, (n - i) as nat) is None);
                        }
                        *pos = start;
                        return None;
                    },
                }
            }
            proof {
                assert(sdec_comp_seq(stream_from(data@, *pos as int), 0nat) == Some((
                    Seq::<PCompV>::empty(),
                    0int,
                )));
                assert(strip_comps(comps_view(v@)) + Seq::<PCompV>::empty() =~= strip_comps(
                    comps_view(v@),
                ));
            }
            Some(v)
        },
        None => None,
    }
}

/// Do two decoded partitions satisfy the partition discipline?
pub(crate) fn check_partitions(uniq: &Vec<Component>, multi: &Vec<Component>) -> (r: bool)
    ensures
        r == pcomps_wf(strip_comps(comps_view(uniq@)), strip_comps(comps_view(multi@))),
{
    let ghost su = strip_comps(comps_view(uniq@));
    let ghost sm = strip_comps(comps_view(multi@));
    let mut i: usize = 0;
    while i < uniq.len()
        invariant
            i <= uniq@.len(),
            su == strip_comps(comps_view(uniq@)),
            sm == strip_comps(comps_view(multi@)),
            su.len() == uniq@.len(),
            forall|a: int|
                0 <= a < i ==> crate::component::kind_is_singleton((#[trigger] su[a]).pkind()),
            forall|a: int, b: int|
                0 <= a < b < uniq@.len() && b < i ==> (#[trigger] su[a]).pkind() != (
                #[trigger] su[b]).pkind(),
        decreases uniq@.len() - i,
    {
        proof {
            assert(su[i as int] == strip_comp((uniq@[i as int])@));
        }
        let ki = uniq[i].get_kind();
        if !ki.is_uniq() {
            return false;
        }
        let mut j: usize = 0;
        while j < i
            invariant
                j <= i < uniq@.len(),
                su == strip_comps(comps_view(uniq@)),
                su.len() == uniq@.len(),
                ki == (uniq@[i as int])@.kind(),
                su[i as int].pkind() == ki,
                forall|a: int| 0 <= a < j ==> (#[trigger] su[a]).pkind() != su[i as int].pkind(),
            decreases i - j,
        {
            proof {
                assert(su[j as int] == strip_comp((uniq@[j as int])@));
            }
            let kj = uniq[j].get_kind();
            if kj == ki {
                return false;
            }
            j = j + 1;
        }
        i = i + 1;
    }
    let mut k: usize = 0;
    while k < multi.len()
        invariant
            k <= multi@.len(),
            su == strip_comps(comps_view(uniq@)),
            sm == strip_comps(comps_view(multi@)),
            sm.len() == multi@.len(),
            pcomps_wf(su, Seq::<PCompV>::empty()),
            forall|a: int|
                0 <= a < k ==> !crate::component::kind_is_singleton((#[trigger] sm[a]).pkind()),
        decreases multi@.len() - k,
    {
        proof {
            assert(sm[k as int] == strip_comp((multi@[k as int])@));
        }
        let kk = multi[k].get_kind();
        if kk.is_uniq() {
            return false;
        }
        k = k + 1;
    }
    true
}

/// Decode exactly `nc` child subtrees, each with parent back-reference
/// `my_id`.
#[verifier::rlimit(100)]
#[verifier::spinoff_prover]
fn decode_children(data: &Vec<u8>, pos: &mut usize, idc: &mut u64, my_id: u64, nc: u64) -> (r:
    Option<Vec<Entity>>)
    requires
        *old(pos) <= data@.len(),
        *old(idc) != 0,
        my_id != 0,
    ensures
        *old(pos) <= *final(pos) <= data@.len(),
        *final(idc) >= *old(idc),
        *final(idc) != 0,
        ({
            let st = stream_from(data@, *old(pos) as int);
            match r {
                Some(v) => v@.len() == nc as nat && sdec_ent_seq(st, nc as nat) == Some((
                    strip_forest(crate::entity::forest_view(v@)),
                    *final(pos) - *old(pos),
                )) && crate::entity::forest_view(v@).len() == v@.len() && (forall|j: int|
                    0 <= j < v@.len() ==> (#[trigger] crate::entity::forest_view(v@)[j]).wf()
                        && crate::entity::forest_view(v@)[j].parent_id == my_id) && (*final(idc)
                    < u64::MAX ==> (forall|h: u64|
                    #[trigger] crate::entity::count_id_forest(crate::entity::forest_view(v@), h)
                        <= 1) && (forall|h: u64|
                    crate::entity::count_id_forest(crate::entity::forest_view(v@), h) >= 1
                        ==> *old(idc) <= h < *final(idc))),
                None => sdec_ent_seq(st, nc as nat) is None && *final(pos) == *old(pos),
            }
        }),
    decreases data@.len() - *pos, 1nat,
{
    let start: usize = *pos;
    let ghost s0 = stream_from(data@, start as int);
    let mut children: Vec<Entity> = Vec::new();
    let mut i: u64 = 0;
    while i < nc
        invariant
            *old(pos) == start,
            i <= nc,
            start <= *pos <= data@.len(),
            my_id != 0,
            *idc >= *old(idc),
            *old(idc) != 0,
            *idc != 0,
            children@.len() == i as nat,
            s0 == stream_from(data@, start as int),
            forall|j: int|
                0 <= j < children@.len() ==> (#[trigger] crate::entity::forest_view(
                    children@,
                )[j]).wf() && crate::entity::forest_view(children@)[j].parent_id == my_id,
            crate::entity::forest_view(children@).len() == children@.len(),
            *idc < u64::MAX ==> (forall|h: u64|
                #[trigger] crate::entity::count_id_forest(
                    crate::entity::forest_view(children@),
                    h,
                ) <= 1) && (forall|h: u64|
                crate::entity::count_id_forest(crate::entity::forest_view(children@), h) >= 1
                    ==> *old(idc) <= h < *idc),
            sdec_ent_seq(s0, nc as nat) == (match sdec_ent_seq(
                stream_from(data@, *pos as int),
                (nc - i) as nat,
            ) {
                Some((es, k)) => Some((
                    strip_forest(crate::entity::forest_view(children@)) + es,
                    (*pos - start) + k,
                )),
                None => None::<(Seq<PEntityV>, int)>,
            }),
        decreases nc - i,
    {
        let ghost scur = stream_from(data@, *pos as int);
        let ghost pos_before = *pos;
        let ghost idc_before = *idc;
        let ghost chprev = children@;
        match deserialize_binary(data, pos, idc, my_id) {
            Some(c) => {
                proof {
                    crate::entity::lemma_forest_view(chprev);
                }
                children.push(c);
                proof {
                    lemma_stream_skip(data@, pos_before as int, *pos - pos_before);
                    crate::entity::lemma_forest_view(children@);
                    crate::entity::lemma_forest_view_push(chprev, c);
                    lemma_strip_forest(crate::entity::forest_view(children@));
                    lemma_strip_forest(crate::entity::forest_view(chprev));
                    assert(crate::entity::forest_view(children@) == crate::entity::forest_view(
                        chprev,
                    ).push(c@));
                    if *idc < u64::MAX {
                        assert forall|h: u64|
                            #[trigger] crate::entity::count_id_forest(
                            crate::entity::forest_view(children@),
                            h,
                        ) <= 1 by {
                            crate::entity::lemma_count_id_push(
                                crate::entity::forest_view(chprev),
                                c@,
                                h,
                            );
                            crate::entity::lemma_count_contains_ent(c@, h);
                            crate::entity::lemma_count_contains_forest(
                                crate::entity::forest_view(chprev),
                                h,
                            );
                            if crate::entity::count_id_ent(c@, h) >= 1 {
                                assert(idc_before <= h < *idc);
                                assert(crate::entity::count_id_forest(
                                    crate::entity::forest_view(chprev),
                                    h,
                                ) == 0);
                            }
                        }
                        assert forall|h: u64|
                            crate::entity::count_id_forest(
                                crate::entity::forest_view(children@),
                                h,
                            ) >= 1 implies *old(idc) <= h < *idc by {
                            crate::entity::lemma_count_id_push(
                                crate::entity::forest_view(chprev),
                                c@,
                                h,
                            );
                        }
                    }
                    assert forall|j: int|
                        0 <= j < children@.len() implies strip_forest(crate::entity::forest_view(
                        children@,
                    ))[j] == strip_forest(crate::entity::forest_view(chprev)).push(
                        strip_ent(c@),
                    )[j] by {
                        if j < chprev.len() {
                            assert(crate::entity::forest_view(children@)[j]
                                == crate::entity::forest_view(chprev)[j]);
                        } else {
                            assert(crate::entity::forest_view(children@)[j] == c@);
                        }
                    }
                    assert(strip_forest(crate::entity::forest_view(children@)) =~= strip_forest(
                        crate::entity::forest_view(chprev),
                    ).push(strip_ent(c@)));
                    assert(*pos - pos_before >= 8);
                    assert forall|es: Seq<PEntityV>| true implies strip_forest(
                        crate::entity::forest_view(children@),
                    ) + es == strip_forest(crate::entity::forest_view(chprev)) + (seq![
                        strip_ent(c@),
                    ] + es) by {
                        assert(strip_forest(crate::entity::forest_view(children@)) + es
                            =~= strip_forest(crate::entity::forest_view(chprev)) + (seq![
                            strip_ent(c@),
                        ] + es));
                    }
                }
                i = i + 1;
            },
            None => {
                proof {
                    assert(sdec_ent_seq(scur, (nc - i) as nat) is None);
                }
                *pos = start;
                return None;
            },
        }
    }
    proof {
        assert(sdec_ent_seq(stream_from(data@, *pos as int), 0nat) == Some((
            Seq::<PEntityV>::empty(),
            0int,
        )));
        assert(strip_forest(crate::entity::forest_view(children@)) + Seq::<PEntityV>::empty()
            =~= strip_forest(crate::entity::forest_view(children@)));
    }
    Some(children)
}

/// Decode one entity subtree, drawing fresh runtime handles from `idc`
/// and setting its parent back-reference to `parent`.
#[verifier::rlimit(100)]
#[verifier::spinoff_prover]
pub fn deserialize_binary(data: &Vec<u8>, pos: &mut usize, idc: &mut u64, parent: u64) -> (r:
    Option<Entity>)
    requires
        *old(pos) <= data@.len(),
        *old(idc) != 0,
    ensures
        *old(pos) <= *final(pos) <= data@.len(),
        *final(idc) >= *old(idc),
        *final(idc) != 0,
        match r {
            Some(v) => v@.wf() && v@.parent_id == parent && *final(pos) >= *old(pos) + 8
                && sdec_entity(stream_from(data@, *old(pos) as int)) == Some((
                strip_ent(v@),
                *final(pos) - *old(pos),
            )) && (*final(idc) < u64::MAX ==> (forall|h: u64|
                #[trigger] crate::entity::count_id_ent(v@, h) <= 1) && (forall|h: u64|
                crate::entity::count_id_ent(v@, h) >= 1 ==> *old(idc) <= h < *final(idc))),
            None => sdec_entity(stream_from(data@, *old(pos) as int)) is None && *final(pos)
                == *old(pos),
        },
    decreases data@.len() - *pos, 0nat,
{
    let start: usize = *pos;
    let ghost s0 = stream_from(data@, start as int);
    let name = match decode_string(data, pos) {
        Some(n) => n,
        None => {
            *pos = start;
            return None;
        },
    };
    let ghost k0 = *pos - start;
    proof {
        lemma_stream_skip(data@, start as int, k0);
        assert(8 <= k0);
    }
    let uuid = match decode_u128(data, pos) {
        Some(u) => u,
        None => {
            proof {
                assert(sdec_ent_children(s0, name@, k0) is None);
            }
            *pos = start;
            return None;
        },
    };
    proof {
        lemma_stream_skip(data@, start as int, k0 + 16);
    }
    let nc = match decode_u64(data, pos) {
        Some(n) => n,
        None => {
            proof {
                assert(sdec_ent_children(s0, name@, k0) is None);
            }
            *pos = start;
            return None;
        },
    };
    proof {
        lemma_stream_skip(data@, start as int, k0 + 24);
    }
    let my_id = *idc;
    if *idc < u64::MAX {
        *idc = *idc + 1;
    }
    let ghost after_bump = *idc;
    let ghost sb = stream_from(data@, *pos as int);
    let ghost header = k0 + 24;
    let ghost pos_c = *pos;
    let children = match decode_children(data, pos, idc, my_id, nc) {
        Some(v) => v,
        None => {
            proof {
                assert(sdec_ent_children(s0, name@, k0) is None);
            }
            *pos = start;
            return None;
        },
    };
    let ghost kc = *pos - pos_c;
    let ghost pre_part = *idc;
    let ghost chv = strip_forest(crate::entity::forest_view(children@));
    proof {
        assert(sdec_ent_seq(sb, nc as nat) == Some((chv, kc)));
    }
    let ghost pos_u = *pos;
    let uniq_comp = match decode_comp_partition(data, pos, idc) {
        Some(v) => v,
        None => {
            proof {
                lemma_stream_skip(data@, start as int, pos_u - start);
                if pos_u - start + 8 <= s0.len() {
                    lemma_stream_skip(data@, pos_u as int, 8);
                    lemma_stream_skip(data@, start as int, pos_u - start + 8);
                }
                assert(sdec_ent_comps(s0, name@, uuid, chv, pos_u - start) is None);
                assert(sdec_ent_children(s0, name@, k0) is None);
            }
            *pos = start;
            return None;
        },
    };
    let ghost pos_m = *pos;
    let multi_comp = match decode_comp_partition(data, pos, idc) {
        Some(v) => v,
        None => {
            proof {
                lemma_stream_skip(data@, start as int, pos_u - start);
                lemma_stream_skip(data@, start as int, pos_m - start);
                lemma_stream_skip(data@, pos_u as int, 8);
                lemma_stream_skip(data@, start as int, pos_u - start + 8);
                if pos_m - start + 8 <= s0.len() {
                    lemma_stream_skip(data@, pos_m as int, 8);
                    lemma_stream_skip(data@, start as int, pos_m - start + 8);
                }
                assert(sdec_ent_multi(s0, name@, uuid, chv, strip_comps(comps_view(uniq_comp@)),
                    pos_m - start,
                ) is None);
                assert(sdec_ent_comps(s0, name@, uuid, chv, pos_u - start) is None);
                assert(sdec_ent_children(s0, name@, k0) is None);
            }
            *pos = start;
            return None;
        },
    };
    let ghost su = strip_comps(comps_view(uniq_comp@));
    let ghost sm = strip_comps(comps_view(multi_comp@));
    if !check_partitions(&uniq_comp, &multi_comp) {
        proof {
            lemma_stream_skip(data@, start as int, pos_u - start);
            lemma_stream_skip(data@, start as int, pos_m - start);
            lemma_stream_skip(data@, pos_u as int, 8);
            lemma_stream_skip(data@, start as int, pos_u - start + 8);
            lemma_stream_skip(data@, pos_m as int, 8);
            lemma_stream_skip(data@, start as int, pos_m - start + 8);
            assert(sdec_ent_multi(s0, name@, uuid, chv, su, pos_m - start) is None);
            assert(sdec_ent_comps(s0, name@, uuid, chv, pos_u - start) is None);
            assert(sdec_ent_children(s0, name@, k0) is None);
        }
        *pos = start;
        return None;
    }
    let e = Entity {
        id: my_id,
        name,
        instance_id: uuid,
        parent_id: parent,
        children,
        components: Components { uniq_comp, multi_comp },
    };
    proof {
        lemma_stream_skip(data@, start as int, pos_u - start);
        lemma_stream_skip(data@, start as int, pos_m - start);
        lemma_stream_skip(data@, pos_u as int, 8);
        lemma_stream_skip(data@, start as int, pos_u - start + 8);
        lemma_stream_skip(data@, pos_m as int, 8);
        lemma_stream_skip(data@, start as int, pos_m - start + 8);
        assert(strip_ent(e@) == (PEntityV {
            name: name@,
            instance_id: uuid,
            children: chv,
            uniq: su,
            multi: sm,
        }));
        assert(sdec_ent_multi(s0, name@, uuid, chv, su, pos_m - start) == Some((
            strip_ent(e@),
            *pos - start,
        )));
        assert(sdec_ent_comps(s0, name@, uuid, chv, pos_u - start) == Some((
            strip_ent(e@),
            *pos - start,
        )));
        assert(sdec_ent_children(s0, name@, k0) == Some((strip_ent(e@), *pos - start)));
        assert(sdec_entity(s0) == Some((strip_ent(e@), *pos - start)));
        assert(e@.wf()) by {
            assert(e@.components.uniq == comps_view(e.components.uniq_comp@));
            assert(forall|j: int|
                0 <= j < su.len() ==> (#[trigger] su[j]) == strip_comp(e@.components.uniq[j]));
            assert(forall|j: int|
                0 <= j < sm.len() ==> (#[trigger] sm[j]) == strip_comp(e@.components.multi[j]));
            assert(forall|j: int|
                0 <= j < su.len() ==> (#[trigger] e@.components.uniq[j]).kind()
                    == su[j].pkind());
            assert(forall|j: int|
                0 <= j < sm.len() ==> (#[trigger] e@.components.multi[j]).kind()
                    == sm[j].pkind());
        }
        if *idc < u64::MAX {
            assert(after_bump == my_id + 1);
            assert forall|h: u64| #[trigger] crate::entity::count_id_ent(e@, h) <= 1 by {
                crate::entity::lemma_count_contains_forest(e@.children, h);
                if crate::entity::count_id_forest(e@.children, h) >= 1 {
                    assert(after_bump <= h < pre_part);
                }
            }
            assert forall|h: u64|
                crate::entity::count_id_ent(e@, h) >= 1 implies my_id <= h < *idc by {
                if crate::entity::count_id_forest(e@.children, h) >= 1 {
                    assert(after_bump <= h < pre_part);
                }
            }
        }
    }
    Some(e)
}

} // verus!
