//! The shader-graph editor model: nodes linked by named pins, and the
//! fixup pass of the two-phase load.
//!
//! A persisted graph records links as plain identifier pairs (target node
//! id, target pin id), never live references, because cross references
//! cannot be flattened directly.  After every node has been materialized,
//! the fixup pass resolves each recorded link: it finds the target node
//! and the target input pin (a dangling pair is corrupt data and aborts
//! the load), sets the input pin's upstream back-reference to the output
//! pin whose link named it, marks the link resolved, and sets every pin's
//! parent-node back-reference.  The data model allows at most one
//! upstream source per input pin; should a document nevertheless name
//! one input pin from several links, the first link in node then pin
//! order supplies the upstream reference, and the soundness law below is
//! stated under the single-source premise.

use vstd::prelude::*;

verus! {

use crate::component::first_idx;
use crate::component::lemma_first_idx;
use crate::component::lemma_first_idx_is;
use crate::component::lemma_first_idx_none;

/// An input pin: fed by at most one upstream output pin.
pub struct InputPin {
    pub id: u32,
    pub display_name: String,
    /// Runtime back-reference to the owning node; 0 until fixup.
    pub parent_node: u32,
    /// The upstream source, as (node id, output pin id); `None` until
    /// fixup, and afterwards exactly when no link feeds this pin.
    pub from: Option<(u32, u32)>,
}

/// One persisted downstream link of an output pin.
pub struct OutLink {
    pub node_id: u32,
    pub pin_id: u32,
    /// Whether fixup has resolved this link.
    pub resolved: bool,
}

/// An output pin: fans out to any number of downstream input pins.
pub struct OutputPin {
    pub id: u32,
    /// Runtime back-reference to the owning node; 0 until fixup.
    pub parent_node: u32,
    pub to: Vec<OutLink>,
}

/// One node of the graph.
pub struct ShaderNode {
    pub id: u32,
    pub pos_x: i64,
    pub pos_y: i64,
    pub input_pin: Vec<InputPin>,
    pub output_pin: Vec<OutputPin>,
}

/// The graph: editor state and the node table.
pub struct ShaderGraph {
    pub zoom_scale: i64,
    pub center_x: i64,
    pub center_y: i64,
    pub seq: u32,
    pub nodes: Vec<ShaderNode>,
}

// ---------------------------------------------------------------------------
// views
// ---------------------------------------------------------------------------

pub struct InPinV {
    pub id: u32,
    pub display_name: Seq<char>,
    pub parent_node: u32,
    pub from: Option<(u32, u32)>,
}

pub struct LinkV {
    pub node_id: u32,
    pub pin_id: u32,
    pub resolved: bool,
}

pub struct OutPinV {
    pub id: u32,
    pub parent_node: u32,
    pub to: Seq<LinkV>,
}

pub struct NodeV {
    pub id: u32,
    pub pos_x: i64,
    pub pos_y: i64,
    pub input_pin: Seq<InPinV>,
    pub output_pin: Seq<OutPinV>,
}

impl View for InputPin {
    type V = InPinV;

    open spec fn view(&self) -> InPinV {
        InPinV {
            id: self.id,
            display_name: self.display_name@,
            parent_node: self.parent_node,
            from: self.from,
        }
    }
}

impl View for OutLink {
    type V = LinkV;

    open spec fn view(&self) -> LinkV {
        LinkV { node_id: self.node_id, pin_id: self.pin_id, resolved: self.resolved }
    }
}

impl View for OutputPin {
    type V = OutPinV;

    open spec fn view(&self) -> OutPinV {
        OutPinV {
            id: self.id,
            parent_node: self.parent_node,
            to: self.to@.map(|i: int, l: OutLink| l@),
        }
    }
}

impl View for ShaderNode {
    type V = NodeV;

    open spec fn view(&self) -> NodeV {
        NodeV {
            id: self.id,
            pos_x: self.pos_x,
            pos_y: self.pos_y,
            input_pin: self.input_pin@.map(|i: int, p: InputPin| p@),
            output_pin: self.output_pin@.map(|i: int, p: OutputPin| p@),
        }
    }
}

/// The views of the node table.
pub open spec fn nodes_view(s: Seq<ShaderNode>) -> Seq<NodeV> {
    s.map(|i: int, n: ShaderNode| n@)
}

// ---------------------------------------------------------------------------
// the fixup transition
// ---------------------------------------------------------------------------

/// The index of the first node with id `id`, or -1.
pub open spec fn node_idx(ns: Seq<NodeV>, id: u32) -> int {
    first_idx(ns, node_id_pred(id))
}

pub open spec fn node_id_pred(id: u32) -> spec_fn(NodeV) -> bool {
    |n: NodeV| n.id == id
}

/// The index of the first input pin with id `id` within a node, or -1.
pub open spec fn in_pin_idx(n: NodeV, id: u32) -> int {
    first_idx(n.input_pin, in_pin_id_pred(id))
}

pub open spec fn in_pin_id_pred(id: u32) -> spec_fn(InPinV) -> bool {
    |p: InPinV| p.id == id
}

/// The predicate "this link names target (`tn`, `tp`)".
pub open spec fn link_pred(tn: u32, tp: u32) -> spec_fn(LinkV) -> bool {
    |l: LinkV| l.node_id == tn && l.pin_id == tp
}

/// The predicate "this output pin holds a link naming (`tn`, `tp`)".
pub open spec fn pin_has_pred(tn: u32, tp: u32) -> spec_fn(OutPinV) -> bool {
    |p: OutPinV| first_idx(p.to, link_pred(tn, tp)) >= 0
}

/// The predicate "this node holds a link naming (`tn`, `tp`)".
pub open spec fn node_has_pred(tn: u32, tp: u32) -> spec_fn(NodeV) -> bool {
    |n: NodeV| first_idx(n.output_pin, pin_has_pred(tn, tp)) >= 0
}

/// The upstream source of input pin (`tn`, `tp`): the first output pin,
/// in node then pin order, holding a link that names it; `None` when no
/// link does.
pub open spec fn sfrom_of(ns: Seq<NodeV>, tn: u32, tp: u32) -> Option<(u32, u32)> {
    let i = first_idx(ns, node_has_pred(tn, tp));
    if i >= 0 {
        let b = first_idx(ns[i].output_pin, pin_has_pred(tn, tp));
        Some((ns[i].id, ns[i].output_pin[b].id))
    } else {
        None
    }
}

/// Link `c` of output pin `b` of node `a` names target (`tn`, `tp`).
pub open spec fn link_targets(ns: Seq<NodeV>, a: int, b: int, c: int, tn: u32, tp: u32) -> bool {
    &&& 0 <= a < ns.len()
    &&& 0 <= b < ns[a].output_pin.len()
    &&& 0 <= c < ns[a].output_pin[b].to.len()
    &&& ns[a].output_pin[b].to[c].node_id == tn
    &&& ns[a].output_pin[b].to[c].pin_id == tp
}

/// At most one link of the graph names the target (`tn`, `tp`).
pub open spec fn unique_target(ns: Seq<NodeV>, tn: u32, tp: u32) -> bool {
    forall|a1: int, b1: int, c1: int, a2: int, b2: int, c2: int|
        link_targets(ns, a1, b1, c1, tn, tp) && link_targets(ns, a2, b2, c2, tn, tp) ==> a1 == a2
            && b1 == b2 && c1 == c2
}

/// Every link's target exists: the named node is present and carries the
/// named input pin.
pub open spec fn all_targets_exist(ns: Seq<NodeV>) -> bool {
    forall|a: int, b: int, c: int|
        #![trigger ns[a].output_pin[b].to[c]]
        0 <= a < ns.len() && 0 <= b < ns[a].output_pin.len() && 0 <= c
            < ns[a].output_pin[b].to.len() ==> {
            let tn = ns[a].output_pin[b].to[c].node_id;
            let ti = node_idx(ns, tn);
            ti >= 0 && in_pin_idx(ns[ti], ns[a].output_pin[b].to[c].pin_id) >= 0
        }
}

/// The graph after fixup: every pin carries its owner's id, every link is
/// marked resolved, and every input pin's upstream reference is the
/// output pin whose link named it (or `None` when no link does).
pub open spec fn sfixup(ns: Seq<NodeV>) -> Seq<NodeV> {
    Seq::new(
        ns.len(),
        |i: int|
            NodeV {
                input_pin: Seq::new(
                    ns[i].input_pin.len(),
                    |j: int|
                        InPinV {
                            parent_node: ns[i].id,
                            from: sfrom_of(ns, ns[i].id, ns[i].input_pin[j].id),
                            ..ns[i].input_pin[j]
                        },
                ),
                output_pin: Seq::new(
                    ns[i].output_pin.len(),
                    |j: int|
                        OutPinV {
                            parent_node: ns[i].id,
                            to: Seq::new(
                                ns[i].output_pin[j].to.len(),
                                |k: int| LinkV { resolved: true, ..ns[i].output_pin[j].to[k] },
                            ),
                            ..ns[i].output_pin[j]
                        },
                ),
                ..ns[i]
            },
    )
}

/// Graph fixup soundness: after fixup, every persisted link is resolved,
/// and — when it is the only link naming its target — the input pin it
/// named holds the upstream reference to exactly the output pin that
/// named it.
pub proof fn lemma_fixup_soundness(ns: Seq<NodeV>, a: int, b: int, c: int)
    requires
        0 <= a < ns.len(),
        0 <= b < ns[a].output_pin.len(),
        0 <= c < ns[a].output_pin[b].to.len(),
        unique_target(ns, ns[a].output_pin[b].to[c].node_id, ns[a].output_pin[b].to[c].pin_id),
        node_idx(ns, ns[a].output_pin[b].to[c].node_id) >= 0,
        in_pin_idx(
            ns[node_idx(ns, ns[a].output_pin[b].to[c].node_id)],
            ns[a].output_pin[b].to[c].pin_id,
        ) >= 0,
    ensures
        ({
            let g2 = sfixup(ns);
            let ti = node_idx(ns, ns[a].output_pin[b].to[c].node_id);
            let pi = in_pin_idx(ns[ti], ns[a].output_pin[b].to[c].pin_id);
            &&& g2[a].output_pin[b].to[c].resolved
            &&& g2[ti].input_pin[pi].from == Some((ns[a].id, ns[a].output_pin[b].id))
        }),
{
    let tn = ns[a].output_pin[b].to[c].node_id;
    let tp = ns[a].output_pin[b].to[c].pin_id;
    let ti = node_idx(ns, tn);
    let pi = in_pin_idx(ns[ti], tp);
    lemma_first_idx(ns, node_id_pred(tn));
    lemma_first_idx(ns[ti].input_pin, in_pin_id_pred(tp));
    assert(ns[ti].id == tn);
    assert(ns[ti].input_pin[pi].id == tp);
    assert(link_targets(ns, a, b, c, tn, tp));
    lemma_first_idx(ns[a].output_pin[b].to, link_pred(tn, tp));
    assert(first_idx(ns[a].output_pin[b].to, link_pred(tn, tp)) >= 0) by {
        if first_idx(ns[a].output_pin[b].to, link_pred(tn, tp)) < 0 {
            assert(!link_pred(tn, tp)(ns[a].output_pin[b].to[c]));
        }
    }
    assert(pin_has_pred(tn, tp)(ns[a].output_pin[b]));
    lemma_first_idx(ns[a].output_pin, pin_has_pred(tn, tp));
    assert(first_idx(ns[a].output_pin, pin_has_pred(tn, tp)) >= 0) by {
        if first_idx(ns[a].output_pin, pin_has_pred(tn, tp)) < 0 {
            assert(!pin_has_pred(tn, tp)(ns[a].output_pin[b]));
        }
    }
    assert(node_has_pred(tn, tp)(ns[a]));
    lemma_first_idx(ns, node_has_pred(tn, tp));
    let i0 = first_idx(ns, node_has_pred(tn, tp));
    assert(i0 >= 0) by {
        if i0 < 0 {
            assert(!node_has_pred(tn, tp)(ns[a]));
        }
    }
    let b0 = first_idx(ns[i0].output_pin, pin_has_pred(tn, tp));
    assert(node_has_pred(tn, tp)(ns[i0]));
    lemma_first_idx(ns[i0].output_pin, pin_has_pred(tn, tp));
    assert(b0 >= 0);
    assert(pin_has_pred(tn, tp)(ns[i0].output_pin[b0]));
    let c0 = first_idx(ns[i0].output_pin[b0].to, link_pred(tn, tp));
    lemma_first_idx(ns[i0].output_pin[b0].to, link_pred(tn, tp));
    assert(c0 >= 0);
    assert(link_targets(ns, i0, b0, c0, tn, tp));
    assert(i0 == a && b0 == b && c0 == c);
    assert(sfrom_of(ns, tn, tp) == Some((ns[a].id, ns[a].output_pin[b].id)));
    assert(sfixup(ns)[ti].input_pin[pi].from == sfrom_of(ns, ns[ti].id, ns[ti].input_pin[pi].id));
}

// ---------------------------------------------------------------------------
// executable search
// ---------------------------------------------------------------------------

/// The index of the first node with id `id`.
pub fn find_node_idx(nodes: &Vec<ShaderNode>, id: u32) -> (r: Option<usize>)
    ensures
        ({
            let i = node_idx(nodes_view(nodes@), id);
            match r {
                Some(idx) => i == idx && 0 <= i < nodes@.len(),
                None => i < 0,
            }
        }),
{
    let ghost sv = nodes_view(nodes@);
    let ghost p = node_id_pred(id);
    let mut i: usize = 0;
    while i < nodes.len()
        invariant
            i <= nodes@.len(),
            sv == nodes_view(nodes@),
            p == node_id_pred(id),
            sv.len() == nodes@.len(),
            forall|j: int| 0 <= j < i ==> !p(#[trigger] sv[j]),
        decreases nodes@.len() - i,
    {
        proof {
            assert(sv[i as int] == (nodes@[i as int])@);
        }
        if nodes[i].id == id {
            proof {
                lemma_first_idx_is(sv, p, i as int);
            }
            return Some(i);
        }
        proof {
            assert(!p(sv[i as int]));
        }
        i = i + 1;
    }
    proof {
        lemma_first_idx_none(sv, p);
    }
    None
}

impl ShaderNode {
    /// This node's identifier.
    pub fn id(&self) -> (r: u32)
        ensures
            r == self@.id,
    {
        self.id
    }

    /// The input pin carrying `id`, if this node has one.
    pub fn get_input_pin(&self, id: u32) -> (r: Option<&InputPin>)
        ensures
            ({
                let i = in_pin_idx(self@, id);
                match r {
                    Some(pin) => i >= 0 && pin@ == self@.input_pin[i],
                    None => i < 0,
                }
            }),
    {
        let ghost sv = self@.input_pin;
        let ghost p = in_pin_id_pred(id);
        let mut i: usize = 0;
        while i < self.input_pin.len()
            invariant
                i <= self.input_pin@.len(),
                sv == self@.input_pin,
                p == in_pin_id_pred(id),
                sv.len() == self.input_pin@.len(),
                forall|j: int| 0 <= j < i ==> !p(#[trigger] sv[j]),
            decreases self.input_pin@.len() - i,
        {
            proof {
                assert(sv[i as int] == (self.input_pin@[i as int])@);
            }
            if self.input_pin[i].id == id {
                proof {
                    lemma_first_idx_is(sv, p, i as int);
                }
                return Some(&self.input_pin[i]);
            }
            proof {
                assert(!p(sv[i as int]));
            }
            i = i + 1;
        }
        proof {
            lemma_first_idx_none(sv, p);
        }
        None
    }
}

/// The index of the first link of `pin` naming (`tn`, `tp`).
fn find_link_idx(pin: &OutputPin, tn: u32, tp: u32) -> (r: Option<usize>)
    ensures
        ({
            let i = first_idx(pin@.to, link_pred(tn, tp));
            match r {
                Some(idx) => i == idx && 0 <= i < pin.to@.len(),
                None => i < 0,
            }
        }),
{
    let ghost sv = pin@.to;
    let ghost p = link_pred(tn, tp);
    let mut i: usize = 0;
    while i < pin.to.len()
        invariant
            i <= pin.to@.len(),
            sv == pin@.to,
            p == link_pred(tn, tp),
            sv.len() == pin.to@.len(),
            forall|j: int| 0 <= j < i ==> !p(#[trigger] sv[j]),
        decreases pin.to@.len() - i,
    {
        proof {
            assert(sv[i as int] == (pin.to@[i as int])@);
        }
        if pin.to[i].node_id == tn && pin.to[i].pin_id == tp {
            proof {
                lemma_first_idx_is(sv, p, i as int);
            }
            return Some(i);
        }
        proof {
            assert(!p(sv[i as int]));
        }
        i = i + 1;
    }
    proof {
        lemma_first_idx_none(sv, p);
    }
    None
}

/// The index of the first output pin of `n` holding a link naming
/// (`tn`, `tp`).
fn find_source_pin(n: &ShaderNode, tn: u32, tp: u32) -> (r: Option<usize>)
    ensures
        ({
            let i = first_idx(n@.output_pin, pin_has_pred(tn, tp));
            match r {
                Some(idx) => i == idx && 0 <= i < n.output_pin@.len(),
                None => i < 0,
            }
        }),
{
    let ghost sv = n@.output_pin;
    let ghost p = pin_has_pred(tn, tp);
    let mut i: usize = 0;
    while i < n.output_pin.len()
        invariant
            i <= n.output_pin@.len(),
            sv == n@.output_pin,
            p == pin_has_pred(tn, tp),
            sv.len() == n.output_pin@.len(),
            forall|j: int| 0 <= j < i ==> !p(#[trigger] sv[j]),
        decreases n.output_pin@.len() - i,
    {
        proof {
            assert(sv[i as int] == (n.output_pin@[i as int])@);
        }
        let hit = find_link_idx(&n.output_pin[i], tn, tp);
        match hit {
            Some(_) => {
                proof {
                    lemma_first_idx_is(sv, p, i as int);
                }
                return Some(i);
            },
            None => {
                proof {
                    assert(!p(sv[i as int]));
                }
            },
        }
        i = i + 1;
    }
    proof {
        lemma_first_idx_none(sv, p);
    }
    None
}

/// The upstream source of input pin (`tn`, `tp`), as [`sfrom_of`]
/// describes.
fn scan_from(nodes: &Vec<ShaderNode>, tn: u32, tp: u32) -> (r: Option<(u32, u32)>)
    ensures
        r == sfrom_of(nodes_view(nodes@), tn, tp),
{
    let ghost sv = nodes_view(nodes@);
    let ghost p = node_has_pred(tn, tp);
    let mut i: usize = 0;
    while i < nodes.len()
        invariant
            i <= nodes@.len(),
            sv == nodes_view(nodes@),
            p == node_has_pred(tn, tp),
            sv.len() == nodes@.len(),
            forall|j: int| 0 <= j < i ==> !p(#[trigger] sv[j]),
        decreases nodes@.len() - i,
    {
        proof {
            assert(sv[i as int] == (nodes@[i as int])@);
        }
        match find_source_pin(&nodes[i], tn, tp) {
            Some(b) => {
                proof {
                    lemma_first_idx_is(sv, p, i as int);
                }
                return Some((nodes[i].id, nodes[i].output_pin[b].id));
            },
            None => {
                proof {
                    assert(!p(sv[i as int]));
                }
            },
        }
        i = i + 1;
    }
    proof {
        lemma_first_idx_none(sv, p);
    }
    None
}

/// Does every link of the graph name an existing node and input pin?
fn check_targets(nodes: &Vec<ShaderNode>) -> (r: bool)
    ensures
        r == all_targets_exist(nodes_view(nodes@)),
{
    let ghost sv = nodes_view(nodes@);
    let mut a: usize = 0;
    while a < nodes.len()
        invariant
            a <= nodes@.len(),
            sv == nodes_view(nodes@),
            sv.len() == nodes@.len(),
            forall|a0: int, b0: int, c0: int|
                #![trigger sv[a0].output_pin[b0].to[c0]]
                0 <= a0 < a && 0 <= b0 < sv[a0].output_pin.len() && 0 <= c0
                    < sv[a0].output_pin[b0].to.len() ==> {
                    let tn = sv[a0].output_pin[b0].to[c0].node_id;
                    let ti = node_idx(sv, tn);
                    ti >= 0 && in_pin_idx(sv[ti], sv[a0].output_pin[b0].to[c0].pin_id) >= 0
                },
        decreases nodes@.len() - a,
    {
        proof {
            assert(sv[a as int] == (nodes@[a as int])@);
        }
        let mut b: usize = 0;
        while b < nodes[a].output_pin.len()
            invariant
                a < nodes@.len(),
                b <= nodes[a as int].output_pin@.len(),
                sv == nodes_view(nodes@),
                sv.len() == nodes@.len(),
                sv[a as int] == (nodes@[a as int])@,
                sv[a as int].output_pin.len() == nodes[a as int].output_pin@.len(),
                forall|b0: int, c0: int|
                    #![trigger sv[a as int].output_pin[b0].to[c0]]
                    0 <= b0 < b && 0 <= c0 < sv[a as int].output_pin[b0].to.len() ==> {
                        let tn = sv[a as int].output_pin[b0].to[c0].node_id;
                        let ti = node_idx(sv, tn);
                        ti >= 0 && in_pin_idx(
                            sv[ti],
                            sv[a as int].output_pin[b0].to[c0].pin_id,
                        ) >= 0
                    },
            decreases nodes[a as int].output_pin@.len() - b,
        {
            proof {
                assert(sv[a as int].output_pin[b as int] == (
                nodes@[a as int].output_pin@[b as int])@);
            }
            let mut c: usize = 0;
            while c < nodes[a].output_pin[b].to.len()
                invariant
                    a < nodes@.len(),
                    b < nodes[a as int].output_pin@.len(),
                    c <= nodes[a as int].output_pin@[b as int].to@.len(),
                    sv == nodes_view(nodes@),
                    sv.len() == nodes@.len(),
                    sv[a as int] == (nodes@[a as int])@,
                    sv[a as int].output_pin.len() == nodes[a as int].output_pin@.len(),
                    sv[a as int].output_pin[b as int] == (
                    nodes@[a as int].output_pin@[b as int])@,
                    sv[a as int].output_pin[b as int].to.len() == nodes[a as int].output_pin@[
                        b as int
                    ].to@.len(),
                    forall|c0: int|
                        #![trigger sv[a as int].output_pin[b as int].to[c0]]
                        0 <= c0 < c ==> {
                            let tn = sv[a as int].output_pin[b as int].to[c0].node_id;
                            let ti = node_idx(sv, tn);
                            ti >= 0 && in_pin_idx(
                                sv[ti],
                                sv[a as int].output_pin[b as int].to[c0].pin_id,
                            ) >= 0
                        },
                decreases nodes[a as int].output_pin@[b as int].to@.len() - c,
            {
                let tn = nodes[a].output_pin[b].to[c].node_id;
                let tp = nodes[a].output_pin[b].to[c].pin_id;
                proof {
                    assert(sv[a as int].output_pin[b as int].to[c as int] == (
                    nodes@[a as int].output_pin@[b as int].to@[c as int])@);
                }
                match find_node_idx(nodes, tn) {
                    Some(ti) => {
                        match nodes[ti].get_input_pin(tp) {
                            Some(_) => {},
                            None => {
                                return false;
                            },
                        }
                    },
                    None => {
                        return false;
                    },
                }
                c = c + 1;
            }
            b = b + 1;
        }
        a = a + 1;
    }
    true
}

impl ShaderGraph {
    /// A fresh, empty graph.
    pub fn new() -> (r: ShaderGraph)
        ensures
            nodes_view(r.nodes@) == Seq::<NodeV>::empty(),
            r.zoom_scale == 0,
            r.seq == 0,
    {
        let r = ShaderGraph {
            zoom_scale: 0,
            center_x: 0,
            center_y: 0,
            seq: 0,
            nodes: Vec::new(),
        };
        proof {
            assert(nodes_view(r.nodes@) =~= Seq::<NodeV>::empty());
        }
        r
    }

    /// The fixup phase of the two-phase load: resolve every persisted
    /// link and set every pin's parent-node back-reference, as
    /// [`sfixup`] describes.  Fails, changing nothing, when some link
    /// names a node or input pin the graph does not hold — dangling links
    /// mean corrupt or incompatible data, and the load aborts.
    pub fn link_fixup(&mut self) -> (r: bool)
        ensures
            r == all_targets_exist(nodes_view(old(self).nodes@)),
            final(self).zoom_scale == old(self).zoom_scale,
            final(self).center_x == old(self).center_x,
            final(self).center_y == old(self).center_y,
            final(self).seq == old(self).seq,
            r ==> nodes_view(final(self).nodes@) == sfixup(nodes_view(old(self).nodes@)),
            !r ==> final(self).nodes@ == old(self).nodes@,
    {
        let ghost sv = nodes_view(self.nodes@);
        if !check_targets(&self.nodes) {
            return false;
        }
        let mut out: Vec<ShaderNode> = Vec::new();
        let mut i: usize = 0;
        while i < self.nodes.len()
            invariant
                i <= self.nodes@.len(),
                sv == nodes_view(self.nodes@),
                sv.len() == self.nodes@.len(),
                out@.len() == i as int,
                forall|j: int|
                    0 <= j < i ==> (#[trigger] nodes_view(out@)[j]) == sfixup(sv)[j],
                nodes_view(out@).len() == out@.len(),
            decreases self.nodes@.len() - i,
        {
            let n = &self.nodes[i];
            proof {
                assert(sv[i as int] == (self.nodes@[i as int])@);
            }
            let nid = n.id;
            let mut ips: Vec<InputPin> = Vec::new();
            let mut j: usize = 0;
            while j < n.input_pin.len()
                invariant
                    i < self.nodes@.len(),
                    j <= n.input_pin@.len(),
                    sv == nodes_view(self.nodes@),
                    sv.len() == self.nodes@.len(),
                    n == &self.nodes@[i as int],
                    sv[i as int] == (self.nodes@[i as int])@,
                    nid == sv[i as int].id,
                    sv[i as int].input_pin.len() == n.input_pin@.len(),
                    ips@.len() == j as int,
                    forall|k: int|
                        0 <= k < j ==> (#[trigger] ips@[k])@ == (InPinV {
                            parent_node: sv[i as int].id,
                            from: sfrom_of(sv, sv[i as int].id, sv[i as int].input_pin[k].id),
                            ..sv[i as int].input_pin[k]
                        }),
                decreases n.input_pin@.len() - j,
            {
                proof {
                    assert(sv[i as int].input_pin[j as int] == (n.input_pin@[j as int])@);
                }
                let src = scan_from(&self.nodes, nid, n.input_pin[j].id);
                let np = InputPin {
                    id: n.input_pin[j].id,
                    display_name: n.input_pin[j].display_name.clone(),
                    parent_node: nid,
                    from: src,
                };
                ips.push(np);
                j = j + 1;
            }
            let mut ops: Vec<OutputPin> = Vec::new();
            let mut j2: usize = 0;
            while j2 < n.output_pin.len()
                invariant
                    i < self.nodes@.len(),
                    j2 <= n.output_pin@.len(),
                    sv == nodes_view(self.nodes@),
                    n == &self.nodes@[i as int],
                    sv[i as int] == (self.nodes@[i as int])@,
                    nid == sv[i as int].id,
                    sv[i as int].output_pin.len() == n.output_pin@.len(),
                    ops@.len() == j2 as int,
                    forall|k: int|
                        0 <= k < j2 ==> (#[trigger] ops@[k])@ == (OutPinV {
                            parent_node: sv[i as int].id,
                            to: Seq::new(
                                sv[i as int].output_pin[k].to.len(),
                                |m: int| LinkV {
                                    resolved: true,
                                    ..sv[i as int].output_pin[k].to[m]
                                },
                            ),
                            ..sv[i as int].output_pin[k]
                        }),
                decreases n.output_pin@.len() - j2,
            {
                proof {
                    assert(sv[i as int].output_pin[j2 as int] == (n.output_pin@[j2 as int])@);
                }
                let opin = &n.output_pin[j2];
                let mut links: Vec<OutLink> = Vec::new();
                let mut m: usize = 0;
                while m < opin.to.len()
                    invariant
                        j2 < n.output_pin@.len(),
                        m <= opin.to@.len(),
                        opin == &n.output_pin@[j2 as int],
                        sv[i as int].output_pin[j2 as int] == (n.output_pin@[j2 as int])@,
                        i < sv.len(),
                        sv[i as int].output_pin.len() == n.output_pin@.len(),
                        sv[i as int].output_pin[j2 as int].to.len() == opin.to@.len(),
                        links@.len() == m as int,
                        forall|k: int|
                            0 <= k < m ==> (#[trigger] links@[k])@ == (LinkV {
                                resolved: true,
                                ..sv[i as int].output_pin[j2 as int].to[k]
                            }),
                    decreases opin.to@.len() - m,
                {
                    proof {
                        assert(sv[i as int].output_pin[j2 as int].to[m as int] == (
                        opin.to@[m as int])@);
                    }
                    links.push(
                        OutLink {
                            node_id: opin.to[m].node_id,
                            pin_id: opin.to[m].pin_id,
                            resolved: true,
                        },
                    );
                    m = m + 1;
                }
                let nop = OutputPin { id: opin.id, parent_node: nid, to: links };
                proof {
                    assert(nop@.to =~= Seq::new(
                        sv[i as int].output_pin[j2 as int].to.len(),
                        |m2: int| LinkV {
                            resolved: true,
                            ..sv[i as int].output_pin[j2 as int].to[m2]
                        },
                    ));
                }
                ops.push(nop);
                j2 = j2 + 1;
            }
            let nn = ShaderNode {
                id: nid,
                pos_x: n.pos_x,
                pos_y: n.pos_y,
                input_pin: ips,
                output_pin: ops,
            };
            proof {
                assert(nn@.input_pin =~= sfixup(sv)[i as int].input_pin);
                assert(nn@.output_pin =~= sfixup(sv)[i as int].output_pin);
                assert(nn@ == sfixup(sv)[i as int]);
            }
            let ghost outprev = out@;
            out.push(nn);
            proof {
                assert(forall|j: int|
                    0 <= j < outprev.len() ==> #[trigger] nodes_view(out@)[j] == nodes_view(
                        outprev,
                    )[j]);
                assert(nodes_view(out@)[outprev.len() as int] == nn@);
            }
            i = i + 1;
        }
        self.nodes = out;
        proof {
            assert(nodes_view(self.nodes@) =~= sfixup(sv));
        }
        true
    }
}

} // verus!
