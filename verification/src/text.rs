//! The structured text form: an indentation-scoped, line-oriented
//! document.  A YAML reader parses it into a plain node tree; from there
//! everything is verified: the entity tree's text decoding and emission
//! (with the node-level round-trip law), and the shader graph's text
//! decoding (the materialize phase of its two-phase load; the fixup
//! phase follows in the graph module).  Every persisted field sits in a
//! block carrying a `field_type` tag and the field's `value`.

use vstd::prelude::*;

verus! {

use crate::component::{first_idx, lemma_first_idx_is, lemma_first_idx_none};
use crate::shader::{InputPin, OutLink, OutputPin, ShaderGraph, ShaderNode, InPinV, LinkV,
    OutPinV, NodeV, nodes_view};
use vstd::utf8::{encode_utf8, encode_utf8_decode_utf8};

/// One node of a parsed structured text document.
pub enum TextNode {
    Null,
    Bool(bool),
    Int(i64),
    Str(String),
    List(Vec<TextNode>),
    Dict(Vec<(TextNode, TextNode)>),
}

/// The parsed document node type of the outside YAML reader.
#[verifier::external_type_specification]
#[verifier::external_body]
pub struct ExYaml(yaml_rust2::Yaml);

/// Relies on `yaml_rust2::Yaml`: each variant of a parsed document node
/// is carried over one for one; real-number scalars keep their raw text,
/// and anchor or invalid nodes become null.  Nesting beyond a fixed
/// depth is flattened to null, bounding the recursion on pathological
/// documents.
#[verifier::external_body]
fn yaml_to_node(y: &yaml_rust2::Yaml, depth: u32) -> TextNode {
    match y {
        _ if depth == 0 => TextNode::Null,
        yaml_rust2::Yaml::Boolean(b) => TextNode::Bool(*b),
        yaml_rust2::Yaml::Integer(i) => TextNode::Int(*i),
        yaml_rust2::Yaml::String(s) => TextNode::Str(s.clone()),
        yaml_rust2::Yaml::Real(s) => TextNode::Str(s.clone()),
        yaml_rust2::Yaml::Array(a) => TextNode::List(a.iter().map(|e| yaml_to_node(e, depth - 1)).collect()),
        yaml_rust2::Yaml::Hash(h) => TextNode::Dict(
            h.iter().map(|(k, v)| (yaml_to_node(k, depth - 1), yaml_to_node(v, depth - 1))).collect(),
        ),
        _ => TextNode::Null,
    }
}

/// What parsing a structured text document yields: the first document of
/// the stream as a plain node tree, or nothing when the stream is empty
/// or any document of it is malformed.  Parsing is a function of the
/// text alone.
pub uninterp spec fn parsed_of(s: Seq<char>) -> Option<TextNode>;

/// Relies on `yaml_rust2::YamlLoader::load_from_str`: parse a structured
/// text stream; the first document is handed over.  The reader scans the
/// whole stream, so a malformed later document fails the load too, and
/// an empty stream is `None`.
#[verifier::external_body]
pub fn parse_text_doc(s: &str) -> (r: Option<TextNode>)
    ensures
        r == parsed_of(s@),
{
    match yaml_rust2::YamlLoader::load_from_str(s) {
        Ok(docs) => docs.into_iter().next().map(|d| yaml_to_node(&d, 512)),
        Err(_) => None,
    }
}

/// Are two strings the same sequence of characters?
pub fn str_eq(a: &str, b: &str) -> (r: bool)
    ensures
        r == (a@ == b@),
{
    let ab = a.as_bytes_vec();
    let bb = b.as_bytes_vec();
    proof {
        encode_utf8_decode_utf8(a@);
        encode_utf8_decode_utf8(b@);
    }
    if ab.len() != bb.len() {
        assert(encode_utf8(a@) != encode_utf8(b@));
        return false;
    }
    let mut i: usize = 0;
    while i < ab.len()
        invariant
            i <= ab@.len(),
            ab@.len() == bb@.len(),
            ab@ == encode_utf8(a@),
            bb@ == encode_utf8(b@),
            forall|j: int| 0 <= j < i ==> ab@[j] == bb@[j],
        decreases ab@.len() - i,
    {
        if ab[i] != bb[i] {
            assert(encode_utf8(a@) != encode_utf8(b@));
            proof {
                encode_utf8_decode_utf8(a@);
                encode_utf8_decode_utf8(b@);
            }
            return false;
        }
        i = i + 1;
    }
    assert(ab@ =~= bb@);
    proof {
        encode_utf8_decode_utf8(a@);
        encode_utf8_decode_utf8(b@);
    }
    true
}

/// The predicate "this entry's key is the string `k`".
pub open spec fn key_pred(k: Seq<char>) -> spec_fn((TextNode, TextNode)) -> bool {
    |e: (TextNode, TextNode)| e.0 is Str && e.0->Str_0@ == k
}

/// The value under key `k` of a dictionary node (first entry wins);
/// `None` for other node shapes or a missing key.
pub open spec fn sget(n: TextNode, k: Seq<char>) -> Option<TextNode> {
    match n {
        TextNode::Dict(es) => {
            let i = first_idx(es@, key_pred(k));
            if i >= 0 {
                Some(es@[i].1)
            } else {
                None
            }
        },
        _ => None,
    }
}

/// Look the value under key `k` up, as [`sget`] describes.
pub fn get_key<'a>(n: &'a TextNode, k: &str) -> (r: Option<&'a TextNode>)
    ensures
        match r {
            Some(v) => sget(*n, k@) == Some(*v),
            None => sget(*n, k@) is None,
        },
{
    match n {
        TextNode::Dict(es) => {
            let ghost p = key_pred(k@);
            let mut i: usize = 0;
            while i < es.len()
                invariant
                    i <= es@.len(),
                    p == key_pred(k@),
                    *n is Dict,
                    (*n)->Dict_0 == *es,
                    forall|j: int| 0 <= j < i ==> !p(#[trigger] es@[j]),
                decreases es@.len() - i,
            {
                match &es[i].0 {
                    TextNode::Str(s) => {
                        if str_eq(s.as_str(), k) {
                            proof {
                                assert(es@[i as int].0 is Str);
                                assert(es@[i as int].0->Str_0 == *s);
                                assert(p(es@[i as int]));
                                lemma_first_idx_is(es@, p, i as int);
                                assert((*n)->Dict_0 == *es);
                                assert(sget(*n, k@) == Some(es@[i as int].1));
                            }
                            return Some(&es[i].1);
                        }
                    },
                    _ => {},
                }
                proof {
                    assert(!p(es@[i as int]));
                }
                i = i + 1;
            }
            proof {
                lemma_first_idx_none(es@, p);
                assert((*n)->Dict_0 == *es);
            }
            None
        },
        _ => None,
    }
}

/// The integer value under key `k`, if the entry is present and an
/// integer scalar.
pub open spec fn sget_int(n: TextNode, k: Seq<char>) -> Option<i64> {
    match sget(n, k) {
        Some(TextNode::Int(v)) => Some(v),
        _ => None,
    }
}

/// Look an integer field up, as [`sget_int`] describes.
pub fn get_int(n: &TextNode, k: &str) -> (r: Option<i64>)
    ensures
        r == sget_int(*n, k@),
{
    match get_key(n, k) {
        Some(TextNode::Int(v)) => Some(*v),
        _ => None,
    }
}

// ---------------------------------------------------------------------------
// the graph's text decoding (materialize phase)
// ---------------------------------------------------------------------------
//
// Every persisted field sits in its own block: a `field_type` tag and the
// field's `value`, which is what the decoders read.

/// The node under field `k`'s `value`: the field convention — each
/// persisted field sits in a block with a `field_type` tag and the
/// `value` key.
pub open spec fn sget_val(n: TextNode, k: Seq<char>) -> Option<TextNode> {
    match sget(n, k) {
        Some(f) => sget(f, "value"@),
        None => None,
    }
}

/// The integer under field `k`'s `value`.
pub open spec fn sget_vint(n: TextNode, k: Seq<char>) -> Option<i64> {
    match sget(n, k) {
        Some(f) => sget_int(f, "value"@),
        None => None,
    }
}

/// Look an integer field's value up, as [`sget_vint`] describes.
pub fn get_vint(n: &TextNode, k: &str) -> (r: Option<i64>)
    ensures
        r == sget_vint(*n, k@),
{
    match get_key(n, k) {
        Some(f) => get_int(f, "value"),
        None => None,
    }
}

/// A decoded input pin: `id` and `display_name` fields, references unset.
pub open spec fn sdec_in_pin(n: TextNode) -> Option<InPinV> {
    match (sget_vint(n, "id"@), sget_val(n, "display_name"@)) {
        (Some(id), Some(TextNode::Str(s))) => {
            if 0 <= id <= u32::MAX {
                Some(InPinV { id: id as u32, display_name: s@, parent_node: 0, from: None })
            } else {
                None
            }
        },
        _ => None,
    }
}

/// A decoded link: target node and pin ids, unresolved.
pub open spec fn sdec_link(n: TextNode) -> Option<LinkV> {
    match (sget_vint(n, "node_id"@), sget_vint(n, "pin_id"@)) {
        (Some(a), Some(b)) => {
            if 0 <= a <= u32::MAX && 0 <= b <= u32::MAX {
                Some(LinkV { node_id: a as u32, pin_id: b as u32, resolved: false })
            } else {
                None
            }
        },
        _ => None,
    }
}

/// A decoded output pin: its id and its link list.
pub open spec fn sdec_out_pin(n: TextNode) -> Option<OutPinV> {
    match (sget_vint(n, "id"@), sget_val(n, "to"@)) {
        (Some(id), Some(TextNode::List(ls))) => {
            if 0 <= id <= u32::MAX && (forall|i: int|
                0 <= i < ls@.len() ==> sdec_link(#[trigger] ls@[i]) is Some) {
                Some(OutPinV {
                    id: id as u32,
                    parent_node: 0,
                    to: Seq::new(ls@.len(), |i: int| sdec_link(ls@[i]).unwrap()),
                })
            } else {
                None
            }
        },
        _ => None,
    }
}

/// A decoded node: identity, position, and both pin lists.
pub open spec fn sdec_gnode(n: TextNode) -> Option<NodeV> {
    match (sget_vint(n, "id"@), sget_vint(n, "pos_x"@), sget_vint(n, "pos_y"@), sget_val(
        n,
        "input_pin"@,
    ), sget_val(n, "output_pin"@)) {
        (Some(id), Some(px), Some(py), Some(TextNode::List(ips)), Some(TextNode::List(ops))) => {
            if 0 <= id <= u32::MAX && (forall|i: int|
                0 <= i < ips@.len() ==> sdec_in_pin(#[trigger] ips@[i]) is Some) && (forall|i: int|
                0 <= i < ops@.len() ==> sdec_out_pin(#[trigger] ops@[i]) is Some) {
                Some(NodeV {
                    id: id as u32,
                    pos_x: px,
                    pos_y: py,
                    input_pin: Seq::new(ips@.len(), |i: int| sdec_in_pin(ips@[i]).unwrap()),
                    output_pin: Seq::new(ops@.len(), |i: int| sdec_out_pin(ops@[i]).unwrap()),
                })
            } else {
                None
            }
        },
        _ => None,
    }
}

/// A decoded graph document: editor scalars and the node list.
pub open spec fn sdec_graph(n: TextNode) -> Option<(i64, i64, i64, i64, Seq<NodeV>)> {
    match (sget_vint(n, "zoom_scale"@), sget_vint(n, "center_x"@), sget_vint(n, "center_y"@),
    sget_vint(n, "seq"@), sget_val(n, "nodes"@)) {
        (Some(z), Some(cx), Some(cy), Some(sq), Some(TextNode::List(ns))) => {
            if 0 <= sq <= u32::MAX && (forall|i: int|
                0 <= i < ns@.len() ==> sdec_gnode(#[trigger] ns@[i]) is Some) {
                Some((z, cx, cy, sq, Seq::new(ns@.len(), |i: int| sdec_gnode(ns@[i]).unwrap())))
            } else {
                None
            }
        },
        _ => None,
    }
}

/// Decode one input pin, as [`sdec_in_pin`] describes.
fn dec_in_pin(n: &TextNode) -> (r: Option<InputPin>)
    ensures
        match r {
            Some(p) => sdec_in_pin(*n) == Some(p@),
            None => sdec_in_pin(*n) is None,
        },
{
    let id = match get_vint(n, "id") {
        Some(v) => v,
        None => {
            return None;
        },
    };
    if !(0 <= id && id <= u32::MAX as i64) {
        return None;
    }
    match get_val(n, "display_name") {
        Some(TextNode::Str(s)) => Some(
            InputPin {
                id: id as u32,
                display_name: s.clone(),
                parent_node: 0,
                from: None,
            },
        ),
        _ => None,
    }
}

/// Decode one link, as [`sdec_link`] describes.
fn dec_link(n: &TextNode) -> (r: Option<OutLink>)
    ensures
        match r {
            Some(l) => sdec_link(*n) == Some(l@),
            None => sdec_link(*n) is None,
        },
{
    let a = match get_vint(n, "node_id") {
        Some(v) => v,
        None => {
            return None;
        },
    };
    let b = match get_vint(n, "pin_id") {
        Some(v) => v,
        None => {
            return None;
        },
    };
    if 0 <= a && a <= u32::MAX as i64 && 0 <= b && b <= u32::MAX as i64 {
        Some(OutLink { node_id: a as u32, pin_id: b as u32, resolved: false })
    } else {
        None
    }
}

/// Decode one output pin, as [`sdec_out_pin`] describes.
fn dec_out_pin(n: &TextNode) -> (r: Option<OutputPin>)
    ensures
        match r {
            Some(p) => sdec_out_pin(*n) == Some(p@),
            None => sdec_out_pin(*n) is None,
        },
{
    let id = match get_vint(n, "id") {
        Some(v) => v,
        None => {
            return None;
        },
    };
    if !(0 <= id && id <= u32::MAX as i64) {
        return None;
    }
    match get_val(n, "to") {
        Some(nd) => match nd {
            TextNode::List(ls) => {
                let ghost lsv = ls@;
                let mut links: Vec<OutLink> = Vec::new();
                let mut i: usize = 0;
                while i < ls.len()
                    invariant
                        i <= ls@.len(),
                        lsv == ls@,
                        sget_vint(*n, "id"@) == Some(id),
                        0 <= id <= u32::MAX,
                        sget_val(*n, "to"@) == Some(TextNode::List(*ls)),
                        links@.len() == i as int,
                        forall|j: int|
                            0 <= j < i ==> sdec_link(#[trigger] ls@[j]) == Some(links@[j]@),
                    decreases ls@.len() - i,
                {
                    match dec_link(&ls[i]) {
                        Some(l) => {
                            links.push(l);
                            i = i + 1;
                        },
                        None => {
                            return None;
                        },
                    }
                }
                let p = OutputPin { id: id as u32, parent_node: 0, to: links };
                proof {
                    assert(p@.to =~= Seq::new(
                        ls@.len(),
                        |j: int| sdec_link(ls@[j]).unwrap(),
                    ));
                }
                Some(p)
            },
            _ => None,
        },
        None => None,
    }
}

/// Decode one graph node, as [`sdec_gnode`] describes.
fn dec_gnode(n: &TextNode) -> (r: Option<ShaderNode>)
    ensures
        match r {
            Some(v) => sdec_gnode(*n) == Some(v@),
            None => sdec_gnode(*n) is None,
        },
{
    let id = match get_vint(n, "id") {
        Some(v) => v,
        None => {
            return None;
        },
    };
    let px = match get_vint(n, "pos_x") {
        Some(v) => v,
        None => {
            return None;
        },
    };
    let py = match get_vint(n, "pos_y") {
        Some(v) => v,
        None => {
            return None;
        },
    };
    if !(0 <= id && id <= u32::MAX as i64) {
        return None;
    }
    let ips_node = match get_val(n, "input_pin") {
        Some(v) => v,
        None => {
            return None;
        },
    };
    let ops_node = match get_val(n, "output_pin") {
        Some(v) => v,
        None => {
            return None;
        },
    };
    match (ips_node, ops_node) {
        (TextNode::List(ips), TextNode::List(ops)) => {
            let mut in_pins: Vec<InputPin> = Vec::new();
            let mut i: usize = 0;
            while i < ips.len()
                invariant
                    i <= ips@.len(),
                    sget_vint(*n, "id"@) == Some(id),
                    sget_vint(*n, "pos_x"@) == Some(px),
                    sget_vint(*n, "pos_y"@) == Some(py),
                    0 <= id <= u32::MAX,
                    sget_val(*n, "input_pin"@) == Some(TextNode::List(*ips)),
                    sget_val(*n, "output_pin"@) == Some(TextNode::List(*ops)),
                    in_pins@.len() == i as int,
                    forall|j: int|
                        0 <= j < i ==> sdec_in_pin(#[trigger] ips@[j]) == Some(in_pins@[j]@),
                decreases ips@.len() - i,
            {
                match dec_in_pin(&ips[i]) {
                    Some(p) => {
                        in_pins.push(p);
                        i = i + 1;
                    },
                    None => {
                        return None;
                    },
                }
            }
            let mut out_pins: Vec<OutputPin> = Vec::new();
            let mut i2: usize = 0;
            while i2 < ops.len()
                invariant
                    i2 <= ops@.len(),
                    sget_vint(*n, "id"@) == Some(id),
                    sget_vint(*n, "pos_x"@) == Some(px),
                    sget_vint(*n, "pos_y"@) == Some(py),
                    0 <= id <= u32::MAX,
                    sget_val(*n, "input_pin"@) == Some(TextNode::List(*ips)),
                    sget_val(*n, "output_pin"@) == Some(TextNode::List(*ops)),
                    forall|j: int|
                        0 <= j < ips@.len() ==> sdec_in_pin(#[trigger] ips@[j]) is Some,
                    out_pins@.len() == i2 as int,
                    forall|j: int|
                        0 <= j < i2 ==> sdec_out_pin(#[trigger] ops@[j]) == Some(out_pins@[j]@),
                decreases ops@.len() - i2,
            {
                match dec_out_pin(&ops[i2]) {
                    Some(p) => {
                        out_pins.push(p);
                        i2 = i2 + 1;
                    },
                    None => {
                        return None;
                    },
                }
            }
            let v = ShaderNode {
                id: id as u32,
                pos_x: px,
                pos_y: py,
                input_pin: in_pins,
                output_pin: out_pins,
            };
            proof {
                assert(v@.input_pin =~= Seq::new(
                    ips@.len(),
                    |j: int| sdec_in_pin(ips@[j]).unwrap(),
                ));
                assert(v@.output_pin =~= Seq::new(
                    ops@.len(),
                    |j: int| sdec_out_pin(ops@[j]).unwrap(),
                ));
            }
            Some(v)
        },
        _ => None,
    }
}

/// Decode a whole graph document, as [`sdec_graph`] describes.
pub fn graph_from_node(n: &TextNode) -> (r: Option<ShaderGraph>)
    ensures
        match r {
            Some(g) => sdec_graph(*n) == Some((
                g.zoom_scale,
                g.center_x,
                g.center_y,
                g.seq as i64,
                nodes_view(g.nodes@),
            )),
            None => sdec_graph(*n) is None,
        },
{
    let z = match get_vint(n, "zoom_scale") {
        Some(v) => v,
        None => {
            return None;
        },
    };
    let cx = match get_vint(n, "center_x") {
        Some(v) => v,
        None => {
            return None;
        },
    };
    let cy = match get_vint(n, "center_y") {
        Some(v) => v,
        None => {
            return None;
        },
    };
    let sq = match get_vint(n, "seq") {
        Some(v) => v,
        None => {
            return None;
        },
    };
    if !(0 <= sq && sq <= u32::MAX as i64) {
        return None;
    }
    match get_val(n, "nodes") {
        Some(nd) => match nd {
            TextNode::List(ns) => {
                let mut nodes: Vec<ShaderNode> = Vec::new();
                let mut i: usize = 0;
                while i < ns.len()
                    invariant
                        i <= ns@.len(),
                        sget_vint(*n, "zoom_scale"@) == Some(z),
                        sget_vint(*n, "center_x"@) == Some(cx),
                        sget_vint(*n, "center_y"@) == Some(cy),
                        sget_vint(*n, "seq"@) == Some(sq),
                        0 <= sq <= u32::MAX,
                        sget_val(*n, "nodes"@) == Some(TextNode::List(*ns)),
                        nodes@.len() == i as int,
                        forall|j: int|
                            0 <= j < i ==> sdec_gnode(#[trigger] ns@[j]) == Some(
                                nodes_view(nodes@)[j],
                            ),
                        nodes_view(nodes@).len() == nodes@.len(),
                    decreases ns@.len() - i,
                {
                    let ghost prev = nodes@;
                    match dec_gnode(&ns[i]) {
                        Some(v) => {
                            nodes.push(v);
                            proof {
                                assert(forall|j: int|
                                    0 <= j < prev.len() ==> #[trigger] nodes_view(nodes@)[j]
                                        == nodes_view(prev)[j]);
                                assert(nodes_view(nodes@)[prev.len() as int] == v@);
                            }
                            i = i + 1;
                        },
                        None => {
                            return None;
                        },
                    }
                }
                let g = ShaderGraph {
                    zoom_scale: z,
                    center_x: cx,
                    center_y: cy,
                    seq: sq as u32,
                    nodes,
                };
                proof {
                    assert(nodes_view(g.nodes@) =~= Seq::new(
                        ns@.len(),
                        |j: int| sdec_gnode(ns@[j]).unwrap(),
                    ));
                }
                Some(g)
            },
            _ => None,
        },
        None => None,
    }
}

/// The two-phase text load of a graph: parse the document, materialize
/// every node (with all cross references unset), then run the link
/// fixup.  `None` exactly when the document does not parse, does not
/// decode as a graph, or holds a dangling link.
pub fn load_from_text(s: &str) -> (r: Option<ShaderGraph>)
    ensures
        ({
            match parsed_of(s@) {
                None => r is None,
                Some(n) => match sdec_graph(n) {
                    None => r is None,
                    Some((z, cx, cy, sq, ns)) => {
                        if crate::shader::all_targets_exist(ns) {
                            &&& r is Some
                            &&& nodes_view(r->Some_0.nodes@) == crate::shader::sfixup(ns)
                            &&& r->Some_0.zoom_scale == z
                            &&& r->Some_0.center_x == cx
                            &&& r->Some_0.center_y == cy
                            &&& r->Some_0.seq as i64 == sq
                        } else {
                            r is None
                        }
                    },
                },
            }
        }),
{
    let node = match parse_text_doc(s) {
        Some(n) => n,
        None => {
            return None;
        },
    };
    let mut g = match graph_from_node(&node) {
        Some(g) => g,
        None => {
            return None;
        },
    };
    if g.link_fixup() {
        Some(g)
    } else {
        None
    }
}

// ---------------------------------------------------------------------------
// the entity tree's text form
// ---------------------------------------------------------------------------
//
// A reflected structure's text form is one entry per persisted field: the
// field name introduces a block carrying a `field_type` tag and a `value`
// key with the field's own form.  Sequences hold one `array_item` entry
// per element, key-ordered mappings one `map_item` entry per pair, and a
// polymorphic element carries a `type_uuid` tag beside its fields.

/// A value found under a key sits strictly inside the dictionary.
pub proof fn lemma_sget_smaller(n: TextNode, k: Seq<char>)
    requires
        sget(n, k) is Some,
    ensures
        decreases_to!(n => sget(n, k)->Some_0),
{
    let es = n->Dict_0;
    let i = first_idx(es@, key_pred(k));
    crate::component::lemma_first_idx(es@, key_pred(k));
    assert(decreases_to!(n => es));
    assert(decreases_to!(es => es@));
    assert(decreases_to!(es@ => es@[i]));
    assert(decreases_to!(es@[i] => es@[i].1));
}

/// A field's value sits strictly inside the structure's node.
pub proof fn lemma_sget_val_smaller(n: TextNode, k: Seq<char>)
    requires
        sget_val(n, k) is Some,
    ensures
        decreases_to!(n => sget_val(n, k)->Some_0),
{
    lemma_sget_smaller(n, k);
    lemma_sget_smaller(sget(n, k)->Some_0, "value"@);
}

/// Decode a matrix: a flow sequence of exactly sixteen integer entries.
pub open spec fn sdec_text_mat(n: TextNode) -> Option<Seq<i64>> {
    match n {
        TextNode::List(es) => {
            if es@.len() == 16 && (forall|i: int| 0 <= i < 16 ==> (#[trigger] es@[i]) is Int) {
                Some(Seq::new(16, |i: int| es@[i]->Int_0))
            } else {
                None
            }
        },
        _ => None,
    }
}

/// Decode one polymorphic component: the concrete kind from its
/// `type_uuid` tag, then the kind's persisted fields, each under its
/// field's `value`.
pub open spec fn sdec_text_comp(n: TextNode) -> Option<crate::codec::PCompV> {
    match sget(n, "type_uuid"@) {
        Some(TextNode::Str(us)) => match crate::format::spec_uuid_parse(us@) {
            Some(u) => {
                if u == crate::component::TRANSFORM_TYPE_UUID {
                    match (sget_val(n, "local_matrix"@), sget_val(n, "world_matrix"@)) {
                        (Some(lm), Some(wm)) => match (sdec_text_mat(lm), sdec_text_mat(wm)) {
                            (Some(local), Some(world)) => Some(
                                crate::codec::PCompV::Transform { local, world },
                            ),
                            _ => None,
                        },
                        _ => None,
                    }
                } else if u == crate::component::RENDER_TYPE_UUID {
                    match (sget_val(n, "object"@), sget_val(n, "skeleton"@)) {
                        (Some(TextNode::Str(o)), Some(TextNode::Str(sk))) => Some(
                            crate::codec::PCompV::Render { object: o@, skeleton: sk@ },
                        ),
                        _ => None,
                    }
                } else {
                    None
                }
            },
            None => None,
        },
        _ => None,
    }
}

/// Decode a sequence of child entities, each an `array_item` entry.
pub open spec fn sdec_text_children(s: Seq<TextNode>) -> Option<Seq<crate::codec::PEntityV>>
    decreases s, 2nat,
{
    if s.len() == 0 {
        Some(Seq::empty())
    } else {
        match sdec_text_entity(s[0]) {
            Some(e) => match sdec_text_children(s.drop_first()) {
                Some(es) => Some(seq![e] + es),
                None => None,
            },
            None => None,
        }
    }
}

/// Decode one entity from its text node: the `base` block holds the name
/// and the textual 128-bit identity, `children` one `array_item` entry
/// per child (decoded recursively), and `components` the two partitions,
/// the singleton one as `map_item` entries.  Malformed required fields,
/// unregistered type identifiers, and partition-discipline violations
/// are fatal.
pub open spec fn sdec_text_entity(n: TextNode) -> Option<crate::codec::PEntityV>
    decreases n, 1nat,
    via sdec_text_entity_dec
{
    match (sget_val(n, "base"@), sget_val(n, "children"@), sget_val(n, "components"@)) {
        (Some(base), Some(TextNode::List(ch)), Some(comps)) => {
            match (sget_val(base, "name"@), sget_val(base, "instance_id"@)) {
                (Some(TextNode::Str(name)), Some(TextNode::Str(us))) => {
                    match crate::format::spec_uuid_parse(us@) {
                        Some(iid) => {
                            match (sget_val(comps, "uniq_comp"@), sget_val(
                                comps,
                                "multi_comp"@,
                            )) {
                                (Some(TextNode::List(uq)), Some(TextNode::List(ml))) => {
                                    match sdec_text_children(ch@) {
                                        Some(children) => {
                                            if (forall|i: int|
                                                0 <= i < uq@.len() ==> sdec_text_comp(
                                                    #[trigger] uq@[i],
                                                ) is Some) && (forall|i: int|
                                                0 <= i < ml@.len() ==> sdec_text_comp(
                                                    #[trigger] ml@[i],
                                                ) is Some) && crate::codec::pcomps_wf(
                                                Seq::new(
                                                    uq@.len(),
                                                    |i: int| sdec_text_comp(uq@[i]).unwrap(),
                                                ),
                                                Seq::new(
                                                    ml@.len(),
                                                    |i: int| sdec_text_comp(ml@[i]).unwrap(),
                                                ),
                                            ) {
                                                Some(
                                                    crate::codec::PEntityV {
                                                        name: name@,
                                                        instance_id: iid,
                                                        children,
                                                        uniq: Seq::new(
                                                            uq@.len(),
                                                            |i: int| sdec_text_comp(
                                                                uq@[i],
                                                            ).unwrap(),
                                                        ),
                                                        multi: Seq::new(
                                                            ml@.len(),
                                                            |i: int| sdec_text_comp(
                                                                ml@[i],
                                                            ).unwrap(),
                                                        ),
                                                    },
                                                )
                                            } else {
                                                None
                                            }
                                        },
                                        None => None,
                                    }
                                },
                                _ => None,
                            }
                        },
                        None => None,
                    }
                },
                _ => None,
            }
        },
        _ => None,
    }
}

#[via_fn]
proof fn sdec_text_entity_dec(n: TextNode) {
    if sget_val(n, "children"@) is Some {
        lemma_sget_val_smaller(n, "children"@);
        let chn = sget_val(n, "children"@)->Some_0;
        if chn is List {
            let ch = chn->List_0;
            assert(decreases_to!(chn => ch));
            assert(decreases_to!(ch => ch@));
        }
    }
}

/// Children decode exactly when every entry decodes, pointwise.
pub proof fn lemma_sdec_text_children(s: Seq<TextNode>)
    ensures
        (sdec_text_children(s) is Some) <==> (forall|i: int|
            0 <= i < s.len() ==> sdec_text_entity(#[trigger] s[i]) is Some),
        sdec_text_children(s) is Some ==> sdec_text_children(s)->Some_0.len() == s.len() && (
        forall|i: int|
            0 <= i < s.len() ==> sdec_text_entity(#[trigger] s[i]) == Some(
                sdec_text_children(s)->Some_0[i],
            )),
    decreases s,
{
    if s.len() > 0 {
        let t = s.drop_first();
        lemma_sdec_text_children(t);
        assert(forall|i: int| 0 <= i < s.len() - 1 ==> #[trigger] t[i] == s[i + 1]);
        if sdec_text_entity(s[0]) is None {
            assert(sdec_text_children(s) is None);
            assert(0 <= 0 < s.len() && sdec_text_entity(s[0]) is None);
        } else if sdec_text_children(t) is None {
            assert(sdec_text_children(s) is None);
            let i = choose|i: int| 0 <= i < t.len() && sdec_text_entity(#[trigger] t[i]) is None;
            assert(sdec_text_entity(s[i + 1]) is None);
        } else {
            let es = sdec_text_children(s)->Some_0;
            let tail = sdec_text_children(t)->Some_0;
            assert(es == seq![sdec_text_entity(s[0])->Some_0] + tail);
            assert(forall|i: int| 0 < i < s.len() ==> es[i] == tail[i - 1]);
            assert forall|i: int|
                0 <= i < s.len() implies sdec_text_entity(#[trigger] s[i]) == Some(es[i]) by {
                if i == 0 {
                    assert(es[0] == sdec_text_entity(s[0])->Some_0);
                } else {
                    assert(t[i - 1] == s[i]);
                    assert(es[i] == tail[i - 1]);
                    assert(sdec_text_entity(t[i - 1]) == Some(tail[i - 1]));
                }
            }
        }
    }
}

/// Look a field's value up, as [`sget_val`] describes.
pub fn get_val<'a>(n: &'a TextNode, k: &str) -> (r: Option<&'a TextNode>)
    ensures
        match r {
            Some(v) => sget_val(*n, k@) == Some(*v),
            None => sget_val(*n, k@) is None,
        },
{
    match get_key(n, k) {
        Some(f) => get_key(f, "value"),
        None => None,
    }
}

/// Decode a matrix node, as [`sdec_text_mat`] describes.
fn dec_text_mat(n: &TextNode) -> (r: Option<crate::mat::Mat4>)
    ensures
        match r {
            Some(m) => m.wf() && sdec_text_mat(*n) == Some(m.m@),
            None => sdec_text_mat(*n) is None,
        },
{
    match n {
        TextNode::List(es) => {
            if es.len() != 16 {
                return None;
            }
            let mut m: Vec<i64> = Vec::new();
            let mut i: usize = 0;
            while i < 16
                invariant
                    i <= 16,
                    *n is List,
                    (*n)->List_0 == *es,
                    es@.len() == 16,
                    m@.len() == i as int,
                    forall|j: int|
                        0 <= j < i ==> (#[trigger] es@[j]) is Int && es@[j]->Int_0 == m@[j],
                decreases 16 - i,
            {
                match &es[i] {
                    TextNode::Int(v) => {
                        m.push(*v);
                        i = i + 1;
                    },
                    _ => {
                        return None;
                    },
                }
            }
            let r = crate::mat::Mat4 { m };
            proof {
                assert(r.m@ =~= Seq::new(16, |j: int| es@[j]->Int_0));
            }
            Some(r)
        },
        _ => None,
    }
}

/// Decode one polymorphic component node, giving the instance runtime
/// handle `cid`, as [`sdec_text_comp`] describes.
fn dec_text_comp(n: &TextNode, cid: u64) -> (r: Option<crate::component::Component>)
    ensures
        match r {
            Some(c) => c@.wf() && sdec_text_comp(*n) == Some(crate::codec::strip_comp(c@)),
            None => sdec_text_comp(*n) is None,
        },
{
    let us = match get_key(n, "type_uuid") {
        Some(TextNode::Str(us)) => us,
        _ => {
            return None;
        },
    };
    let u = match crate::format::uuid_from_str(us.as_str()) {
        Some(u) => u,
        None => {
            return None;
        },
    };
    if u == crate::component::TRANSFORM_TYPE_UUID {
        let lm = match get_val(n, "local_matrix") {
            Some(v) => v,
            None => {
                return None;
            },
        };
        let wm = match get_val(n, "world_matrix") {
            Some(v) => v,
            None => {
                return None;
            },
        };
        match (dec_text_mat(lm), dec_text_mat(wm)) {
            (Some(local), Some(world)) => Some(
                crate::component::Component::Transform(
                    crate::component::TransformComponent {
                        id: cid,
                        local_matrix: local,
                        world_matrix: world,
                    },
                ),
            ),
            _ => None,
        }
    } else if u == crate::component::RENDER_TYPE_UUID {
        let o = match get_val(n, "object") {
            Some(TextNode::Str(o)) => o,
            _ => {
                return None;
            },
        };
        let sk = match get_val(n, "skeleton") {
            Some(TextNode::Str(sk)) => sk,
            _ => {
                return None;
            },
        };
        Some(
            crate::component::Component::Render(
                crate::component::RenderComponent {
                    id: cid,
                    object: crate::component::ExtRes { path: o.clone() },
                    skeleton: crate::component::ExtRes { path: sk.clone() },
                },
            ),
        )
    } else {
        None
    }
}

/// Decode one component partition node (a list of tagged entries).
fn dec_text_partition(es: &Vec<TextNode>, idc: &mut u64) -> (r: Option<
    Vec<crate::component::Component>,
>)
    ensures
        *final(idc) >= *old(idc),
        match r {
            Some(v) => v@.len() == es@.len() && (forall|j: int|
                0 <= j < es@.len() ==> sdec_text_comp(#[trigger] es@[j]) == Some(
                    crate::codec::strip_comp(crate::component::comps_view(v@)[j]),
                )) && (forall|j: int|
                0 <= j < es@.len() ==> (#[trigger] crate::component::comps_view(v@)[j]).wf()),
            None => exists|j: int|
                0 <= j < es@.len() && sdec_text_comp(#[trigger] es@[j]) is None,
        },
{
    let mut v: Vec<crate::component::Component> = Vec::new();
    let mut i: usize = 0;
    while i < es.len()
        invariant
            i <= es@.len(),
            *idc >= *old(idc),
            v@.len() == i as int,
            forall|j: int|
                0 <= j < i ==> sdec_text_comp(#[trigger] es@[j]) == Some(
                    crate::codec::strip_comp(crate::component::comps_view(v@)[j]),
                ),
            forall|j: int|
                0 <= j < i ==> (#[trigger] crate::component::comps_view(v@)[j]).wf(),
        decreases es@.len() - i,
    {
        let cid = *idc;
        if *idc < u64::MAX {
            *idc = *idc + 1;
        }
        let ghost vprev = v@;
        match dec_text_comp(&es[i], cid) {
            Some(c) => {
                v.push(c);
                proof {
                    assert(forall|j: int|
                        0 <= j < vprev.len() ==> #[trigger] crate::component::comps_view(v@)[j]
                            == crate::component::comps_view(vprev)[j]);
                    assert(crate::component::comps_view(v@)[vprev.len() as int] == c@);
                }
                i = i + 1;
            },
            None => {
                return None;
            },
        }
    }
    Some(v)
}

/// Decode one entity subtree from its text node, drawing fresh runtime
/// handles from `idc` and setting its parent back-reference to `parent`,
/// as [`sdec_text_entity`] describes.
#[verifier::rlimit(100)]
#[verifier::spinoff_prover]
pub fn entity_from_node(n: &TextNode, idc: &mut u64, parent: u64) -> (r: Option<
    crate::entity::Entity,
>)
    requires
        *old(idc) != 0,
    ensures
        *final(idc) >= *old(idc),
        *final(idc) != 0,
        match r {
            Some(e) => e@.wf() && e@.parent_id == parent && sdec_text_entity(*n) == Some(
                crate::codec::strip_ent(e@),
            ),
            None => sdec_text_entity(*n) is None,
        },
    decreases n,
{
    let base = match get_val(n, "base") {
        Some(v) => v,
        None => {
            return None;
        },
    };
    let chn = match get_val(n, "children") {
        Some(v) => v,
        None => {
            return None;
        },
    };
    let comps = match get_val(n, "components") {
        Some(v) => v,
        None => {
            return None;
        },
    };
    let ch = match chn {
        TextNode::List(ch) => ch,
        _ => {
            return None;
        },
    };
    let name = match get_val(base, "name") {
        Some(TextNode::Str(s2)) => s2,
        _ => {
            return None;
        },
    };
    let us = match get_val(base, "instance_id") {
        Some(TextNode::Str(s2)) => s2,
        _ => {
            return None;
        },
    };
    let iid = match crate::format::uuid_from_str(us.as_str()) {
        Some(u) => u,
        None => {
            return None;
        },
    };
    let uq = match get_val(comps, "uniq_comp") {
        Some(TextNode::List(v)) => v,
        _ => {
            return None;
        },
    };
    let ml = match get_val(comps, "multi_comp") {
        Some(TextNode::List(v)) => v,
        _ => {
            return None;
        },
    };
    let my_id = *idc;
    if *idc < u64::MAX {
        *idc = *idc + 1;
    }
    let mut children: Vec<crate::entity::Entity> = Vec::new();
    let mut i: usize = 0;
    proof {
        lemma_sget_val_smaller(*n, "children"@);
        assert(decreases_to!(*chn => *ch));
        assert(decreases_to!(*ch => ch@));
    }
    while i < ch.len()
        invariant
            i <= ch@.len(),
            my_id != 0,
            my_id == *old(idc),
            *idc >= my_id,
            *idc != 0,
            children@.len() == i as int,
            sget_val(*n, "base"@) == Some(*base),
            sget_val(*n, "children"@) == Some(TextNode::List(*ch)),
            sget_val(*n, "components"@) == Some(*comps),
            sget_val(*base, "name"@) == Some(TextNode::Str(*name)),
            sget_val(*base, "instance_id"@) == Some(TextNode::Str(*us)),
            crate::format::spec_uuid_parse(us@) == Some(iid),
            sget_val(*comps, "uniq_comp"@) == Some(TextNode::List(*uq)),
            sget_val(*comps, "multi_comp"@) == Some(TextNode::List(*ml)),
            decreases_to!(*n => ch@),
            forall|j: int|
                0 <= j < i ==> sdec_text_entity(#[trigger] ch@[j]) == Some(
                    crate::codec::strip_ent(crate::entity::forest_view(children@)[j]),
                ),
            forall|j: int|
                0 <= j < i ==> (#[trigger] crate::entity::forest_view(children@)[j]).wf()
                    && crate::entity::forest_view(children@)[j].parent_id == my_id,
            crate::entity::forest_view(children@).len() == children@.len(),
        decreases ch@.len() - i,
    {
        proof {
            assert(decreases_to!(ch@ => ch@[i as int]));
        }
        let ghost chprev = children@;
        match entity_from_node(&ch[i], idc, my_id) {
            Some(c) => {
                proof {
                    crate::entity::lemma_forest_view(chprev);
                }
                children.push(c);
                proof {
                    crate::entity::lemma_forest_view_push(chprev, c);
                    crate::entity::lemma_forest_view(children@);
                }
                i = i + 1;
            },
            None => {
                proof {
                    lemma_sdec_text_children(ch@);
                    assert(sdec_text_children(ch@) is None);
                    assert(sdec_text_entity(*n) is None);
                }
                return None;
            },
        }
    }
    proof {
        assert(forall|j: int|
            0 <= j < ch@.len() ==> sdec_text_entity(#[trigger] ch@[j]) is Some);
        lemma_sdec_text_children(ch@);
        assert(sdec_text_children(ch@) is Some);
    }
    let uniq_comp = match dec_text_partition(uq, idc) {
        Some(v) => v,
        None => {
            return None;
        },
    };
    let multi_comp = match dec_text_partition(ml, idc) {
        Some(v) => v,
        None => {
            return None;
        },
    };
    let ghost su = crate::codec::strip_comps(crate::component::comps_view(uniq_comp@));
    let ghost sm = crate::codec::strip_comps(crate::component::comps_view(multi_comp@));
    proof {
        assert(su =~= Seq::new(uq@.len(), |j: int| sdec_text_comp(uq@[j])->Some_0));
        assert(sm =~= Seq::new(ml@.len(), |j: int| sdec_text_comp(ml@[j])->Some_0));
    }
    if !crate::codec::check_partitions(&uniq_comp, &multi_comp) {
        return None;
    }
    let e = crate::entity::Entity {
        id: my_id,
        name: name.clone(),
        instance_id: iid,
        parent_id: parent,
        children,
        components: crate::component::Components { uniq_comp, multi_comp },
    };
    proof {
        crate::entity::lemma_forest_view(e.children@);
        crate::codec::lemma_strip_forest(crate::entity::forest_view(e.children@));
        assert forall|j: int|
            0 <= j < ch@.len() implies crate::codec::strip_forest(
            crate::entity::forest_view(e.children@),
        )[j] == sdec_text_children(ch@)->Some_0[j] by {
            assert(sdec_text_entity(ch@[j]) == Some(
                crate::codec::strip_ent(crate::entity::forest_view(e.children@)[j]),
            ));
            assert(sdec_text_entity(ch@[j]) == Some(sdec_text_children(ch@)->Some_0[j]));
        }
        assert(crate::codec::strip_forest(crate::entity::forest_view(e.children@))
            =~= sdec_text_children(ch@)->Some_0);
        assert(su == Seq::new(uq@.len(), |j: int| sdec_text_comp(uq@[j])->Some_0));
        assert(sm == Seq::new(ml@.len(), |j: int| sdec_text_comp(ml@[j])->Some_0));
        assert(forall|j: int|
            0 <= j < uq@.len() ==> sdec_text_comp(#[trigger] uq@[j]) is Some);
        assert(forall|j: int|
            0 <= j < ml@.len() ==> sdec_text_comp(#[trigger] ml@[j]) is Some);
        let ghost squ = Seq::new(uq@.len(), |j2: int| sdec_text_comp(uq@[j2]).unwrap());
        let ghost sqm = Seq::new(ml@.len(), |j2: int| sdec_text_comp(ml@[j2]).unwrap());
        assert forall|j: int| 0 <= j < uq@.len() implies #[trigger] squ[j] == su[j] by {
            assert(sdec_text_comp(uq@[j]).unwrap() == sdec_text_comp(uq@[j])->Some_0);
        }
        assert(squ =~= su);
        assert forall|j: int| 0 <= j < ml@.len() implies #[trigger] sqm[j] == sm[j] by {
            assert(sdec_text_comp(ml@[j]).unwrap() == sdec_text_comp(ml@[j])->Some_0);
        }
        assert(sqm =~= sm);
        assert(crate::codec::pcomps_wf(squ, sqm));
        assert(crate::codec::strip_ent(e@).children == sdec_text_children(ch@)->Some_0);
        assert(crate::codec::strip_ent(e@) == sdec_text_entity(*n)->Some_0);
        assert(e@.wf()) by {
            assert(e@.components.uniq == crate::component::comps_view(e.components.uniq_comp@));
            assert(forall|j: int|
                0 <= j < su.len() ==> (#[trigger] e@.components.uniq[j]).kind()
                    == su[j].pkind());
            assert(forall|j: int|
                0 <= j < sm.len() ==> (#[trigger] e@.components.multi[j]).kind()
                    == sm[j].pkind());
        }
    }
    Some(e)
}

// ---------------------------------------------------------------------------
// emitting the entity tree's text form
// ---------------------------------------------------------------------------

/// A key at position `p`, preceded by no entry with that key, is what the
/// dictionary lookup finds.
proof fn lemma_dict_get(n: TextNode, k: Seq<char>, p: int)
    requires
        n is Dict,
        0 <= p < n->Dict_0@.len(),
        key_pred(k)(n->Dict_0@[p]),
        forall|j: int| 0 <= j < p ==> !key_pred(k)(#[trigger] n->Dict_0@[j]),
    ensures
        sget(n, k) == Some(n->Dict_0@[p].1),
{
    lemma_first_idx_is(n->Dict_0@, key_pred(k), p);
}

/// One field block: the `field_type` tag and the field's `value`.
fn fv(t: &'static str, v: TextNode) -> (r: TextNode)
    ensures
        r is Dict,
        sget(r, "value"@) == Some(v),
{
    let mut es: Vec<(TextNode, TextNode)> = Vec::new();
    es.push((TextNode::Str(String::from_str("field_type")), TextNode::Str(String::from_str(t))));
    es.push((TextNode::Str(String::from_str("value")), v));
    let r = TextNode::Dict(es);
    proof {
        reveal_strlit("field_type");
        reveal_strlit("value");
        assert(r->Dict_0@[0].0 is Str);
        assert(r->Dict_0@[0].0->Str_0@ == "field_type"@);
        assert("field_type"@ != "value"@);
        assert(!key_pred("value"@)(r->Dict_0@[0]));
        assert(key_pred("value"@)(r->Dict_0@[1]));
        lemma_dict_get(r, "value"@, 1);
    }
    r
}

/// The matrix's text form: a flow sequence of its sixteen entries.
fn mat_to_node(m: &crate::mat::Mat4) -> (r: TextNode)
    requires
        m.wf(),
    ensures
        sdec_text_mat(r) == Some(m.m@),
{
    let mut es: Vec<TextNode> = Vec::new();
    let mut i: usize = 0;
    while i < 16
        invariant
            i <= 16,
            m.wf(),
            es@.len() == i as int,
            forall|j: int| 0 <= j < i ==> (#[trigger] es@[j]) == TextNode::Int(m.m@[j]),
        decreases 16 - i,
    {
        es.push(TextNode::Int(m.m[i]));
        i = i + 1;
    }
    let r = TextNode::List(es);
    proof {
        assert(forall|j: int| 0 <= j < 16 ==> (#[trigger] r->List_0@[j]) is Int);
        assert(Seq::new(16, |j: int| r->List_0@[j]->Int_0) =~= m.m@);
    }
    r
}

/// One component's text entry: the partition tag, the `type_uuid` of its
/// concrete kind, and the kind's persisted fields.
fn comp_to_node(c: &crate::component::Component, tag: &'static str) -> (r: TextNode)
    requires
        c@.wf(),
        tag@ == "map_item"@ || tag@ == "array_item"@,
    ensures
        sdec_text_comp(r) == Some(crate::codec::strip_comp(c@)),
{
    let ghost tagv = tag@;
    proof {
        reveal_strlit("map_item");
        reveal_strlit("array_item");
        reveal_strlit("type_uuid");
        reveal_strlit("local_matrix");
        reveal_strlit("world_matrix");
        reveal_strlit("object");
        reveal_strlit("skeleton");
    }
    let mut es: Vec<(TextNode, TextNode)> = Vec::new();
    es.push((TextNode::Str(String::from_str(tag)), TextNode::Null));
    match c {
        crate::component::Component::Transform(t) => {
            let us = crate::format::u128_to_uuid_string(
                crate::component::TRANSFORM_TYPE_UUID,
            );
            es.push((TextNode::Str(String::from_str("type_uuid")), TextNode::Str(us)));
            es.push((
                TextNode::Str(String::from_str("local_matrix")),
                fv("Mat4", mat_to_node(&t.local_matrix)),
            ));
            es.push((
                TextNode::Str(String::from_str("world_matrix")),
                fv("Mat4", mat_to_node(&t.world_matrix)),
            ));
            let r = TextNode::Dict(es);
            proof {
                let ghost ev = r->Dict_0@;
                assert(ev[0].0 is Str && ev[0].0->Str_0@ == tagv);
                assert(ev[1].0 is Str && ev[1].0->Str_0@ == "type_uuid"@);
                assert(ev[2].0 is Str && ev[2].0->Str_0@ == "local_matrix"@);
                assert(ev[3].0 is Str && ev[3].0->Str_0@ == "world_matrix"@);
                assert(tagv != "type_uuid"@ && tagv != "local_matrix"@ && tagv
                    != "world_matrix"@);
                assert(!key_pred("type_uuid"@)(ev[0]));
                lemma_dict_get(r, "type_uuid"@, 1);
                assert(!key_pred("local_matrix"@)(ev[0]) && !key_pred("local_matrix"@)(ev[1]));
                lemma_dict_get(r, "local_matrix"@, 2);
                assert("local_matrix"@ != "world_matrix"@) by {
                    assert("local_matrix"@[0] == 'l');
                    assert("world_matrix"@[0] == 'w');
                }
                assert(!key_pred("world_matrix"@)(ev[0]) && !key_pred("world_matrix"@)(ev[1])
                    && !key_pred("world_matrix"@)(ev[2]));
                lemma_dict_get(r, "world_matrix"@, 3);
                crate::format::lemma_uuid_round_trip(crate::component::TRANSFORM_TYPE_UUID);
                assert(sdec_text_comp(r) == Some(crate::codec::strip_comp(c@)));
            }
            r
        },
        crate::component::Component::Render(rc) => {
            let us = crate::format::u128_to_uuid_string(crate::component::RENDER_TYPE_UUID);
            es.push((TextNode::Str(String::from_str("type_uuid")), TextNode::Str(us)));
            es.push((
                TextNode::Str(String::from_str("object")),
                fv("ExtRes", TextNode::Str(rc.object.path.clone())),
            ));
            es.push((
                TextNode::Str(String::from_str("skeleton")),
                fv("ExtRes", TextNode::Str(rc.skeleton.path.clone())),
            ));
            let r = TextNode::Dict(es);
            proof {
                let ghost ev = r->Dict_0@;
                assert(ev[0].0 is Str && ev[0].0->Str_0@ == tagv);
                assert(ev[1].0 is Str && ev[1].0->Str_0@ == "type_uuid"@);
                assert(ev[2].0 is Str && ev[2].0->Str_0@ == "object"@);
                assert(ev[3].0 is Str && ev[3].0->Str_0@ == "skeleton"@);
                assert(tagv != "skeleton"@) by {
                    if tagv == "map_item"@ {
                        assert("map_item"@[0] == 'm');
                        assert("skeleton"@[0] == 's');
                    }
                }
                assert(tagv != "type_uuid"@ && tagv != "object"@);
                assert(!key_pred("type_uuid"@)(ev[0]));
                lemma_dict_get(r, "type_uuid"@, 1);
                assert(!key_pred("object"@)(ev[0]) && !key_pred("object"@)(ev[1]));
                lemma_dict_get(r, "object"@, 2);
                assert(!key_pred("skeleton"@)(ev[0]) && !key_pred("skeleton"@)(ev[1])
                    && !key_pred("skeleton"@)(ev[2]));
                lemma_dict_get(r, "skeleton"@, 3);
                crate::format::lemma_uuid_round_trip(crate::component::RENDER_TYPE_UUID);
                assert(sdec_text_comp(r) == Some(crate::codec::strip_comp(c@)));
            }
            r
        },
    }
}

/// A leading entry with a different key does not change a lookup.
proof fn lemma_sget_cons(big: TextNode, small: TextNode, k: Seq<char>)
    requires
        big is Dict,
        small is Dict,
        big->Dict_0@.len() >= 1,
        big->Dict_0@.drop_first() == small->Dict_0@,
        !key_pred(k)(big->Dict_0@[0]),
    ensures
        sget(big, k) == sget(small, k),
{
    let eb = big->Dict_0@;
    let es = small->Dict_0@;
    crate::component::lemma_first_idx(eb, key_pred(k));
    crate::component::lemma_first_idx(es, key_pred(k));
    let ib = first_idx(eb, key_pred(k));
    let is0 = first_idx(es, key_pred(k));
    assert(forall|j: int| 0 <= j < es.len() ==> #[trigger] es[j] == eb[j + 1]);
    if is0 >= 0 {
        crate::component::lemma_first_idx_is(eb, key_pred(k), is0 + 1);
    } else {
        crate::component::lemma_first_idx_none(eb, key_pred(k));
    }
}

/// One component partition's text entries.
fn partition_to_nodes(v: &Vec<crate::component::Component>, tag: &'static str) -> (r: Vec<
    TextNode,
>)
    requires
        tag@ == "map_item"@ || tag@ == "array_item"@,
        forall|j: int|
            0 <= j < v@.len() ==> (#[trigger] crate::component::comps_view(v@)[j]).wf(),
    ensures
        r@.len() == v@.len(),
        forall|j: int|
            0 <= j < v@.len() ==> sdec_text_comp(#[trigger] r@[j]) == Some(
                crate::codec::strip_comp(crate::component::comps_view(v@)[j]),
            ),
{
    let mut r: Vec<TextNode> = Vec::new();
    let mut i: usize = 0;
    while i < v.len()
        invariant
            i <= v@.len(),
            tag@ == "map_item"@ || tag@ == "array_item"@,
            r@.len() == i as int,
            forall|j: int|
                0 <= j < v@.len() ==> (#[trigger] crate::component::comps_view(v@)[j]).wf(),
            forall|j: int|
                0 <= j < i ==> sdec_text_comp(#[trigger] r@[j]) == Some(
                    crate::codec::strip_comp(crate::component::comps_view(v@)[j]),
                ),
        decreases v@.len() - i,
    {
        proof {
            assert(crate::component::comps_view(v@)[i as int] == (v@[i as int])@);
        }
        let cn = comp_to_node(&v[i], tag);
        r.push(cn);
        i = i + 1;
    }
    r
}

/// The text node of one entity subtree, per the field conventions.  The
/// node decodes back to exactly the entity's persisted fields: the text
/// form's round trip, at the node level (the outside parser bridges the
/// rendered characters back to nodes at run time).
#[verifier::rlimit(100)]
#[verifier::spinoff_prover]
pub fn entity_to_node(ent: &crate::entity::Entity) -> (n: TextNode)
    requires
        ent@.wf(),
    ensures
        n is Dict,
        sdec_text_entity(n) == Some(crate::codec::strip_ent(ent@)),
    decreases ent,
{
    proof {
        reveal_strlit("name");
        reveal_strlit("instance_id");
        reveal_strlit("base");
        reveal_strlit("children");
        reveal_strlit("components");
        reveal_strlit("uniq_comp");
        reveal_strlit("multi_comp");
        reveal_strlit("array_item");
    }
    let name_fv = fv("String", TextNode::Str(ent.name.clone()));
    let us = crate::format::u128_to_uuid_string(ent.instance_id);
    let iid_fv = fv("Uuid", TextNode::Str(us));
    let mut base_es: Vec<(TextNode, TextNode)> = Vec::new();
    base_es.push((TextNode::Str(String::from_str("name")), name_fv));
    base_es.push((TextNode::Str(String::from_str("instance_id")), iid_fv));
    let base_inner = TextNode::Dict(base_es);
    proof {
        let ghost bv = base_inner->Dict_0@;
        assert(bv[0].0 is Str && bv[0].0->Str_0@ == "name"@);
        assert(bv[1].0 is Str && bv[1].0->Str_0@ == "instance_id"@);
        lemma_dict_get(base_inner, "name"@, 0);
        assert(!key_pred("instance_id"@)(bv[0]));
        lemma_dict_get(base_inner, "instance_id"@, 1);
    }
    let mut items: Vec<TextNode> = Vec::new();
    let mut i: usize = 0;
    while i < ent.children.len()
        invariant
            i <= ent.children@.len(),
            ent@.wf(),
            items@.len() == i as int,
            forall|j: int|
                0 <= j < i ==> sdec_text_entity(#[trigger] items@[j]) == Some(
                    crate::codec::strip_ent((ent.children@[j])@),
                ),
        decreases ent.children@.len() - i,
    {
        proof {
            reveal_strlit("array_item");
            reveal_strlit("base");
            reveal_strlit("children");
            reveal_strlit("components");
            crate::entity::lemma_forest_view(ent.children@);
            assert((ent.children@[i as int])@ == ent@.children[i as int]);
            assert(ent@.children[i as int].wf());
            assert(decreases_to!(ent => ent.children));
            assert(decreases_to!(ent.children => ent.children@));
            assert(decreases_to!(ent.children@ => ent.children@[i as int]));
        }
        let cn = entity_to_node(&ent.children[i]);
        let item = match cn {
            TextNode::Dict(mut es0) => {
                let ghost small = TextNode::Dict(es0);
                es0.insert(0, (TextNode::Str(String::from_str("array_item")), TextNode::Null));
                let big = TextNode::Dict(es0);
                proof {
                    assert(big->Dict_0@.drop_first() =~= small->Dict_0@);
                    assert(big->Dict_0@[0].0 is Str && big->Dict_0@[0].0->Str_0@
                        == "array_item"@);
                    assert("array_item"@ != "base"@);
                    assert("array_item"@ != "children"@) by {
                        assert("array_item"@[0] == 'a');
                        assert("children"@[0] == 'c');
                    }
                    assert("array_item"@ != "components"@) by {
                        assert("array_item"@[0] == 'a');
                        assert("components"@[0] == 'c');
                    }
                    lemma_sget_cons(big, small, "base"@);
                    lemma_sget_cons(big, small, "children"@);
                    lemma_sget_cons(big, small, "components"@);
                    assert(sdec_text_entity(big) == sdec_text_entity(small));
                }
                big
            },
            _ => {
                proof {
                    assert(false);
                }
                TextNode::Null
            },
        };
        items.push(item);
        i = i + 1;
    }
    let children_fv = fv("Vec<Entity>", TextNode::List(items));
    let uq_items = partition_to_nodes(&ent.components.uniq_comp, "map_item");
    let ml_items = partition_to_nodes(&ent.components.multi_comp, "array_item");
    let uq_fv = fv("HashMap", TextNode::List(uq_items));
    let ml_fv = fv("Vec", TextNode::List(ml_items));
    let mut comps_es: Vec<(TextNode, TextNode)> = Vec::new();
    comps_es.push((TextNode::Str(String::from_str("uniq_comp")), uq_fv));
    comps_es.push((TextNode::Str(String::from_str("multi_comp")), ml_fv));
    let comps_inner = TextNode::Dict(comps_es);
    proof {
        let ghost cv = comps_inner->Dict_0@;
        assert(cv[0].0 is Str && cv[0].0->Str_0@ == "uniq_comp"@);
        assert(cv[1].0 is Str && cv[1].0->Str_0@ == "multi_comp"@);
        lemma_dict_get(comps_inner, "uniq_comp"@, 0);
        assert(!key_pred("multi_comp"@)(cv[0]));
        lemma_dict_get(comps_inner, "multi_comp"@, 1);
    }
    let base_blk = fv("BaseObject", base_inner);
    let comps_blk = fv("Components", comps_inner);
    let mut top_es: Vec<(TextNode, TextNode)> = Vec::new();
    top_es.push((TextNode::Str(String::from_str("base")), base_blk));
    top_es.push((TextNode::Str(String::from_str("children")), children_fv));
    top_es.push((TextNode::Str(String::from_str("components")), comps_blk));
    let top = TextNode::Dict(top_es);
    proof {
        let ghost tv = top->Dict_0@;
        assert(tv[0].0 is Str && tv[0].0->Str_0@ == "base"@);
        assert(tv[1].0 is Str && tv[1].0->Str_0@ == "children"@);
        assert(tv[2].0 is Str && tv[2].0->Str_0@ == "components"@);
        lemma_dict_get(top, "base"@, 0);
        assert(!key_pred("children"@)(tv[0]));
        lemma_dict_get(top, "children"@, 1);
        assert(!key_pred("components"@)(tv[0]) && !key_pred("components"@)(tv[1]));
        lemma_dict_get(top, "components"@, 2);
        crate::format::lemma_uuid_round_trip(ent.instance_id);
        crate::entity::lemma_forest_view(ent.children@);
        crate::codec::lemma_strip_forest(crate::entity::forest_view(ent.children@));
        lemma_sdec_text_children(items@);
        assert(sdec_text_children(items@) is Some);
        assert(sdec_text_children(items@)->Some_0 =~= crate::codec::strip_forest(
            crate::entity::forest_view(ent.children@),
        )) by {
            assert forall|j: int|
                0 <= j < items@.len() implies sdec_text_children(items@)->Some_0[j]
                == crate::codec::strip_forest(crate::entity::forest_view(ent.children@))[j] by {
                assert(sdec_text_entity(items@[j]) == Some(
                    crate::codec::strip_ent((ent.children@[j])@),
                ));
            }
        }
        let ghost su = crate::codec::strip_comps(ent@.components.uniq);
        let ghost sm = crate::codec::strip_comps(ent@.components.multi);
        let ghost squ = Seq::new(
            uq_items@.len(),
            |j: int| sdec_text_comp(uq_items@[j]).unwrap(),
        );
        let ghost sqm = Seq::new(
            ml_items@.len(),
            |j: int| sdec_text_comp(ml_items@[j]).unwrap(),
        );
        assert forall|j: int| 0 <= j < uq_items@.len() implies #[trigger] squ[j] == su[j] by {
            assert(sdec_text_comp(uq_items@[j]) == Some(
                crate::codec::strip_comp(ent@.components.uniq[j]),
            ));
        }
        assert(squ =~= su);
        assert forall|j: int| 0 <= j < ml_items@.len() implies #[trigger] sqm[j] == sm[j] by {
            assert(sdec_text_comp(ml_items@[j]) == Some(
                crate::codec::strip_comp(ent@.components.multi[j]),
            ));
        }
        assert(sqm =~= sm);
        assert(crate::codec::pcomps_wf(su, sm)) by {
            assert(forall|j: int|
                0 <= j < su.len() ==> (#[trigger] su[j]).pkind() == ent@.components.uniq[
                    j
                ].kind());
            assert(forall|j: int|
                0 <= j < sm.len() ==> (#[trigger] sm[j]).pkind() == ent@.components.multi[
                    j
                ].kind());
        }
        assert(sdec_text_entity(top) == Some(crate::codec::strip_ent(ent@)));
    }
    top
}

// ---------------------------------------------------------------------------
// rendering the entity tree's text form
// ---------------------------------------------------------------------------

/// `n` spaces.
pub open spec fn sp(n: nat) -> Seq<char>
    decreases n,
{
    if n == 0 {
        Seq::empty()
    } else {
        sp((n - 1) as nat) + seq![' ']
    }
}

/// A quoted string (contents carried verbatim; quotes, backslashes and
/// line breaks inside names are not supported by the text form, as its
/// reader processes escapes).
pub open spec fn q(s: Seq<char>) -> Seq<char> {
    seq!['"'] + s + seq!['"']
}

/// The flow form of the matrix entries, comma separated.
pub open spec fn stext_mat_items(m: Seq<i64>) -> Seq<char>
    decreases m.len(),
{
    if m.len() == 0 {
        Seq::empty()
    } else if m.len() == 1 {
        crate::format::spec_dec_i64(m[0])
    } else {
        crate::format::spec_dec_i64(m[0]) + ","@ + " "@ + stext_mat_items(m.drop_first())
    }
}

pub open spec fn stext_mat(m: Seq<i64>) -> Seq<char> {
    "["@ + stext_mat_items(m) + "]"@
}

/// One line opening a field block: the field name, its `field_type` tag,
/// and the `value` key.
pub open spec fn stext_field_head(k: Seq<char>, t: Seq<char>, ind: nat) -> Seq<char> {
    "\n"@ + sp(ind) + k + ":"@ + "\n"@ + sp(ind + 2) + "field_type: "@ + q(t) + "\n"@ + sp(
        ind + 2,
    ) + "value:"@
}

/// One component entry: its partition tag, its `type_uuid`, and the
/// kind's persisted fields.
pub open spec fn stext_comp(c: crate::codec::PCompV, tag: Seq<char>, ind: nat) -> Seq<char> {
    "\n"@ + sp(ind) + "- "@ + tag + ": ~"@ + "\n"@ + sp(ind + 2) + "type_uuid: "@ + q(
        crate::format::spec_uuid_str(c.type_uuid()),
    ) + (match c {
        crate::codec::PCompV::Transform { local, world } => stext_field_head(
            "local_matrix"@,
            "Mat4"@,
            (ind + 2) as nat,
        ) + " "@ + stext_mat(local) + stext_field_head("world_matrix"@, "Mat4"@, (ind + 2) as nat)
            + " "@ + stext_mat(world),
        crate::codec::PCompV::Render { object, skeleton } => stext_field_head(
            "object"@,
            "ExtRes"@,
            (ind + 2) as nat,
        ) + " "@ + q(object) + stext_field_head("skeleton"@, "ExtRes"@, (ind + 2) as nat) + " "@
            + q(skeleton),
    })
}

/// One component partition: its entries in order, or the empty-list
/// literal.
pub open spec fn stext_comps(s: Seq<crate::codec::PCompV>, tag: Seq<char>, ind: nat) -> Seq<
    char,
>
    decreases s.len(),
{
    if s.len() == 0 {
        Seq::empty()
    } else {
        stext_comp(s[0], tag, ind) + stext_comps(s.drop_first(), tag, ind)
    }
}

/// The child entries: one `array_item` per child, each holding the
/// child's own entries.
pub open spec fn stext_children(s: Seq<crate::codec::PEntityV>, ind: nat) -> Seq<char>
    decreases s, 0nat,
{
    if s.len() == 0 {
        Seq::empty()
    } else {
        "\n"@ + sp(ind) + "- array_item: ~"@ + stext_entity(s[0], (ind + 2) as nat)
            + stext_children(s.drop_first(), ind)
    }
}

/// The base block of one entity: its name and identity fields.
pub open spec fn stext_ent_base(e: crate::codec::PEntityV, ind: nat) -> Seq<char> {
    stext_field_head("base"@, "BaseObject"@, ind) + stext_field_head(
        "name"@,
        "String"@,
        (ind + 4) as nat,
    ) + " "@ + q(e.name) + stext_field_head("instance_id"@, "Uuid"@, (ind + 4) as nat) + " "@ + q(
        crate::format::spec_uuid_str(e.instance_id),
    )
}

/// The name, identity and child entries of one entity.
pub open spec fn stext_ent_head(e: crate::codec::PEntityV, ind: nat) -> Seq<char>
    decreases e, 1nat,
{
    stext_ent_base(e, ind) + stext_field_head("children"@, "Vec<Entity>"@, ind) + (
    if e.children.len() == 0 {
        " []"@
    } else {
        stext_children(e.children, (ind + 4) as nat)
    })
}

/// The component entries of one entity.
pub open spec fn stext_ent_comps(e: crate::codec::PEntityV, ind: nat) -> Seq<char> {
    stext_field_head("components"@, "Components"@, ind) + stext_field_head(
        "uniq_comp"@,
        "HashMap"@,
        (ind + 4) as nat,
    ) + (if e.uniq.len() == 0 {
        " []"@
    } else {
        stext_comps(e.uniq, "map_item"@, (ind + 8) as nat)
    }) + stext_field_head("multi_comp"@, "Vec"@, (ind + 4) as nat) + (if e.multi.len() == 0 {
        " []"@
    } else {
        stext_comps(e.multi, "array_item"@, (ind + 8) as nat)
    })
}

/// The structured text of one entity's persisted fields at indent `ind`:
/// the `base` block with name and identity, the child sequence, and the
/// two component partitions, per the field conventions.
pub open spec fn stext_entity(e: crate::codec::PEntityV, ind: nat) -> Seq<char>
    decreases e, 2nat,
{
    stext_ent_head(e, ind) + stext_ent_comps(e, ind)
}

/// The depth of a persisted subtree: how many entity levels it nests.
pub open spec fn pdepth(e: crate::codec::PEntityV) -> nat
    decreases e, 1nat,
{
    1 + pdepth_max(e.children)
}

/// The deepest nesting among a sequence of subtrees.
pub open spec fn pdepth_max(s: Seq<crate::codec::PEntityV>) -> nat
    decreases s, 0nat,
{
    if s.len() == 0 {
        0
    } else if pdepth(s[0]) >= pdepth_max(s.drop_first()) {
        pdepth(s[0])
    } else {
        pdepth_max(s.drop_first())
    }
}

/// Every subtree of a sequence nests no deeper than the deepest.
proof fn lemma_pdepth_max(s: Seq<crate::codec::PEntityV>, i: int)
    requires
        0 <= i < s.len(),
    ensures
        pdepth(s[i]) <= pdepth_max(s),
    decreases s.len(),
{
    if i > 0 {
        assert(s.drop_first()[i - 1] == s[i]);
        lemma_pdepth_max(s.drop_first(), i - 1);
    }
}

/// Append `n` spaces.
fn write_spaces(out: &mut String, n: usize)
    ensures
        final(out)@ == old(out)@ + sp(n as nat),
{
    let mut i: usize = 0;
    while i < n
        invariant
            i <= n,
            out@ =~= old(out)@ + sp(i as nat),
        decreases n - i,
    {
        out.append(" ");
        proof {
            reveal_strlit(" ");
            assert(out@ =~= old(out)@ + sp((i + 1) as nat));
        }
        i = i + 1;
    }
}

/// Append a quoted string.
fn write_quoted(out: &mut String, s: &str)
    ensures
        final(out)@ == old(out)@ + q(s@),
{
    out.append("\"");
    out.append(s);
    out.append("\"");
    proof {
        reveal_strlit("\"");
        assert(final(out)@ =~= old(out)@ + q(s@));
    }
}

/// Append a field block's opening: name, type tag, `value` key.
fn write_field_head(out: &mut String, k: &str, t: &str, ind: usize)
    requires
        ind + 2 <= usize::MAX,
    ensures
        final(out)@ == old(out)@ + stext_field_head(k@, t@, ind as nat),
{
    out.append("\n");
    write_spaces(out, ind);
    out.append(k);
    out.append(":");
    out.append("\n");
    write_spaces(out, ind + 2);
    out.append("field_type: ");
    write_quoted(out, t);
    out.append("\n");
    write_spaces(out, ind + 2);
    out.append("value:");
    proof {
        assert(final(out)@ =~= old(out)@ + stext_field_head(k@, t@, ind as nat));
    }
}

/// Append the rendered entries from index `i` on, comma separated.
fn write_mat_items(out: &mut String, m: &Vec<i64>, i: usize)
    requires
        i <= m@.len(),
    ensures
        final(out)@ == old(out)@ + stext_mat_items(m@.skip(i as int)),
    decreases m@.len() - i, 1nat,
{
    if i >= m.len() {
        proof {
            assert(m@.skip(i as int) =~= Seq::<i64>::empty());
        }
    } else {
        let t = crate::format::i64_to_string(m[i]);
        out.append(t.as_str());
        proof {
            assert(m@.skip(i as int)[0] == m@[i as int]);
        }
        if i + 1 == m.len() {
            proof {
                assert(m@.skip(i as int).len() == 1);
                assert(out@ =~= old(out)@ + stext_mat_items(m@.skip(i as int)));
            }
        } else {
            out.append(",");
            out.append(" ");
            write_mat_items_tail(out, m, i);
            proof {
                assert(m@.skip(i as int).drop_first() =~= m@.skip(i as int + 1));
                assert(out@ =~= old(out)@ + stext_mat_items(m@.skip(i as int)));
            }
        }
    }
}

/// The recursive tail of [`write_mat_items`].
fn write_mat_items_tail(out: &mut String, m: &Vec<i64>, i: usize)
    requires
        i + 1 < m@.len(),
    ensures
        final(out)@ == old(out)@ + stext_mat_items(m@.skip(i as int + 1)),
    decreases m@.len() - i, 0nat,
{
    let n = m.len();
    write_mat_items(out, m, i + 1);
}

/// Append the flow form of the matrix entries.
fn write_mat(out: &mut String, m: &crate::mat::Mat4)
    ensures
        final(out)@ == old(out)@ + stext_mat(m.m@),
{
    out.append("[");
    write_mat_items(out, &m.m, 0);
    out.append("]");
    proof {
        reveal_strlit(",");
        reveal_strlit(" ");
        assert(m.m@.skip(0) =~= m.m@);
        assert(final(out)@ =~= old(out)@ + stext_mat(m.m@));
    }
}

/// Append one component entry.
#[verifier::rlimit(100)]
#[verifier::spinoff_prover]
fn write_comp(out: &mut String, c: &crate::component::Component, tag: &'static str, ind: usize)
    requires
        ind + 8 <= usize::MAX,
    ensures
        final(out)@ == old(out)@ + stext_comp(
            crate::codec::strip_comp(c@),
            tag@,
            ind as nat,
        ),
{
    out.append("\n");
    write_spaces(out, ind);
    out.append("- ");
    out.append(tag);
    out.append(": ~");
    out.append("\n");
    write_spaces(out, ind + 2);
    out.append("type_uuid: ");
    match c {
        crate::component::Component::Transform(t) => {
            let us = crate::format::u128_to_uuid_string(
                crate::component::TRANSFORM_TYPE_UUID,
            );
            write_quoted(out, us.as_str());
            write_field_head(out, "local_matrix", "Mat4", ind + 2);
            out.append(" ");
            write_mat(out, &t.local_matrix);
            write_field_head(out, "world_matrix", "Mat4", ind + 2);
            out.append(" ");
            write_mat(out, &t.world_matrix);
            proof {
                assert(final(out)@ =~= old(out)@ + stext_comp(
                    crate::codec::strip_comp(c@),
                    tag@,
                    ind as nat,
                ));
            }
        },
        crate::component::Component::Render(rc) => {
            let us = crate::format::u128_to_uuid_string(crate::component::RENDER_TYPE_UUID);
            write_quoted(out, us.as_str());
            write_field_head(out, "object", "ExtRes", ind + 2);
            out.append(" ");
            write_quoted(out, rc.object.path.as_str());
            write_field_head(out, "skeleton", "ExtRes", ind + 2);
            out.append(" ");
            write_quoted(out, rc.skeleton.path.as_str());
            proof {
                assert(final(out)@ =~= old(out)@ + stext_comp(
                    crate::codec::strip_comp(c@),
                    tag@,
                    ind as nat,
                ));
            }
        },
    }
}

/// Append one partition's entries from index `i` on.
fn write_comps(out: &mut String, v: &Vec<crate::component::Component>, i: usize, tag:
    &'static str, ind: usize)
    requires
        i <= v@.len(),
        ind + 8 <= usize::MAX,
    ensures
        final(out)@ == old(out)@ + stext_comps(
            crate::codec::strip_comps(crate::component::comps_view(v@)).skip(i as int),
            tag@,
            ind as nat,
        ),
    decreases v@.len() - i,
{
    let ghost strips = crate::codec::strip_comps(crate::component::comps_view(v@));
    if i >= v.len() {
        proof {
            assert(strips.skip(i as int) =~= Seq::<crate::codec::PCompV>::empty());
        }
    } else {
        write_comp(out, &v[i], tag, ind);
        proof {
            assert(strips.skip(i as int)[0] == strips[i as int]);
            assert(strips[i as int] == crate::codec::strip_comp((v@[i as int])@));
        }
        write_comps(out, v, i + 1, tag, ind);
        proof {
            assert(strips.skip(i as int).drop_first() =~= strips.skip(i as int + 1));
            assert(out@ =~= old(out)@ + stext_comps(strips.skip(i as int), tag@, ind as nat));
        }
    }
}

/// Append the child entries from index `i` on.
#[verifier::rlimit(100)]
#[verifier::spinoff_prover]
fn write_children(out: &mut String, v: &Vec<crate::entity::Entity>, i: usize, ind: usize)
    requires
        i <= v@.len(),
        ind + 2 + 16 * pdepth_max(
            crate::codec::strip_forest(crate::entity::forest_view(v@)),
        ) + 32 <= usize::MAX,
    ensures
        final(out)@ == old(out)@ + stext_children_from(
            crate::codec::strip_forest(crate::entity::forest_view(v@)),
            i as int,
            ind as nat,
        ),
    decreases v, v@.len() - i, 0nat,
{
    let ghost strips = crate::codec::strip_forest(crate::entity::forest_view(v@));
    proof {
        crate::entity::lemma_forest_view(v@);
        crate::codec::lemma_strip_forest(crate::entity::forest_view(v@));
    }
    if i >= v.len() {
    } else {
        out.append("\n");
        write_spaces(out, ind);
        out.append("- array_item: ~");
        proof {
            assert(strips[i as int] == crate::codec::strip_ent((v@[i as int])@));
            lemma_pdepth_max(strips, i as int);
            assert(decreases_to!(v => v@));
            assert(decreases_to!(v@ => v@[i as int]));
        }
        write_entity_text(out, &v[i], ind + 2);
        write_children(out, v, i + 1, ind);
        proof {
            assert(out@ =~= old(out)@ + stext_children_from(strips, i as int, ind as nat));
        }
    }
}

/// The child entries from index `i` on.
pub open spec fn stext_children_from(s: Seq<crate::codec::PEntityV>, i: int, ind: nat) -> Seq<
    char,
>
    decreases s.len() - i,
{
    if i < 0 || i >= s.len() {
        Seq::empty()
    } else {
        "\n"@ + sp(ind) + "- array_item: ~"@ + stext_entity(s[i], (ind + 2) as nat)
            + stext_children_from(s, i + 1, ind)
    }
}

/// The two child-entry forms agree.
proof fn lemma_stext_children_from(s: Seq<crate::codec::PEntityV>, i: int, ind: nat)
    requires
        0 <= i <= s.len(),
    ensures
        stext_children_from(s, i, ind) == stext_children(s.skip(i), ind),
    decreases s.len() - i,
{
    if i < s.len() {
        lemma_stext_children_from(s, i + 1, ind);
        assert(s.skip(i)[0] == s[i]);
        assert(s.skip(i).drop_first() =~= s.skip(i + 1));
        assert(stext_children_from(s, i, ind) =~= stext_children(s.skip(i), ind));
    } else {
        assert(s.skip(i) =~= Seq::<crate::codec::PEntityV>::empty());
    }
}

/// Append the name, identity and child entries.
#[verifier::rlimit(100)]
#[verifier::spinoff_prover]
fn write_ent_base(out: &mut String, ent: &crate::entity::Entity, ind: usize)
    requires
        ind + 16 <= usize::MAX,
    ensures
        final(out)@ == old(out)@ + stext_ent_base(crate::codec::strip_ent(ent@), ind as nat),
{
    write_field_head(out, "base", "BaseObject", ind);
    write_field_head(out, "name", "String", ind + 4);
    out.append(" ");
    write_quoted(out, ent.name.as_str());
    write_field_head(out, "instance_id", "Uuid", ind + 4);
    out.append(" ");
    let us = crate::format::u128_to_uuid_string(ent.instance_id);
    write_quoted(out, us.as_str());
    proof {
        assert(final(out)@ =~= old(out)@ + stext_ent_base(
            crate::codec::strip_ent(ent@),
            ind as nat,
        ));
    }
}

/// Append the name, identity and child entries.
#[verifier::rlimit(100)]
#[verifier::spinoff_prover]
fn write_ent_head(out: &mut String, ent: &crate::entity::Entity, ind: usize)
    requires
        ind + 16 * pdepth(crate::codec::strip_ent(ent@)) + 32 <= usize::MAX,
    ensures
        final(out)@ == old(out)@ + stext_ent_head(crate::codec::strip_ent(ent@), ind as nat),
    decreases ent, 0nat, 1nat,
{
    let ghost se = crate::codec::strip_ent(ent@);
    write_ent_base(out, ent, ind);
    write_field_head(out, "children", "Vec<Entity>", ind);
    proof {
        crate::entity::lemma_forest_view(ent.children@);
        crate::codec::lemma_strip_forest(crate::entity::forest_view(ent.children@));
        assert(se.children == crate::codec::strip_forest(
            crate::entity::forest_view(ent.children@),
        ));
        assert(pdepth(se) == 1 + pdepth_max(se.children));
    }
    if ent.children.len() == 0 {
        out.append(" []");
        proof {
            assert(se.children.len() == 0);
            assert(final(out)@ =~= old(out)@ + stext_ent_head(se, ind as nat));
        }
    } else {
        write_children(out, &ent.children, 0, ind + 4);
        proof {
            lemma_stext_children_from(se.children, 0, (ind + 4) as nat);
            assert(se.children.skip(0) =~= se.children);
            assert(final(out)@ =~= old(out)@ + stext_ent_head(se, ind as nat));
        }
    }
}

/// Append the component entries.
#[verifier::rlimit(100)]
#[verifier::spinoff_prover]
fn write_ent_comps(out: &mut String, ent: &crate::entity::Entity, ind: usize)
    requires
        ind + 16 <= usize::MAX,
    ensures
        final(out)@ == old(out)@ + stext_ent_comps(crate::codec::strip_ent(ent@), ind as nat),
{
    let ghost se = crate::codec::strip_ent(ent@);
    write_field_head(out, "components", "Components", ind);
    write_field_head(out, "uniq_comp", "HashMap", ind + 4);
    if ent.components.uniq_comp.len() == 0 {
        out.append(" []");
        proof {
            assert(se.uniq.len() == 0);
        }
    } else {
        write_comps(out, &ent.components.uniq_comp, 0, "map_item", ind + 8);
        proof {
            assert(se.uniq.skip(0) =~= se.uniq);
        }
    }
    write_field_head(out, "multi_comp", "Vec", ind + 4);
    if ent.components.multi_comp.len() == 0 {
        out.append(" []");
        proof {
            assert(se.multi.len() == 0);
            assert(final(out)@ =~= old(out)@ + stext_ent_comps(se, ind as nat));
        }
    } else {
        write_comps(out, &ent.components.multi_comp, 0, "array_item", ind + 8);
        proof {
            assert(se.multi.skip(0) =~= se.multi);
            assert(final(out)@ =~= old(out)@ + stext_ent_comps(se, ind as nat));
        }
    }
}

/// Append one entity's entries at indent `ind`, as [`stext_entity`]
/// describes.
fn write_entity_text(out: &mut String, ent: &crate::entity::Entity, ind: usize)
    requires
        ind + 16 * pdepth(crate::codec::strip_ent(ent@)) + 32 <= usize::MAX,
    ensures
        final(out)@ == old(out)@ + stext_entity(crate::codec::strip_ent(ent@), ind as nat),
    decreases ent, 0nat, 2nat,
{
    write_ent_head(out, ent, ind);
    write_ent_comps(out, ent, ind);
    proof {
        assert(final(out)@ =~= old(out)@ + stext_entity(
            crate::codec::strip_ent(ent@),
            ind as nat,
        ));
    }
}

/// The structured text of a whole entity subtree, as [`stext_entity`]
/// describes at indent zero.  The nesting must fit the machine's address
/// range, which any materializable tree does.
pub fn serialize_text_entity(ent: &crate::entity::Entity) -> (r: String)
    requires
        16 * pdepth(crate::codec::strip_ent(ent@)) + 32 <= usize::MAX,
    ensures
        r@ == stext_entity(crate::codec::strip_ent(ent@), 0),
{
    let mut out = String::new();
    write_entity_text(&mut out, ent, 0);
    out
}

/// Load an entity subtree from a structured text document: parse, then
/// decode the node tree, drawing fresh runtime handles from `idc`; the
/// decoded root is parentless.  `None` exactly when the document does
/// not parse or does not decode as an entity.
pub fn load_from_yaml(s: &str, idc: &mut u64) -> (r: Option<crate::entity::Entity>)
    requires
        *old(idc) != 0,
    ensures
        *final(idc) >= *old(idc),
        *final(idc) != 0,
        ({
            match parsed_of(s@) {
                None => r is None,
                Some(n) => match sdec_text_entity(n) {
                    None => r is None,
                    Some(pe) => match r {
                        Some(e) => e@.wf() && e@.parent_id == 0 && crate::codec::strip_ent(e@)
                            == pe,
                        None => false,
                    },
                },
            }
        }),
{
    let node = match parse_text_doc(s) {
        Some(n) => n,
        None => {
            return None;
        },
    };
    entity_from_node(&node, idc, 0)
}

} // verus!
