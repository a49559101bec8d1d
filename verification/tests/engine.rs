use eldra::bytes::{decode_string, decode_u128, decode_u32, encode_string, encode_u128, encode_u32,
    encode_u64};
use eldra::component::{Component, ComponentKind};
use eldra::codec::{deserialize_binary, serialize_binary};
use eldra::data::{Material, Skeleton, Texture};
use eldra::entity::Entity;
use eldra::format::{i64_to_string, u64_to_string};
use eldra::mat::{mat_mul, Mat4};
use eldra::registry::{entity_reflect_info, init_reflection, transform_reflect_info};
use eldra::scene::{engine_init, Scene};
use eldra::shader::{InputPin, OutLink, OutputPin, ShaderGraph, ShaderNode};

fn transform_of(e: &Entity) -> &eldra::component::TransformComponent {
    for c in e.components.uniq_comp.iter() {
        if let Component::Transform(t) = c {
            return t;
        }
    }
    panic!("no transform component");
}

fn root_of(s: &Scene, h: u64) -> &Entity {
    for r in s.roots.iter() {
        if r.id == h {
            return r;
        }
    }
    panic!("not a root");
}

/// The full end-to-end flow: entity creation and reparenting, transform
/// components, ticking, and a serialization round trip (this one runs
/// through the binary form; the text form has its own round-trip test).
#[test]
fn main() {
    let mut scene = engine_init();

    // test entity
    let parent = Entity::pinned(&mut scene);
    let parent2 = Entity::pinned(&mut scene);
    let child = Entity::pinned(&mut scene);
    assert_eq!(scene.add_child(parent, child), true);
    assert_eq!(scene.add_child(parent, child), false);
    assert_eq!(scene.add_child(parent2, child), false);
    assert_eq!(scene.get_parent(child), parent);
    assert_eq!(scene.remove_child(scene.get_parent(child), child), true);
    assert_eq!(scene.get_parent(child), 0);
    assert_eq!(scene.remove_child(parent, child), false);
    assert_eq!(scene.remove_child(parent2, child), false);
    assert_eq!(scene.add_child(parent, child), true);
    assert_eq!(scene.destroy(child), true);
    assert_eq!(scene.destroy(parent), true);
    assert_eq!(scene.destroy(parent2), true);

    // test transform
    let c1 = Entity::pinned(&mut scene);
    let tr1 = scene.create_component(c1, ComponentKind::Transform).unwrap();
    assert!(scene.create_component(c1, ComponentKind::Transform).is_none());
    assert_eq!(scene.remove_component(c1, tr1), true);
    let tr1 = scene.create_component(c1, ComponentKind::Transform).unwrap();
    let c2 = Entity::pinned(&mut scene);
    let _tr2 = scene.create_component(c2, ComponentKind::Transform).unwrap();
    assert_eq!(scene.add_child(c1, c2), true);

    let _info1 = entity_reflect_info();
    let _info2 = transform_reflect_info();

    for _ in 0..3 {
        assert!(scene.scale(tr1, 2, 2, 2));
        assert!(scene.translate(tr1, 1, 1, 1));
        assert!(scene.tick(c1, 1));
    }

    // test serialize: encode the whole tree and decode it back
    let root = root_of(&scene, c1);
    let mut buf: Vec<u8> = Vec::new();
    serialize_binary(root, &mut buf);
    let mut pos: usize = 0;
    let mut idc: u64 = 1000;
    let back = deserialize_binary(&buf, &mut pos, &mut idc, 0).expect("decode failed");
    assert_eq!(pos, buf.len());
    assert_eq!(back.name, root.name);
    assert_eq!(back.instance_id, root.instance_id);
    assert_eq!(back.children.len(), 1);
    assert_eq!(back.children[0].name, root.children[0].name);
    let t_orig = transform_of(root);
    let t_back = transform_of(&back);
    assert_eq!(t_back.local_matrix.m, t_orig.local_matrix.m);
    assert_eq!(t_back.world_matrix.m, t_orig.world_matrix.m);

    // test cleanup
    assert_eq!(scene.destroy(c1), true);
    let notes = scene.drain_notes();
    assert!(notes.iter().any(|n| n.class == "Entity"));
    assert!(notes.iter().any(|n| n.class == "TransformComponent"));
}

/// The shorter end-to-end flow: creation, reparenting and transforms
/// without the serialization leg.
#[test]
fn main_main() {
    let mut scene = engine_init();
    let parent = Entity::pinned(&mut scene);
    let parent2 = Entity::pinned(&mut scene);
    let child = Entity::pinned(&mut scene);
    assert_eq!(scene.add_child(parent, child), true);
    assert_eq!(scene.add_child(parent, child), false);
    assert_eq!(scene.add_child(parent2, child), false);
    assert_eq!(scene.remove_child(scene.get_parent(child), child), true);
    assert_eq!(scene.get_parent(child), 0);
    assert_eq!(scene.remove_child(parent, child), false);
    assert_eq!(scene.remove_child(parent2, child), false);
    assert_eq!(scene.add_child(parent, child), true);

    let c1 = Entity::pinned(&mut scene);
    let tr1 = scene.create_component(c1, ComponentKind::Transform).unwrap();
    let c2 = Entity::pinned(&mut scene);
    let _tr2 = scene.create_component(c2, ComponentKind::Transform).unwrap();
    scene.add_child(c1, c2);
    for _ in 0..3 {
        assert!(scene.scale(tr1, 2, 2, 2));
        assert!(scene.translate(tr1, 1, 1, 1));
        assert!(scene.tick(c1, 1));
    }
    assert_eq!(scene.destroy(c1), true);
}

/// Parent/child partition scenario: attaching twice never succeeds
/// twice, detaching succeeds only for a real child.
#[test]
fn parent_child_scenario() {
    let mut scene = engine_init();
    let a = Entity::pinned(&mut scene);
    let b = Entity::pinned(&mut scene);
    assert!(scene.add_child(a, b));
    assert!(!scene.add_child(a, b));
    assert_eq!(scene.get_parent(b), a);
    assert!(scene.remove_child(a, b));
    assert_eq!(scene.get_parent(b), 0);
    assert!(!scene.remove_child(a, b));
    // a root is in the registry again after a detach
    assert!(scene.roots.iter().any(|r| r.id == b));
}

/// Singleton enforcement: a second creation of a singleton kind fails and
/// the entity still holds exactly one instance.
#[test]
fn singleton_enforcement() {
    let mut scene = engine_init();
    let e = Entity::pinned(&mut scene);
    let first = scene.create_component(e, ComponentKind::Transform);
    assert!(first.is_some());
    let second = scene.create_component(e, ComponentKind::Transform);
    assert!(second.is_none());
    let ent = root_of(&scene, e);
    let count = ent
        .components
        .uniq_comp
        .iter()
        .filter(|c| matches!(c, Component::Transform(_)))
        .count();
    assert_eq!(count, 1);
    // the render kind is singleton too, and independent of the transform
    assert!(scene.create_component(e, ComponentKind::Render).is_some());
    assert!(scene.create_component(e, ComponentKind::Render).is_none());
}

/// Transform propagation: after a tick, the root transform's world equals
/// its local matrix and the child's world is root.world * child.local.
#[test]
fn transform_propagation() {
    let mut scene = engine_init();
    let r = Entity::pinned(&mut scene);
    let tr = scene.create_component(r, ComponentKind::Transform).unwrap();
    let c = Entity::pinned(&mut scene);
    let tc = scene.create_component(c, ComponentKind::Transform).unwrap();
    assert!(scene.add_child(r, c));
    assert!(scene.scale(tr, 2, 3, 4));
    assert!(scene.translate(tc, 5, 6, 7));
    assert!(scene.tick(r, 16));

    let root = root_of(&scene, r);
    let t_r = transform_of(root);
    assert_eq!(t_r.world_matrix.m, t_r.local_matrix.m);
    let t_c = transform_of(&root.children[0]);
    let expected = mat_mul(&t_r.world_matrix, &t_c.local_matrix);
    assert_eq!(t_c.world_matrix.m, expected.m);
}

/// The composition scenario: scale(2,2,2) then translate(1,1,1), three
/// times over, equals the same matrix algebra applied to the identity.
#[test]
fn transform_composition() {
    let mut scene = engine_init();
    let e = Entity::pinned(&mut scene);
    let tr = scene.create_component(e, ComponentKind::Transform).unwrap();
    let mut expected = Mat4::identity();
    for _ in 0..3 {
        assert!(scene.scale(tr, 2, 2, 2));
        assert!(scene.translate(tr, 1, 1, 1));
        expected = mat_mul(&Mat4::scaling(2, 2, 2), &expected);
        expected = mat_mul(&Mat4::translation(1, 1, 1), &expected);
    }
    let t = transform_of(root_of(&scene, e));
    assert_eq!(t.local_matrix.m, expected.m);
    // spot-check the algebra itself: uniform doubling three times scales
    // the diagonal by 8, and the translation column accumulates 1+2+4
    assert_eq!(t.local_matrix.m[0], 8);
    assert_eq!(t.local_matrix.m[5], 8);
    assert_eq!(t.local_matrix.m[10], 8);
    assert_eq!(t.local_matrix.m[12], 7);
    assert_eq!(t.local_matrix.m[13], 7);
    assert_eq!(t.local_matrix.m[14], 7);
}

/// Binary round trip over a two-level tree with both component kinds.
#[test]
fn binary_round_trip() {
    let mut scene = engine_init();
    let r = Entity::pinned(&mut scene);
    scene.create_component(r, ComponentKind::Transform).unwrap();
    scene.create_component(r, ComponentKind::Render).unwrap();
    let c = Entity::pinned(&mut scene);
    scene.create_component(c, ComponentKind::Transform).unwrap();
    assert!(scene.add_child(r, c));

    let root = root_of(&scene, r);
    let mut buf: Vec<u8> = Vec::new();
    serialize_binary(root, &mut buf);
    let mut pos: usize = 0;
    let mut idc: u64 = 5000;
    let back = deserialize_binary(&buf, &mut pos, &mut idc, 0).expect("decode failed");
    assert_eq!(pos, buf.len());
    assert_eq!(back.name, root.name);
    assert_eq!(back.instance_id, root.instance_id);
    assert_eq!(back.children.len(), root.children.len());
    assert_eq!(back.components.uniq_comp.len(), 2);
    assert_eq!(back.children[0].components.uniq_comp.len(), 1);
    assert_eq!(back.children[0].parent_id, back.id);
    // runtime handles are fresh, not persisted
    assert!(back.id >= 5000);
}

/// Truncated or mistyped binary data is a fatal decode error.
#[test]
fn binary_decode_errors() {
    let mut scene = engine_init();
    let r = Entity::pinned(&mut scene);
    scene.create_component(r, ComponentKind::Transform).unwrap();
    let root = root_of(&scene, r);
    let mut buf: Vec<u8> = Vec::new();
    serialize_binary(root, &mut buf);

    // truncation
    let cut: Vec<u8> = buf[..buf.len() - 1].to_vec();
    let mut pos: usize = 0;
    let mut idc: u64 = 1;
    assert!(deserialize_binary(&cut, &mut pos, &mut idc, 0).is_none());
    assert_eq!(pos, 0);

    // an unregistered component type identifier
    let name_len = 8 + root.name.as_bytes().len();
    let uuid_tag_at = name_len + 16 + 8 + 8; // identity, child count, singleton count
    let mut bad = buf.clone();
    bad[uuid_tag_at] ^= 0xff;
    let mut pos2: usize = 0;
    assert!(deserialize_binary(&bad, &mut pos2, &mut idc, 0).is_none());
}

/// Graph fixup: links resolve to the pins that named them, pins learn
/// their owners, and a dangling link aborts the load.
#[test]
fn graph_fixup() {
    let mut g = ShaderGraph::new();
    g.nodes.push(ShaderNode {
        id: 1,
        pos_x: 0,
        pos_y: 0,
        input_pin: vec![],
        output_pin: vec![OutputPin {
            id: 10,
            parent_node: 0,
            to: vec![
                OutLink { node_id: 2, pin_id: 20, resolved: false },
                OutLink { node_id: 2, pin_id: 21, resolved: false },
            ],
        }],
    });
    g.nodes.push(ShaderNode {
        id: 2,
        pos_x: 3,
        pos_y: 4,
        input_pin: vec![
            InputPin { id: 20, display_name: "a".to_string(), parent_node: 0, from: None },
            InputPin { id: 21, display_name: "b".to_string(), parent_node: 0, from: None },
            InputPin { id: 22, display_name: "c".to_string(), parent_node: 0, from: None },
        ],
        output_pin: vec![],
    });

    assert!(g.link_fixup());
    // every link resolved
    for n in g.nodes.iter() {
        for p in n.output_pin.iter() {
            assert_eq!(p.parent_node, n.id);
            for l in p.to.iter() {
                assert!(l.resolved);
            }
        }
        for p in n.input_pin.iter() {
            assert_eq!(p.parent_node, n.id);
        }
    }
    // each targeted input pin points back at the naming output pin
    let n2 = &g.nodes[1];
    assert_eq!(n2.input_pin[0].from, Some((1, 10)));
    assert_eq!(n2.input_pin[1].from, Some((1, 10)));
    assert_eq!(n2.input_pin[2].from, None);
    assert!(n2.get_input_pin(21).is_some());
    assert!(n2.get_input_pin(99).is_none());
    assert_eq!(n2.id(), 2);

    // a dangling link is fatal and changes nothing
    let mut bad = ShaderGraph::new();
    bad.nodes.push(ShaderNode {
        id: 7,
        pos_x: 0,
        pos_y: 0,
        input_pin: vec![],
        output_pin: vec![OutputPin {
            id: 1,
            parent_node: 0,
            to: vec![OutLink { node_id: 99, pin_id: 1, resolved: false }],
        }],
    });
    assert!(!bad.link_fixup());
    assert!(!bad.nodes[0].output_pin[0].to[0].resolved);
}

/// The primitive codecs produce the exact documented bytes.
#[test]
fn primitive_codec_bytes() {
    let mut out: Vec<u8> = Vec::new();
    encode_u32(&mut out, 0x0102_0304);
    assert_eq!(out, vec![0x04, 0x03, 0x02, 0x01]);

    let mut out2: Vec<u8> = Vec::new();
    encode_u64(&mut out2, 7);
    assert_eq!(out2, vec![7, 0, 0, 0, 0, 0, 0, 0]);

    let mut out3: Vec<u8> = Vec::new();
    encode_u128(&mut out3, 0x0102_0304_0506_0708_090a_0b0c_0d0e_0f10);
    assert_eq!(
        out3,
        vec![1, 2, 3, 4, 5, 6, 7, 8, 9, 0x0a, 0x0b, 0x0c, 0x0d, 0x0e, 0x0f, 0x10]
    );

    let mut out4: Vec<u8> = Vec::new();
    encode_string(&mut out4, &"hi".to_string());
    assert_eq!(out4, vec![2, 0, 0, 0, 0, 0, 0, 0, b'h', b'i']);

    let mut pos: usize = 0;
    assert_eq!(decode_u32(&out, &mut pos), Some(0x0102_0304));
    let mut pos2: usize = 0;
    assert_eq!(decode_string(&out4, &mut pos2), Some("hi".to_string()));
    assert_eq!(pos2, 10);
    let mut pos3: usize = 0;
    assert_eq!(
        decode_u128(&out3, &mut pos3),
        Some(0x0102_0304_0506_0708_090a_0b0c_0d0e_0f10)
    );

    // a string whose bytes are not UTF-8 is malformed
    let bad = vec![1u8, 0, 0, 0, 0, 0, 0, 0, 0xff];
    let mut pos4: usize = 0;
    assert_eq!(decode_string(&bad, &mut pos4), None);
    assert_eq!(pos4, 0);
}

/// Decimal formatting matches ordinary notation.
#[test]
fn decimal_formatting() {
    assert_eq!(u64_to_string(0), "0");
    assert_eq!(u64_to_string(105), "105");
    assert_eq!(u64_to_string(18_446_744_073_709_551_615), "18446744073709551615");
    assert_eq!(i64_to_string(-42), "-42");
    assert_eq!(i64_to_string(7), "7");
    assert_eq!(i64_to_string(i64::MIN), "-9223372036854775808");
}

/// The type registry resolves registered identifiers and rejects unknown
/// ones.
#[test]
fn registry_lookup() {
    let reg = init_reflection();
    assert_eq!(
        reg.lookup(0xbd122d2f_cc3e_4d99_8bf2_ba1b23015e46),
        Some(ComponentKind::Transform)
    );
    assert_eq!(
        reg.lookup(0xf8128f7a_685e_4436_a831_3a2adab3b0dc),
        Some(ComponentKind::Render)
    );
    assert_eq!(reg.lookup(1234), None);
    let c = reg.construct(0xbd122d2f_cc3e_4d99_8bf2_ba1b23015e46, 77);
    match c {
        Some(Component::Transform(t)) => {
            assert_eq!(t.id, 77);
            assert_eq!(t.local_matrix.m, Mat4::identity().m);
        },
        _ => panic!("expected a transform"),
    }
    assert!(reg.construct(1234, 78).is_none());
}

/// Destroying a subtree emits one notification per entity and component,
/// parent before children.
#[test]
fn drop_notifications() {
    let mut scene = engine_init();
    let r = Entity::pinned(&mut scene);
    scene.create_component(r, ComponentKind::Transform).unwrap();
    let c = Entity::pinned(&mut scene);
    assert!(scene.add_child(r, c));
    assert!(scene.destroy(r));
    let notes = scene.drain_notes();
    assert_eq!(notes.len(), 3);
    assert_eq!(notes[0].class, "Entity");
    assert_eq!(notes[0].id, r);
    assert_eq!(notes[1].class, "TransformComponent");
    assert_eq!(notes[2].class, "Entity");
    assert_eq!(notes[2].id, c);
    assert!(scene.drain_notes().is_empty());
}

/// Ticking is rejected for entities that are not registered roots.
#[test]
fn tick_rejects_non_root() {
    let mut scene = engine_init();
    let r = Entity::pinned(&mut scene);
    let c = Entity::pinned(&mut scene);
    assert!(scene.add_child(r, c));
    assert!(!scene.tick(c, 1));
    assert!(!scene.tick(424242, 1));
    assert!(scene.tick(r, 1));
}

/// The resource leaf types round-trip through their encodings.
#[test]
fn resource_codecs() {
    let sk = Skeleton { bone_count: 300 };
    let mut buf: Vec<u8> = Vec::new();
    sk.serialize_binary(&mut buf);
    assert_eq!(buf, vec![0x2c, 0x01]);
    let mut pos: usize = 0;
    let back = Skeleton::deserialize_binary(&buf, &mut pos).unwrap();
    assert_eq!(back.bone_count, 300);

    let tx = Texture { pixel_format: 9 };
    let mut buf2: Vec<u8> = Vec::new();
    tx.serialize_binary(&mut buf2);
    assert_eq!(buf2, vec![9]);
    let mut pos2: usize = 0;
    assert_eq!(Texture::deserialize_binary(&buf2, &mut pos2).unwrap().pixel_format, 9);

    let m = Material {
        name: "wood".to_string(),
        tex: eldra::component::ExtRes { path: "tex/wood".to_string() },
    };
    let mut buf3: Vec<u8> = Vec::new();
    m.serialize_binary(&mut buf3);
    let mut pos3: usize = 0;
    assert_eq!(decode_string(&buf3, &mut pos3).unwrap(), "wood");
    assert_eq!(decode_string(&buf3, &mut pos3).unwrap(), "tex/wood");
    assert_eq!(pos3, buf3.len());

    let fresh = Skeleton::new();
    assert_eq!(fresh.bone_count, 0);
    let fresh_tex = Texture::new();
    assert_eq!(fresh_tex.pixel_format, 0);
}

/// A structured text document loads through the two-phase graph load:
/// the parsed nodes materialize, then the links resolve.
#[test]
fn graph_text_load() {
    // the persisted shape: every field nests a field_type tag and its value
    let doc = "
zoom_scale:
  field_type: \"i64\"
  value: 3
center_x:
  value: 10
center_y:
  value: -4
seq:
  value: 5
nodes:
  value:
    - map_item: ~
      id:
        value: 1
      pos_x:
        value: 0
      pos_y:
        value: 0
      input_pin:
        value: []
      output_pin:
        value:
          - array_item: ~
            id:
              value: 10
            to:
              value:
                - array_item: ~
                  node_id:
                    value: 2
                  pin_id:
                    value: 20
    - map_item: ~
      id:
        value: 2
      pos_x:
        value: 7
      pos_y:
        value: 8
      input_pin:
        value:
          - array_item: ~
            id:
              value: 20
            display_name:
              value: color
      output_pin:
        value: []
";
    let g = eldra::text::load_from_text(doc).expect("graph should load");
    assert_eq!(g.zoom_scale, 3);
    assert_eq!(g.center_x, 10);
    assert_eq!(g.center_y, -4);
    assert_eq!(g.seq, 5);
    assert_eq!(g.nodes.len(), 2);
    assert!(g.nodes[0].output_pin[0].to[0].resolved);
    assert_eq!(g.nodes[1].input_pin[0].from, Some((1, 10)));
    assert_eq!(g.nodes[1].input_pin[0].display_name, "color");
    assert_eq!(g.nodes[1].input_pin[0].parent_node, 2);

    // a dangling link is fatal for the whole load
    let bad = "
zoom_scale:
  value: 0
center_x:
  value: 0
center_y:
  value: 0
seq:
  value: 0
nodes:
  value:
    - id:
        value: 1
      pos_x:
        value: 0
      pos_y:
        value: 0
      input_pin:
        value: []
      output_pin:
        value:
          - id:
              value: 10
            to:
              value:
                - node_id:
                    value: 9
                  pin_id:
                    value: 9
";
    assert!(eldra::text::load_from_text(bad).is_none());

    // a document that is not a graph does not decode
    assert!(eldra::text::load_from_text("just a scalar").is_none());
    assert!(eldra::text::load_from_text(": : :").is_none());
}

/// Handles are fresh: they strictly increase across creations, never
/// collide with a live entity, and survive reparenting unchanged.
#[test]
fn handle_freshness() {
    let mut scene = engine_init();
    let a = Entity::pinned(&mut scene);
    let b = Entity::pinned(&mut scene);
    let c = Entity::pinned(&mut scene);
    assert!(a >= 100);
    assert!(b > a);
    assert!(c > b);
    let id1 = scene.create_component(a, ComponentKind::Transform).unwrap();
    let id2 = scene.create_component(b, ComponentKind::Transform).unwrap();
    assert!(id2 > id1 && id1 > c);
    // the handle survives the move between registry and parent
    assert!(scene.add_child(a, b));
    assert_eq!(scene.get_parent(b), a);
    assert!(scene.remove_child(a, b));
    assert!(scene.roots.iter().filter(|r| r.id == b).count() == 1);
    // and no two live entities ever share a handle
    let mut ids: Vec<u64> = scene.roots.iter().map(|r| r.id).collect();
    ids.sort();
    ids.dedup();
    assert_eq!(ids.len(), scene.roots.len());
}


/// The structured text round trip: serialize an entity tree to the text
/// form, parse it back through the YAML reader, and decode it; the tree
/// is reproduced (fresh runtime handles aside).
#[test]
fn text_round_trip() {
    let mut scene = engine_init();
    let r = Entity::pinned(&mut scene);
    scene.create_component(r, ComponentKind::Transform).unwrap();
    scene.create_component(r, ComponentKind::Render).unwrap();
    let c = Entity::pinned(&mut scene);
    let tc = scene.create_component(c, ComponentKind::Transform).unwrap();
    assert!(scene.add_child(r, c));
    assert!(scene.scale(tc, 3, 4, 5));

    let root = root_of(&scene, r);
    let doc = eldra::text::serialize_text_entity(root);
    assert!(doc.contains("field_type"));
    assert!(doc.contains("type_uuid"));
    assert!(doc.contains("- array_item: ~"));
    assert!(doc.contains("- map_item: ~"));

    let mut idc: u64 = 77_000;
    let back = eldra::text::load_from_yaml(&doc, &mut idc).expect("text decode failed");
    assert_eq!(back.name, root.name);
    assert_eq!(back.instance_id, root.instance_id);
    assert_eq!(back.parent_id, 0);
    assert_eq!(back.children.len(), 1);
    assert_eq!(back.children[0].name, root.children[0].name);
    assert_eq!(back.children[0].parent_id, back.id);
    assert_eq!(back.components.uniq_comp.len(), 2);
    let t_orig = transform_of(&root.children[0]);
    let t_back = transform_of(&back.children[0]);
    assert_eq!(t_back.local_matrix.m, t_orig.local_matrix.m);
    assert!(back.id >= 77_000);

    // malformed documents are fatal
    assert!(eldra::text::load_from_yaml("not: an_entity", &mut idc).is_none());
    assert!(eldra::text::load_from_yaml(": : :", &mut idc).is_none());
}

/// The hyphenated identifier form and its parser agree, and reject what
/// is not canonical.
#[test]
fn uuid_text_form() {
    let u: u128 = 0xbd122d2f_cc3e_4d99_8bf2_ba1b23015e46;
    let s = eldra::format::u128_to_uuid_string(u);
    assert_eq!(s, "bd122d2f-cc3e-4d99-8bf2-ba1b23015e46");
    assert_eq!(eldra::format::uuid_from_str(&s), Some(u));
    assert_eq!(eldra::format::uuid_from_str("bd122d2f"), None);
    assert_eq!(
        eldra::format::uuid_from_str("bd122d2fxcc3e-4d99-8bf2-ba1b23015e46"),
        None
    );
    assert_eq!(eldra::format::u128_to_uuid_string(0), "00000000-0000-0000-0000-000000000000");
    assert_eq!(
        eldra::format::uuid_from_str("00000000-0000-0000-0000-000000000000"),
        Some(0)
    );
}


/// A serialized tree loads back into the scene as a fresh root with
/// fresh handles, through the verified binary load.
#[test]
fn binary_load_into_scene() {
    let mut scene = engine_init();
    let r = Entity::pinned(&mut scene);
    scene.create_component(r, ComponentKind::Transform).unwrap();
    let c = Entity::pinned(&mut scene);
    assert!(scene.add_child(r, c));

    let mut buf: Vec<u8> = Vec::new();
    serialize_binary(root_of(&scene, r), &mut buf);

    let before = scene.roots.len();
    let h = scene.load_binary(&buf).expect("load failed");
    assert_eq!(scene.roots.len(), before + 1);
    let loaded = root_of(&scene, h);
    assert_eq!(loaded.name, root_of(&scene, r).name);
    assert_ne!(h, r);
    assert_eq!(loaded.children.len(), 1);
    // corrupt data is rejected, scene unchanged
    let after = scene.roots.len();
    assert!(scene.load_binary(&vec![1u8, 2, 3]).is_none());
    assert_eq!(scene.roots.len(), after);
}
