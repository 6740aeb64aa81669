use std::collections::HashMap;

use rbx_dom_weak::{RbxId, RbxInstanceProperties, RbxTree};
use rbx_xml::dom;
use rbx_xml::weak::{decode_into, graft, weak_reference};
use rbx_xml::DecodeError;

fn new_target() -> RbxTree {
    RbxTree::new(RbxInstanceProperties {
        name: "Place".to_string(),
        class_name: "DataModel".to_string(),
        properties: HashMap::new(),
    })
}

fn names(tree: &RbxTree, ids: &[RbxId]) -> Vec<String> {
    ids.iter()
        .map(|id| tree.get_instance(*id).unwrap().name.clone())
        .collect()
}

const DOCUMENT: &[u8] = br#"<roblox version="4">
    <Item class="Model">
        <Properties><string name="Name">A</string></Properties>
        <Item class="Part">
            <Properties><string name="Name">B</string></Properties>
        </Item>
        <Item class="Part">
            <Properties><string name="Name">C</string></Properties>
        </Item>
    </Item>
    <Item class="Folder"/>
</roblox>"#;

#[test]
fn decoded_instances_are_handed_over() {
    let mut target = new_target();
    let root_id = target.get_root_id();
    let old_id = target.insert_instance(
        RbxInstanceProperties {
            name: "Old".to_string(),
            class_name: "Folder".to_string(),
            properties: HashMap::new(),
        },
        root_id,
    );
    let decoded = decode_into(&mut target, root_id, DOCUMENT).unwrap();
    assert_eq!(decoded.result, Ok(()));
    assert_eq!(decoded.ids.len(), 4);
    assert_eq!(
        names(&target, &decoded.ids),
        vec!["A", "B", "C", "Folder"]
    );
    let root = target.get_instance(root_id).unwrap();
    assert_eq!(root.name, "Place");
    assert_eq!(
        root.get_children_ids(),
        &[old_id, decoded.ids[0], decoded.ids[3]]
    );
    let model = target.get_instance(decoded.ids[0]).unwrap();
    assert_eq!(model.class_name, "Model");
    assert_eq!(model.get_parent_id(), Some(root_id));
    assert_eq!(model.get_children_ids(), &[decoded.ids[1], decoded.ids[2]]);
    let part = target.get_instance(decoded.ids[2]).unwrap();
    assert_eq!(part.class_name, "Part");
    assert_eq!(part.get_parent_id(), Some(decoded.ids[0]));
    assert!(part.get_children_ids().is_empty());
    assert!(part.properties.is_empty());
    assert!(target.get_instance(old_id).unwrap().get_children_ids().is_empty());
    assert_eq!(target.descendants(root_id).count(), 5);
}

#[test]
fn instances_of_a_refused_document_are_handed_over() {
    let mut target = new_target();
    let root_id = target.get_root_id();
    let document = b"<roblox version=\"4\"><Item class=\"A\"/><Item/></roblox>";
    let decoded = decode_into(&mut target, root_id, document).unwrap();
    assert_eq!(decoded.result, Err(DecodeError::Message("Missing 'class'")));
    assert_eq!(names(&target, &decoded.ids), vec!["A"]);
}

#[test]
fn nothing_is_handed_over_to_nobody() {
    let mut target = new_target();
    let before = target.clone();
    let stranger = new_target().get_root_id();
    assert!(decode_into(&mut target, stranger, DOCUMENT).is_none());
    assert_eq!(target, before);
    let empty = decode_into(&mut target, stranger, b"<roblox version=\"4\"/>").unwrap();
    assert_eq!(empty.result, Ok(()));
    assert!(empty.ids.is_empty());
    assert_eq!(target, before);
}

#[test]
fn nothing_is_handed_over_without_an_answer() {
    let mut target = new_target();
    let before = target.clone();
    let root_id = target.get_root_id();
    let document = b"<roblox version=\"4\"><Item class=\"A\">text</Item></roblox>";
    assert!(decode_into(&mut target, root_id, document).is_none());
    assert_eq!(target, before);
}

#[test]
fn trees_built_by_hand_are_handed_over() {
    let blank = |name: &str| dom::RbxInstanceProperties {
        name: name.to_string(),
        class_name: name.to_string(),
        properties: dom::Properties::new(),
    };
    let mut tree = dom::RbxTree::new(blank("root"));
    let root = tree.get_root_id();
    let a = tree.insert_instance(blank("a"), root);
    tree.insert_instance(blank("b"), root);
    tree.insert_instance(blank("c"), a);
    let mut target = new_target();
    let root_id = target.get_root_id();
    let ids = graft(&tree, &mut target, root_id).unwrap();
    assert_eq!(names(&target, &ids), vec!["a", "b", "c"]);
    assert_eq!(
        target.get_instance(root_id).unwrap().get_children_ids(),
        &ids[..2]
    );
    assert_eq!(
        target.get_instance(ids[0]).unwrap().get_children_ids(),
        &ids[2..]
    );
}

#[test]
fn references_are_handed_over() {
    let mut target = new_target();
    let root_id = target.get_root_id();
    let document = br#"<roblox version="4">
        <Item class="A">
            <Properties>
                <Ref name="Next">b</Ref>
                <Ref name="None">null</Ref>
            </Properties>
        </Item>
        <Item class="B" referent="b"/>
    </roblox>"#;
    let decoded = decode_into(&mut target, root_id, document).unwrap();
    let first = decoded.tree.get_instance(dom::RbxId { index: 1 }).unwrap();
    let reference = |name: &str| match first.properties.get(name) {
        Some(dom::RbxValue::Ref { value }) => weak_reference(*value, &decoded.ids),
        other => panic!("{:?}", other),
    };
    let next = reference("Next").unwrap();
    assert_eq!(next, decoded.ids[1]);
    assert_eq!(target.get_instance(next).unwrap().name, "B");
    assert_eq!(reference("None"), None);
}
