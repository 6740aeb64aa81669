use rbx_xml::deserializer::{can_decode, decode_events};
use rbx_xml::dom::{Properties, RbxId, RbxInstanceProperties, RbxTree, RbxValue, Scalar};
use rbx_xml::error::{FloatError, XmlError};
use rbx_xml::event::{XmlReadEvent, XmlResult};
use rbx_xml::{decode, decode_str, try_decode, try_decode_str, DecodeError, XmlEventReader};

fn new_tree() -> RbxTree {
    RbxTree::new(RbxInstanceProperties {
        name: "Root".to_string(),
        class_name: "DataModel".to_string(),
        properties: Properties::new(),
    })
}

/// Decodes a document into a new tree.
fn decoded(document: &str) -> (Result<(), DecodeError>, RbxTree) {
    let mut tree = new_tree();
    let root_id = tree.get_root_id();
    let result = decode_str(&mut tree, root_id, document);
    (result, tree)
}

/// The outcome of decoding what stands inside the outermost tag.
fn outcome(inside: &str) -> Result<(), DecodeError> {
    decoded(&format!("<roblox version=\"4\">{}</roblox>", inside)).0
}

fn message(text: &'static str) -> Result<(), DecodeError> {
    Err(DecodeError::Message(text))
}

fn id(index: usize) -> RbxId {
    RbxId { index }
}

fn name_of(tree: &RbxTree, index: usize) -> &str {
    tree.get_instance(id(index)).unwrap().name.as_str()
}

fn children_of(tree: &RbxTree, index: usize) -> Vec<RbxId> {
    tree.get_instance(id(index)).unwrap().get_children_ids().clone()
}

fn property<'a>(tree: &'a RbxTree, index: usize, name: &str) -> Option<&'a RbxValue> {
    tree.get_instance(id(index)).unwrap().properties.get(name)
}

#[test]
fn bytes_decode_as_strings_do() {
    let document = "<roblox version=\"4\"><Item class=\"Folder\"/></roblox>";
    let mut tree = new_tree();
    let root_id = tree.get_root_id();
    assert_eq!(decode(&mut tree, root_id, document.as_bytes()), Ok(()));
    assert_eq!(tree, decoded(document).1);
    assert_eq!(name_of(&tree, 1), "Folder");
}

#[test]
fn a_model_decodes_as_it_was_written() {
    let (result, tree) = decoded(
        r#"
        <roblox version="4">
            <Meta name="A">one</Meta>
            <Item class="Model" referent="m">
                <Properties>
                    <string name="Name">House</string>
                    <Vector3 name="size"><X>1</X><Y>2</Y><Z>3</Z></Vector3>
                    <Ref name="Primary">p</Ref>
                    <Ref name="Nothing">null</Ref>
                    <Ref name="Lost">nowhere</Ref>
                </Properties>
                <Item class="Part" referent="p">
                    <Properties>
                        <Ref name="Back">m</Ref>
                    </Properties>
                </Item>
                <Item class="Part">
                    <Properties>
                        <Color3uint8 name="Color">66051</Color3uint8>
                    </Properties>
                </Item>
            </Item>
            <External>null<deep><er/></deep></External>
            <Item class="Folder" />
        </roblox>
    "#,
    );
    assert_eq!(result, Ok(()));
    assert_eq!(children_of(&tree, 0), vec![id(1), id(4)]);
    assert_eq!(children_of(&tree, 1), vec![id(2), id(3)]);
    let house = tree.get_instance(id(1)).unwrap();
    assert_eq!(house.name, "House");
    assert_eq!(house.class_name, "Model");
    assert_eq!(house.get_parent_id(), Some(id(0)));
    assert_eq!(house.properties.entries().len(), 4);
    assert_eq!(
        property(&tree, 1, "Size"),
        Some(&RbxValue::Vector3 {
            value: ["1", "2", "3"].map(|text| Scalar::Literal(text.to_string())),
        })
    );
    assert_eq!(
        property(&tree, 1, "Primary"),
        Some(&RbxValue::Ref { value: Some(id(2)) })
    );
    assert_eq!(
        property(&tree, 1, "Nothing"),
        Some(&RbxValue::Ref { value: None })
    );
    assert_eq!(
        property(&tree, 1, "Lost"),
        Some(&RbxValue::Ref { value: None })
    );
    assert_eq!(
        property(&tree, 2, "Back"),
        Some(&RbxValue::Ref { value: Some(id(1)) })
    );
    assert_eq!(
        property(&tree, 3, "Color"),
        Some(&RbxValue::Color3uint8 { value: [1, 2, 3] })
    );
    assert_eq!(name_of(&tree, 3), "Part");
    assert_eq!(name_of(&tree, 4), "Folder");
    assert!(tree.get_instance(id(5)).is_none());
}

#[test]
fn decoding_only_adds_to_the_tree() {
    let mut tree = new_tree();
    let root_id = tree.get_root_id();
    let folder = RbxInstanceProperties {
        name: "Old".to_string(),
        class_name: "Folder".to_string(),
        properties: Properties::new(),
    };
    let old_id = tree.insert_instance(folder, root_id);
    let document = "<roblox version=\"4\"><Item class=\"A\"/><Item class=\"B\"/></roblox>";
    assert_eq!(decode_str(&mut tree, old_id, document), Ok(()));
    assert_eq!(decode_str(&mut tree, root_id, document), Ok(()));
    assert_eq!(name_of(&tree, 0), "Root");
    assert_eq!(children_of(&tree, 0), vec![id(1), id(4), id(5)]);
    assert_eq!(name_of(&tree, 1), "Old");
    assert_eq!(children_of(&tree, 1), vec![id(2), id(3)]);
    assert_eq!(name_of(&tree, 2), "A");
    assert_eq!(name_of(&tree, 5), "B");
}

#[test]
fn a_refused_document_leaves_what_it_opened() {
    let (result, tree) = decoded(
        r#"<roblox version="4">
            <Item class="A" referent="a">
                <Properties><Ref name="Self">a</Ref></Properties>
            </Item>
            <Item class="B"><Bogus/></Item>
        </roblox>"#,
    );
    assert_eq!(result, message("Unexpected tag inside instance"));
    assert_eq!(children_of(&tree, 0), vec![id(1), id(2)]);
    assert_eq!(name_of(&tree, 1), "A");
    assert_eq!(name_of(&tree, 2), "");
    assert_eq!(
        property(&tree, 1, "Self"),
        Some(&RbxValue::Ref { value: None })
    );
}

#[test]
fn a_repeated_referent_stands_for_the_last_instance() {
    let (result, tree) = decoded(
        r#"<roblox version="4">
            <Item class="A" referent="x"/>
            <Item class="B">
                <Properties><Ref name="R">x</Ref></Properties>
            </Item>
            <Item class="C" referent="x"/>
        </roblox>"#,
    );
    assert_eq!(result, Ok(()));
    assert_eq!(
        property(&tree, 2, "R"),
        Some(&RbxValue::Ref { value: Some(id(3)) })
    );
}

#[test]
fn a_later_property_replaces_an_earlier_one() {
    let (result, tree) = decoded(
        r#"<roblox version="4">
            <Item class="A">
                <Properties>
                    <string name="Name">first</string>
                    <bool name="P">true</bool>
                </Properties>
                <Properties>
                    <string name="Name">second</string>
                    <bool name="P">false</bool>
                </Properties>
            </Item>
        </roblox>"#,
    );
    assert_eq!(result, Ok(()));
    assert_eq!(name_of(&tree, 1), "second");
    assert_eq!(
        property(&tree, 1, "P"),
        Some(&RbxValue::Bool { value: false })
    );
    assert_eq!(property(&tree, 1, "Name"), None);
}

#[test]
fn whitespace_between_tags_does_not_matter() {
    let dense = "<roblox version=\"4\"><Item class=\"A\"><Properties><string name=\"Name\"> n </string></Properties></Item></roblox>";
    let spaced = "\n<roblox version=\"4\">\n\n <Item class=\"A\">\t<Properties>\n<string name=\"Name\"> n </string> </Properties>\n</Item>\n</roblox>\n";
    assert_eq!(decoded(dense), decoded(spaced));
    assert_eq!(name_of(&decoded(dense).1, 1), " n ");
}

#[test]
fn other_versions_are_refused() {
    let cases = [
        ("<roblox version=\"3\"/>", "Not version 4"),
        ("<roblox version=\"\"/>", "Not version 4"),
        ("<roblox/>", "No version field"),
        ("<roblox Version=\"4\"/>", "No version field"),
        ("<Roblox version=\"4\"/>", "Missing <roblox>"),
    ];
    for (document, complaint) in cases {
        let (result, tree) = decoded(document);
        assert_eq!(result, message(complaint));
        assert_eq!(tree, new_tree());
    }
}

#[test]
fn the_top_level_holds_few_things() {
    assert_eq!(
        outcome("<Thing/>"),
        message("Unexpected top-level start tag")
    );
    assert_eq!(outcome("text"), message("Unexpected top-level stuff"));
    assert_eq!(outcome(""), Ok(()));
}

#[test]
fn metadata_has_a_name_and_a_text() {
    assert_eq!(outcome("<Meta name=\"A\">b</Meta>"), Ok(()));
    assert_eq!(
        outcome("<Meta>b</Meta>"),
        message("Meta missing 'name' field")
    );
    assert_eq!(
        outcome("<Meta name=\"A\"></Meta>"),
        Err(DecodeError::MalformedDocument)
    );
    assert_eq!(
        outcome("<Meta name=\"A\">b<c/></Meta>"),
        Err(DecodeError::MalformedDocument)
    );
    let events: Vec<XmlResult> = vec![
        Ok(XmlReadEvent::StartDocument),
        start("roblox", "version", "4"),
        start("Meta", "name", "A"),
        Ok(XmlReadEvent::Characters("b".to_string())),
        Ok(XmlReadEvent::EndElement("Other".to_string())),
    ];
    assert_eq!(
        from_events(events),
        message("Incorrect closing tag, expected 'Meta'")
    );
}

fn start(name: &str, attribute: &str, value: &str) -> XmlResult {
    Ok(XmlReadEvent::StartElement(
        name.to_string(),
        vec![(attribute.to_string(), value.to_string())],
    ))
}

fn end(name: &str) -> XmlResult {
    Ok(XmlReadEvent::EndElement(name.to_string()))
}

fn from_events(events: Vec<XmlResult>) -> Result<(), DecodeError> {
    let mut tree = new_tree();
    let root_id = tree.get_root_id();
    decode_events(&mut tree, root_id, XmlEventReader::from_events(events))
}

#[test]
fn instances_have_a_class() {
    assert_eq!(outcome("<Item/>"), message("Missing 'class'"));
    assert_eq!(
        outcome("<Item referent=\"r\"></Item>"),
        message("Missing 'class'")
    );
}

#[test]
fn the_name_of_an_instance_is_a_text() {
    assert_eq!(
        outcome(
            "<Item class=\"A\"><Properties><bool name=\"Name\">true</bool></Properties></Item>"
        ),
        message("Name must be a string")
    );
}

#[test]
fn properties_have_a_name_and_a_known_type() {
    let inside = |text: &str| {
        outcome(&format!(
            "<Item class=\"A\"><Properties>{}</Properties></Item>",
            text
        ))
    };
    assert_eq!(
        inside("<string>x</string>"),
        message("Missing 'name' for property tag")
    );
    assert_eq!(
        inside("x"),
        message("Unexpected thing in Properties section")
    );
    assert_eq!(
        inside("<Bogus name=\"B\">1</Bogus>"),
        message("Unknown property type")
    );
    assert_eq!(
        inside("<Vector2 name=\"V\"><X>a</X><Y>1</Y></Vector2>"),
        Err(DecodeError::ParseFloatError(FloatError { text: "a".to_string() }))
    );
    assert_eq!(
        inside("<Color3uint8 name=\"C\">1.5</Color3uint8>"),
        Err(DecodeError::ParseIntError("1.5".parse::<u32>().unwrap_err()))
    );
    assert_eq!(
        inside("<Ref name=\"R\"><a/></Ref>"),
        Err(DecodeError::MalformedDocument)
    );
}

#[test]
fn closing_tags_must_match() {
    let events = vec![
        Ok(XmlReadEvent::StartDocument),
        start("roblox", "version", "4"),
        start("Item", "class", "A"),
        end("Other"),
    ];
    assert_eq!(
        from_events(events),
        message("Unexpected closing tag, expected Item")
    );
    let events = vec![
        Ok(XmlReadEvent::StartDocument),
        start("roblox", "version", "4"),
        start("Item", "class", "A"),
        start("Properties", "a", "b"),
        end("Item"),
    ];
    assert_eq!(
        from_events(events),
        message("Unexpected end element, expected Properties")
    );
    let events = vec![
        Ok(XmlReadEvent::StartDocument),
        start("roblox", "version", "4"),
        end("Item"),
    ];
    assert_eq!(from_events(events), message("Unexpected closing tag"));
}

#[test]
fn documents_that_end_early_are_refused() {
    assert_eq!(from_events(vec![]), Err(DecodeError::MalformedDocument));
    let mut events = vec![Ok(XmlReadEvent::StartDocument)];
    assert_eq!(
        from_events(events),
        Err(DecodeError::MalformedDocument)
    );
    events = vec![
        Ok(XmlReadEvent::StartDocument),
        start("roblox", "version", "4"),
    ];
    assert_eq!(
        from_events(events),
        Err(DecodeError::MalformedDocument)
    );
    events = vec![
        Ok(XmlReadEvent::StartDocument),
        start("roblox", "version", "4"),
        start("Item", "class", "A"),
    ];
    assert_eq!(from_events(events), message("Unexpected EOF"));
    events = vec![
        Ok(XmlReadEvent::StartDocument),
        start("roblox", "version", "4"),
        start("Item", "class", "A"),
        start("Properties", "a", "b"),
    ];
    assert_eq!(from_events(events), message("Unexpected EOF"));
    events = vec![
        Ok(XmlReadEvent::StartDocument),
        start("roblox", "version", "4"),
        Ok(XmlReadEvent::EndDocument),
    ];
    assert_eq!(from_events(events), Ok(()));
    assert_eq!(
        from_events(vec![start("roblox", "version", "4")]),
        Err(DecodeError::MalformedDocument)
    );
}

#[test]
fn ill_formed_xml_is_told() {
    let (result, tree) = decoded("<roblox version=\"4\"><Meta name=\"A\">b</Mata></roblox>");
    match result {
        Err(DecodeError::XmlError(XmlError { message })) => {
            assert!(message.starts_with("1:"), "{}", message);
        }
        other => panic!("{:?}", other),
    }
    assert_eq!(tree, new_tree());
    assert!(matches!(decoded("").0, Err(DecodeError::XmlError(_))));
}

#[test]
fn a_fault_between_instances_is_told() {
    let events = vec![
        Ok(XmlReadEvent::StartDocument),
        start("roblox", "version", "4"),
        Err("7:1 oops".to_string()),
    ];
    assert_eq!(
        from_events(events),
        Err(DecodeError::XmlError(XmlError { message: "7:1 oops".to_string() }))
    );
}

#[test]
fn text_inside_an_instance_has_no_answer() {
    let document = "<roblox version=\"4\"><Item class=\"A\">text</Item></roblox>";
    let mut tree = new_tree();
    let root_id = tree.get_root_id();
    assert_eq!(try_decode_str(&mut tree, root_id, document), None);
    assert_eq!(tree, new_tree());
    assert!(!can_decode(XmlEventReader::from_source(document.as_bytes())));
}

#[test]
fn a_fault_inside_an_instance_has_no_answer() {
    let document = "<roblox version=\"4\"><Item class=\"A\"></Itam></roblox>";
    let mut tree = new_tree();
    let root_id = tree.get_root_id();
    assert_eq!(try_decode(&mut tree, root_id, document.as_bytes()), None);
    assert_eq!(tree, new_tree());
}

#[test]
fn instances_without_a_place_have_no_answer() {
    let mut tree = new_tree();
    let document = "<roblox version=\"4\"><Item class=\"A\"/></roblox>";
    assert_eq!(try_decode_str(&mut tree, id(7), document), None);
    assert_eq!(try_decode(&mut tree, id(7), document.as_bytes()), None);
    assert_eq!(tree, new_tree());
}

#[test]
fn documents_without_instances_need_no_place() {
    let cases = [
        ("<roblox version=\"4\"><Meta name=\"A\">b</Meta></roblox>", Ok(())),
        ("<roblox version=\"3\"/>", message("Not version 4")),
        ("<roblox version=\"4\"><Item/></roblox>", message("Missing 'class'")),
    ];
    for (document, expected) in cases {
        let mut tree = new_tree();
        assert_eq!(decode_str(&mut tree, id(7), document), expected);
        assert_eq!(decode(&mut tree, id(7), document.as_bytes()), expected);
        assert_eq!(try_decode_str(&mut tree, id(7), document), Some(expected));
        assert_eq!(tree, new_tree());
    }
}

#[test]
fn strings_fail_as_their_bytes_do() {
    let document = "<roblox version=\"4\"><Item class=\"A\"><Properties><Color3uint8 name=\"C\">99999999999</Color3uint8></Properties></Item></roblox>";
    let (result, expected) = decoded(document);
    let mut tree = new_tree();
    let root_id = tree.get_root_id();
    assert_eq!(decode(&mut tree, root_id, document.as_bytes()), result);
    assert_eq!(tree, expected);
    assert_eq!(
        result,
        Err(DecodeError::ParseIntError(
            "99999999999".parse::<u32>().unwrap_err()
        ))
    );
}

#[test]
fn all_else_has_an_answer() {
    let documents = [
        "<roblox version=\"4\"><Item class=\"A\"/></roblox>",
        "<roblox version=\"4\">text</roblox>",
        "<roblox version=\"4\"><Item class=\"A\"><Properties>text</Properties></Item></roblox>",
        "",
    ];
    for document in documents {
        let (result, expected) = decoded(document);
        let mut tree = new_tree();
        let root_id = tree.get_root_id();
        assert_eq!(
            try_decode_str(&mut tree, root_id, document),
            Some(result.clone())
        );
        assert_eq!(tree, expected);
        let mut tree = new_tree();
        assert_eq!(
            try_decode(&mut tree, root_id, document.as_bytes()),
            Some(result)
        );
        assert_eq!(tree, expected);
    }
}

#[test]
fn errors_come_from_their_causes() {
    let base64 = base64::decode("!").unwrap_err();
    assert_eq!(
        DecodeError::from(base64.clone()),
        DecodeError::DecodeBase64Error(base64)
    );
    let integer = "x".parse::<u32>().unwrap_err();
    assert_eq!(
        DecodeError::from(integer.clone()),
        DecodeError::ParseIntError(integer)
    );
    let float = FloatError { text: "x".to_string() };
    assert_eq!(
        DecodeError::from(float.clone()),
        DecodeError::ParseFloatError(float)
    );
    let fault = XmlError { message: "1:1 oops".to_string() };
    assert_eq!(
        DecodeError::from(fault.clone()),
        DecodeError::XmlError(fault)
    );
}

#[test]
fn errors_can_be_copied() {
    let errors = [
        DecodeError::XmlError(XmlError { message: "1:1 oops".to_string() }),
        DecodeError::ParseFloatError(FloatError { text: "x".to_string() }),
        DecodeError::ParseIntError("x".parse::<u32>().unwrap_err()),
        DecodeError::DecodeBase64Error(base64::decode("!").unwrap_err()),
        DecodeError::Message("m"),
        DecodeError::MalformedDocument,
    ];
    for error in errors {
        assert_eq!(error.clone(), error);
    }
}

#[test]
fn new_instances_stand_below_the_given_one() {
    let mut tree = new_tree();
    let root_id = tree.get_root_id();
    let folder = RbxInstanceProperties {
        name: "Given".to_string(),
        class_name: "Folder".to_string(),
        properties: Properties::new(),
    };
    let given = tree.insert_instance(folder, root_id);
    let document = "<roblox version=\"4\"><Item class=\"A\"><Item class=\"B\"><Item class=\"C\"/></Item></Item></roblox>";
    assert_eq!(decode_str(&mut tree, given, document), Ok(()));
    for index in 2..5 {
        let mut above = tree.get_instance(id(index)).unwrap().get_parent_id();
        while above != Some(given) {
            above = tree.get_instance(above.unwrap()).unwrap().get_parent_id();
        }
    }
}
