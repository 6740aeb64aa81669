use rbx_xml::dom::{Properties, RbxId, RbxInstanceProperties, RbxTree, RbxValue, Scalar};
use rbx_xml::error::FloatError;
use rbx_xml::reflection::canonical_name;
use rbx_xml::state::apply_id_rewrites;
use rbx_xml::text::{is_float, text_eq};
use rbx_xml::types::read_value_xml;
use rbx_xml::{DecodeError, ParseState, XmlEventReader};

/// Reads the value that a document consists of.
fn value(source: &str, xml_type: &str) -> Result<RbxValue, DecodeError> {
    let mut reader = XmlEventReader::from_source(source.as_bytes());
    reader.next();
    read_value_xml(&mut reader, xml_type)
}

fn literals<const N: usize>(texts: [&str; N]) -> [Scalar; N] {
    texts.map(|text| Scalar::Literal(text.to_string()))
}

fn text(value: &str) -> RbxValue {
    RbxValue::String { value: value.to_string() }
}

fn instance(name: &str) -> RbxInstanceProperties {
    RbxInstanceProperties {
        name: name.to_string(),
        class_name: "Folder".to_string(),
        properties: Properties::new(),
    }
}

#[test]
fn strings_read_as_their_text() {
    assert_eq!(value("<string>a b</string>", "string"), Ok(text("a b")));
    assert_eq!(value("<string></string>", "string"), Ok(text("")));
    assert_eq!(
        value("<string>a&lt;<![CDATA[<b>]]></string>", "string"),
        Ok(text("a<<b>"))
    );
}

#[test]
fn truth_values_are_spelt_out() {
    assert_eq!(
        value("<bool>true</bool>", "bool"),
        Ok(RbxValue::Bool { value: true })
    );
    assert_eq!(
        value("<bool>false</bool>", "bool"),
        Ok(RbxValue::Bool { value: false })
    );
    for wrong in ["True", "1", "", " true"] {
        assert_eq!(
            value(&format!("<bool>{}</bool>", wrong), "bool"),
            Err(DecodeError::Message(
                "Invalid boolean value, expected true or false"
            ))
        );
    }
}

#[test]
fn vectors_read_their_parts_in_order() {
    assert_eq!(
        value("<Vector2><X>1</X><Y>-2.5</Y></Vector2>", "Vector2"),
        Ok(RbxValue::Vector2 { value: literals(["1", "-2.5"]) })
    );
    assert_eq!(
        value("<Vector3><X>1</X><Y>2e3</Y><Z>nan</Z></Vector3>", "Vector3"),
        Ok(RbxValue::Vector3 { value: literals(["1", "2e3", "nan"]) })
    );
    assert_eq!(
        value("<Vector2><Y>1</Y><X>2</X></Vector2>", "Vector2"),
        Err(DecodeError::Message("Got wrong tag name"))
    );
    assert_eq!(
        value("<Vector3><X>1</X><Y>2</Y></Vector3>", "Vector3"),
        Err(DecodeError::MalformedDocument)
    );
    assert_eq!(
        value("<Vector2><X>1</X><Y>2</Y><Z>3</Z></Vector2>", "Vector2"),
        Err(DecodeError::MalformedDocument)
    );
}

#[test]
fn what_is_no_number_is_told() {
    assert_eq!(
        value("<Vector2><X>1</X><Y>two</Y></Vector2>", "Vector2"),
        Err(DecodeError::ParseFloatError(FloatError { text: "two".to_string() }))
    );
}

#[test]
fn colors_are_numbers_or_packed() {
    assert_eq!(
        value("<Color3><R>0</R><G>0.5</G><B>1</B></Color3>", "Color3"),
        Ok(RbxValue::Color3 { value: literals(["0", "0.5", "1"]) })
    );
    assert_eq!(
        value("<Color3>4286611711</Color3>", "Color3"),
        Ok(RbxValue::Color3 {
            value: [
                Scalar::ByteFraction(0x80),
                Scalar::ByteFraction(0x80),
                Scalar::ByteFraction(0xff),
            ],
        })
    );
    assert_eq!(
        value("<Color3uint8>4286611711</Color3uint8>", "Color3uint8"),
        Ok(RbxValue::Color3uint8 { value: [0x80, 0x80, 0xff] })
    );
    assert_eq!(
        value("<Color3uint8>+66051</Color3uint8>", "Color3uint8"),
        Ok(RbxValue::Color3uint8 { value: [1, 2, 3] })
    );
}

#[test]
fn packed_colors_are_32_bit_numbers() {
    let highest = value("<Color3uint8>4294967295</Color3uint8>", "Color3uint8");
    assert_eq!(
        highest,
        Ok(RbxValue::Color3uint8 { value: [0xff, 0xff, 0xff] })
    );
    for wrong in ["4294967296", "-1", "", "+", "0x10", " 1"] {
        let expected = wrong.parse::<u32>().unwrap_err();
        assert_eq!(
            value(&format!("<Color3uint8>{}</Color3uint8>", wrong), "Color3uint8"),
            Err(DecodeError::ParseIntError(expected))
        );
    }
    assert!(matches!(
        value("<Color3>red</Color3>", "Color3"),
        Err(DecodeError::ParseIntError(_))
    ));
}

#[test]
fn frames_read_their_twelve_parts() {
    let source = "<CoordinateFrame><X>1</X><Y>2</Y><Z>3</Z><R00>4</R00><R01>5</R01><R02>6</R02>\
        <R10>7</R10><R11>8</R11><R12>9</R12><R20>10</R20><R21>11</R21><R22>12</R22>\
        </CoordinateFrame>";
    assert_eq!(
        value(source, "CoordinateFrame"),
        Ok(RbxValue::CFrame {
            value: literals(["1", "2", "3", "4", "5", "6", "7", "8", "9", "10", "11", "12"]),
        })
    );
}

#[test]
fn unknown_types_are_told() {
    assert_eq!(
        value("<Bogus>1</Bogus>", "Bogus"),
        Err(DecodeError::Message("Unknown property type"))
    );
}

#[test]
fn the_tag_must_be_that_of_the_type() {
    assert_eq!(
        value("<Vector3><X>1</X></Vector3>", "Vector2"),
        Err(DecodeError::Message("Wrong opening tag"))
    );
    assert_eq!(
        value("<bool>true</bool>", "string"),
        Err(DecodeError::Message("Got wrong tag name"))
    );
}

#[test]
fn floats_are_what_the_standard_library_takes() {
    let texts = [
        "0", "1", "-1", "+1", "123.456", "-.5", ".5", "5.", "1e5", "1E5", "1e+5", "1e-5", "1.5e3",
        "inf", "-inf", "+inf", "INF", "infinity", "-Infinity", "nan", "NaN", "-nan", "+NAN", "", "+",
        "-", ".", "-.", "e5", "1e", "1e+", "1e5.5", "1.2.3", " 1", "1 ", "1_000", "0x10", "one",
        "infinit", "nana", "--1", "+-1", "1f", "\u{663}", "00012", "1e400", "1e-400",
    ];
    for text in texts {
        assert_eq!(is_float(text), text.parse::<f32>().is_ok(), "{:?}", text);
    }
}

#[test]
fn texts_are_equal_when_their_characters_are() {
    assert!(text_eq("", ""));
    assert!(text_eq("héllo", "héllo"));
    assert!(!text_eq("hello", "hell"));
    assert!(!text_eq("hell", "hello"));
    assert!(!text_eq("Item", "item"));
}

#[test]
fn some_properties_have_other_names_in_documents() {
    assert_eq!(canonical_name("size".to_string()), "Size");
    assert_eq!(canonical_name("Size".to_string()), "Size");
    assert_eq!(canonical_name("shape".to_string()), "shape");
}

#[test]
fn properties_have_one_value_for_each_name() {
    let mut properties = Properties::new();
    assert_eq!(properties.get("a"), None);
    properties.insert("a".to_string(), text("1"));
    properties.insert("b".to_string(), text("2"));
    properties.insert("a".to_string(), text("3"));
    assert_eq!(properties.get("a"), Some(&text("3")));
    assert_eq!(properties.get("b"), Some(&text("2")));
    assert_eq!(properties.entries().len(), 2);
    assert_eq!(properties.remove("a"), Some(text("3")));
    assert_eq!(properties.remove("a"), None);
    assert_eq!(properties.get("b"), Some(&text("2")));
    assert_eq!(properties.entries().len(), 1);
}

#[test]
fn inserted_instances_are_the_last_children() {
    let mut tree = RbxTree::new(instance("root"));
    let root = tree.get_root_id();
    let first = tree.insert_instance(instance("first"), root);
    let below = tree.insert_instance(instance("below"), first);
    let second = tree.insert_instance(instance("second"), root);
    let children = tree.get_instance(root).unwrap().get_children_ids().clone();
    assert_eq!(children, vec![first, second]);
    assert_eq!(
        *tree.get_instance(first).unwrap().get_children_ids(),
        vec![below]
    );
    assert_eq!(tree.get_instance(below).unwrap().get_parent_id(), Some(first));
    assert_eq!(tree.get_instance(root).unwrap().get_parent_id(), None);
    assert!(tree.get_instance(RbxId { index: 4 }).is_none());
}

#[test]
fn references_are_made_to_known_referents_only() {
    let mut tree = RbxTree::new(instance("root"));
    let root = tree.get_root_id();
    let one = tree.insert_instance(instance("one"), root);
    let two = tree.insert_instance(instance("two"), root);
    let mut state = ParseState::new(&mut tree);
    state.referents.insert("known".to_string(), two);
    state.add_id_rewrite(one, "a".to_string(), "known".to_string());
    state.add_id_rewrite(one, "b".to_string(), "unknown".to_string());
    state.add_id_rewrite(two, "c".to_string(), "unknown".to_string());
    state.add_id_rewrite(two, "c".to_string(), "known".to_string());
    state.add_id_rewrite(two, "c".to_string(), "unknown".to_string());
    state.add_id_rewrite(RbxId { index: 9 }, "d".to_string(), "unknown".to_string());
    apply_id_rewrites(&mut state);
    let reference = RbxValue::Ref { value: Some(two) };
    let one = tree.get_instance(one).unwrap();
    let two = tree.get_instance(two).unwrap();
    assert_eq!(one.properties.get("a"), Some(&reference));
    assert_eq!(one.properties.get("b"), None);
    assert_eq!(two.properties.get("c"), Some(&reference));
}

#[test]
fn making_references_again_changes_nothing() {
    let build = || {
        let mut tree = RbxTree::new(instance("root"));
        let root = tree.get_root_id();
        let one = tree.insert_instance(instance("one"), root);
        (tree, one)
    };
    let (mut once, one) = build();
    let (mut twice, _) = build();
    for (tree, rounds) in [(&mut once, 1), (&mut twice, 2)] {
        let mut state = ParseState::new(tree);
        state.referents.insert("a".to_string(), one);
        state.add_id_rewrite(one, "p".to_string(), "a".to_string());
        state.add_id_rewrite(one, "q".to_string(), "b".to_string());
        for _ in 0..rounds {
            apply_id_rewrites(&mut state);
        }
    }
    assert_eq!(once, twice);
    let reference = RbxValue::Ref { value: Some(one) };
    assert_eq!(
        once.get_instance(one).unwrap().properties.get("p"),
        Some(&reference)
    );
}
