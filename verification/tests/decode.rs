use rbx_xml::decode_str;
use rbx_xml::dom::{
    Properties, RbxId, RbxInstance, RbxInstanceProperties, RbxTree, RbxValue, Scalar,
};

/// A property value with its numbers worked out.
#[derive(Debug, PartialEq)]
enum Value {
    String(String),
    Bool(bool),
    Vector2([f32; 2]),
    Vector3([f32; 3]),
    Color3([f32; 3]),
    Color3uint8([u8; 3]),
    CFrame([f32; 12]),
    Ref(Option<RbxId>),
}

fn number(scalar: &Scalar) -> f32 {
    match scalar {
        Scalar::Literal(text) => text.parse().unwrap(),
        Scalar::ByteFraction(byte) => *byte as f32 / 255.0,
    }
}

fn numbers<const N: usize>(scalars: &[Scalar; N]) -> [f32; N] {
    let mut result = [0.0; N];
    for i in 0..N {
        result[i] = number(&scalars[i]);
    }
    result
}

fn value_of(instance: &RbxInstance, name: &str) -> Option<Value> {
    instance.properties.get(name).map(|value| match value {
        RbxValue::String { value } => Value::String(value.clone()),
        RbxValue::Bool { value } => Value::Bool(*value),
        RbxValue::Vector2 { value } => Value::Vector2(numbers(value)),
        RbxValue::Vector3 { value } => Value::Vector3(numbers(value)),
        RbxValue::Color3 { value } => Value::Color3(numbers(value)),
        RbxValue::Color3uint8 { value } => Value::Color3uint8(*value),
        RbxValue::CFrame { value } => Value::CFrame(numbers(value)),
        RbxValue::Ref { value } => Value::Ref(*value),
    })
}

/// The instance itself and everything under it, parents first.
fn descendants(tree: &RbxTree, id: RbxId) -> Vec<&RbxInstance> {
    let instance = tree.get_instance(id).unwrap();
    let mut all = vec![instance];
    for child in instance.get_children_ids() {
        all.extend(descendants(tree, *child));
    }
    all
}

fn new_data_model() -> RbxTree {
    let root = RbxInstanceProperties {
        name: "DataModel".to_string(),
        class_name: "DataModel".to_string(),
        properties: Properties::new(),
    };

    RbxTree::new(root)
}

fn floats_approx_equal(left: f32, right: f32, epsilon: f32) -> bool {
    (left - right).abs() <= epsilon
}

#[test]
fn empty_document() {
    let document = r#"<roblox version="4"></roblox>"#;
    let mut tree = new_data_model();
    let root_id = tree.get_root_id();

    decode_str(&mut tree, root_id, document).unwrap();
}

#[test]
fn mostly_empty() {
    let document = r#"
        <roblox version="4">
            <!-- hello there! -->
            <Meta name="Trash">true</Meta>
        </roblox>
    "#;

    let mut tree = new_data_model();
    let root_id = tree.get_root_id();

    decode_str(&mut tree, root_id, document).unwrap();
}

#[test]
fn top_level_garbage() {
    let document = r#"
        <roblox version="4">
            <ack />
        </roblox>
    "#;

    let mut tree = new_data_model();
    let root_id = tree.get_root_id();

    assert!(decode_str(&mut tree, root_id, document).is_err());
}

#[test]
fn empty_instance() {
    let document = r#"
        <roblox version="4">
            <Item class="Folder" referent="hello">
            </Item>
        </roblox>
    "#;

    let mut tree = new_data_model();
    let root_id = tree.get_root_id();

    decode_str(&mut tree, root_id, document).unwrap();

    let root = tree.get_instance(root_id).unwrap();
    assert_eq!(root.get_children_ids().len(), 1);
}

#[test]
fn children() {
    let document = r#"
        <roblox version="4">
            <Item class="Folder" referent="hello">
                <Properties>
                    <string name="Name">Outer</string>
                </Properties>
                <Item class="Folder" referent="child">
                    <Properties>
                        <string name="Name">Inner</string>
                    </Properties>
                </Item>
            </Item>
        </roblox>
    "#;

    let mut tree = new_data_model();
    let root_id = tree.get_root_id();

    decode_str(&mut tree, root_id, document).unwrap();
    let root = tree.get_instance(root_id).unwrap();
    let first_folder = tree.get_instance(root.get_children_ids()[0]).expect("expected a child");
    let inner_folder = tree.get_instance(first_folder.get_children_ids()[0]).expect("expected a subchild");
    assert_eq!(first_folder.name, "Outer");
    assert_eq!(inner_folder.name, "Inner");
}

#[test]
fn canonicalized_names() {
    let document = r#"
        <roblox version="4">
            <Item class="Part" referent="hello">
                <Properties>
                    <Vector3 name="size">
                        <X>123.0</X>
                        <Y>456.0</Y>
                        <Z>789.0</Z>
                    </Vector3>
                </Properties>
            </Item>
        </roblox>
    "#;

    let mut tree = new_data_model();
    let root_id = tree.get_root_id();

    decode_str(&mut tree, root_id, document).expect("should work D:");

    let descendant = descendants(&tree, root_id)[1];
    assert_eq!(descendant.name, "Part");
    assert_eq!(descendant.class_name, "Part");
    assert_eq!(value_of(descendant, "Size"), Some(Value::Vector3([123.0, 456.0, 789.0])));
}

#[test]
fn with_bool() {
    let document = r#"
        <roblox version="4">
            <Item class="BoolValue" referent="hello">
                <Properties>
                    <bool name="Value">true</bool>
                </Properties>
            </Item>
        </roblox>
    "#;

    let mut tree = new_data_model();
    let root_id = tree.get_root_id();

    decode_str(&mut tree, root_id, document).expect("should work D:");

    let descendant = descendants(&tree, root_id)[1];
    assert_eq!(descendant.name, "BoolValue");
    assert_eq!(descendant.class_name, "BoolValue");
    assert_eq!(value_of(descendant, "Value"), Some(Value::Bool(true)));
}

#[test]
fn with_vector3() {
    let document = r#"
        <roblox version="4">
            <Item class="Vector3Value" referent="hello">
                <Properties>
                    <string name="Name">Test</string>
                    <Vector3 name="Value">
                        <X>0</X>
                        <Y>0.25</Y>
                        <Z>-123.23</Z>
                    </Vector3>
                </Properties>
            </Item>
        </roblox>
    "#;

    let mut tree = new_data_model();
    let root_id = tree.get_root_id();

    decode_str(&mut tree, root_id, document).expect("should work D:");

    let descendant = descendants(&tree, root_id)[1];
    assert_eq!(descendant.name, "Test");
    assert_eq!(descendant.class_name, "Vector3Value");
    assert_eq!(value_of(descendant, "Value"), Some(Value::Vector3([ 0.0, 0.25, -123.23 ])));
}

#[test]
fn with_color3() {
    let document = r#"
        <roblox version="4">
            <Item class="Color3Value" referent="hello">
                <Properties>
                    <string name="Name">Test</string>
                    <Color3 name="Value">
                        <R>0</R>
                        <G>0.25</G>
                        <B>0.75</B>
                    </Color3>
                </Properties>
            </Item>
            <Item class="Color3Value" referent="hello">
                <Properties>
                    <string name="Name">Test2</string>
                    <Color3 name="Value">4294934592</Color3>
                </Properties>
            </Item>
        </roblox>
    "#;

    let mut tree = new_data_model();
    let root_id = tree.get_root_id();

    decode_str(&mut tree, root_id, document).expect("should work D:");

    for descendant in descendants(&tree, root_id) {
        if descendant.name == "Test" {
            assert_eq!(value_of(descendant, "Value"), Some(Value::Color3([ 0.0, 0.25, 0.75 ])));
        } else if descendant.name == "Test2" {
            if let Some(Value::Color3(value)) = value_of(descendant, "Value") {
                assert!(floats_approx_equal(value[0], 1.0, 0.001));
                assert!(floats_approx_equal(value[1], 0.501961, 0.001));
                assert!(floats_approx_equal(value[2], 0.250980, 0.001));
            } else {
                panic!("value was not a Color3 or did not deserialize properly");
            }
        }
    }
}

#[test]
fn with_color3uint8() {
    let document = r#"
        <roblox version="4">
            <Item class="Color3Value" referent="hello">
                <Properties>
                    <string name="Name">Test</string>
                    <Color3uint8 name="Value">4294934592</Color3uint8>
                </Properties>
            </Item>
        </roblox>
    "#;

    let mut tree = new_data_model();
    let root_id = tree.get_root_id();

    decode_str(&mut tree, root_id, document).expect("should work D:");

    let descendant = descendants(&tree, root_id)[1];
    assert_eq!(descendant.name, "Test");
    assert_eq!(descendant.class_name, "Color3Value");
    assert_eq!(value_of(descendant, "Value"), Some(Value::Color3uint8([ 255, 128, 64 ])));
}

#[test]
fn with_vector2() {
    let document = r#"
        <roblox version="4">
            <Item class="Vector2Value" referent="hello">
                <Properties>
                    <string name="Name">Test</string>
                    <Vector2 name="Value">
                        <X>0</X>
                        <Y>0.5</Y>
                    </Vector2>
                </Properties>
            </Item>
        </roblox>
    "#;

    let mut tree = new_data_model();
    let root_id = tree.get_root_id();

    decode_str(&mut tree, root_id, document).expect("should work D:");

    let descendant = descendants(&tree, root_id)[1];
    assert_eq!(descendant.name, "Test");
    assert_eq!(descendant.class_name, "Vector2Value");
    assert_eq!(value_of(descendant, "Value"), Some(Value::Vector2([ 0.0, 0.5 ])));
}

#[test]
fn with_cframe() {
    let document = r#"
        <roblox version="4">
            <Item class="CFrameValue" referent="hello">
                <Properties>
                    <string name="Name">Test</string>
                    <CoordinateFrame name="Value">
                        <X>0</X>
                        <Y>0.5</Y>
                        <Z>0</Z>
                        <R00>1</R00>
                        <R01>0</R01>
                        <R02>0</R02>
                        <R10>0</R10>
                        <R11>1</R11>
                        <R12>0</R12>
                        <R20>0</R20>
                        <R21>0</R21>
                        <R22>1</R22>
                    </CoordinateFrame>
                </Properties>
            </Item>
        </roblox>
    "#;

    let mut tree = new_data_model();
    let root_id = tree.get_root_id();

    decode_str(&mut tree, root_id, document).expect("should work D:");

    let descendant = descendants(&tree, root_id)[1];
    assert_eq!(descendant.name, "Test");
    assert_eq!(descendant.class_name, "CFrameValue");
    assert_eq!(value_of(descendant, "Value"), Some(Value::CFrame([
        0.0, 0.5, 0.0,
        1.0, 0.0, 0.0,
        0.0, 1.0, 0.0,
        0.0, 0.0, 1.0,
    ])));
}

#[test]
fn with_ref_some() {
    let document = r#"
        <roblox version="4">
            <Item class="Folder" referent="RBX1B9CDD1FD0884F76BFE6091C1731E1FB">
            </Item>

            <Item class="ObjectValue" referent="hello">
                <Properties>
                    <string name="Name">Test</string>
                    <Ref name="Value">RBX1B9CDD1FD0884F76BFE6091C1731E1FB</Ref>
                </Properties>
            </Item>
        </roblox>
    "#;

    let mut tree = new_data_model();
    let root_id = tree.get_root_id();

    decode_str(&mut tree, root_id, document).unwrap();

    let root_instance = tree.get_instance(root_id).unwrap();
    let target_instance_id = root_instance.get_children_ids()[0];
    let source_instance_id = root_instance.get_children_ids()[1];

    let source_instance = tree.get_instance(source_instance_id).unwrap();
    assert_eq!(source_instance.name, "Test");
    assert_eq!(source_instance.class_name, "ObjectValue");

    let value = source_instance.properties.get("Value").unwrap();
    if let RbxValue::Ref { value } = value {
        assert_eq!(value.unwrap(), target_instance_id);
    } else {
        panic!("RBXValue was not Ref, but instead {:?}", value);
    }
}

#[test]
fn with_ref_none() {
    let document = r#"
        <roblox version="4">
            <Item class="ObjectValue" referent="hello">
                <Properties>
                    <string name="Name">Test</string>
                    <Ref name="Value">null</Ref>
                </Properties>
            </Item>
        </roblox>
    "#;

    let mut tree = new_data_model();
    let root_id = tree.get_root_id();

    decode_str(&mut tree, root_id, document).expect("should work D:");

    let descendant = descendants(&tree, root_id)[1];
    assert_eq!(descendant.name, "Test");
    assert_eq!(descendant.class_name, "ObjectValue");

    let value = descendant.properties.get("Value").expect("no value property");
    assert_eq!(value, &RbxValue::Ref { value: None });
}
