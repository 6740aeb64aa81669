//! What a document says: the edits that it makes to a tree, and how it ends.

use vstd::prelude::*;

use crate::dom::{PropertiesView, ValueView};
use crate::error::ErrorView;
use crate::event::{AttributeView, EventView, Stream};
use crate::reader::{
    lemma_skip_tag_progress, lemma_tag_contents_progress, message, next_event, skip_tag,
    tag_contents,
};
use crate::reflection::canonical;
use crate::types::{lemma_property_value_progress, property_value};

verus! {

/// Where a document puts an instance: under the instance that it is decoded
/// into, or under one of its own instances, which are counted in the order in
/// which they open.
pub enum Place {
    Given,
    Opened(nat),
}

/// One thing that a document does.
#[allow(inconsistent_fields)]
pub enum Edit {
    /// Opens an instance, still blank, as the last child at a place, and makes
    /// the referent, if there is one, stand for it.
    Open { parent: Place, referent: Option<Seq<char>> },
    /// Names, classes and equips an instance.
    Fill { instance: nat, name: Seq<char>, class_name: Seq<char>, properties: PropertiesView },
    /// Records a piece of metadata.
    Describe { name: Seq<char>, value: Seq<char> },
    /// Asks that a property refer to the instance that a referent stands for,
    /// once all referents are known.
    Link { instance: nat, property: Seq<char>, referent: Seq<char> },
}

/// Why the reading of a document stops short.
pub enum Stop {
    /// The document is refused with an error.
    Error(ErrorView),
    /// An instance holds something else than tags, for which there is no
    /// answer.
    Unexpected,
}

/// What has been read: how it ended, what it does, how many instances the
/// document has opened by its end, and the events behind it.
pub struct Parsed {
    pub outcome: Result<(), Stop>,
    pub edits: Seq<Edit>,
    pub opened: nat,
    pub rest: Stream,
}

/// What has been read of the inside of an instance, and the properties that it
/// gathered.
pub struct ParsedBody {
    pub outcome: Result<(), Stop>,
    pub edits: Seq<Edit>,
    pub opened: nat,
    pub properties: PropertiesView,
    pub rest: Stream,
}

/// What has been read of a list of properties.
pub struct ParsedProperties {
    pub outcome: Result<(), ErrorView>,
    pub edits: Seq<Edit>,
    pub properties: PropertiesView,
    pub rest: Stream,
}

/// What has been read of a single property: its value, and the referent that
/// it asks for.
pub struct ParsedProperty {
    pub value: Result<ValueView, ErrorView>,
    pub referent: Option<Seq<char>>,
    pub rest: Stream,
}

/// The value of the first attribute with the given name.
pub open spec fn first_attribute(attributes: Seq<AttributeView>, name: Seq<char>) -> Option<
    Seq<char>,
>
    decreases attributes.len(),
{
    if attributes.len() == 0 {
        None
    } else if attributes[0].name == name {
        Some(attributes[0].value)
    } else {
        first_attribute(attributes.drop_first(), name)
    }
}

/// The value of the last attribute with the given name.
pub open spec fn last_attribute(attributes: Seq<AttributeView>, name: Seq<char>) -> Option<
    Seq<char>,
>
    decreases attributes.len(),
{
    if attributes.len() == 0 {
        None
    } else if attributes.last().name == name {
        Some(attributes.last().value)
    } else {
        last_attribute(attributes.drop_last(), name)
    }
}

/// Some attribute has the given name.
pub open spec fn has_attribute(attributes: Seq<AttributeView>, name: Seq<char>) -> bool {
    exists|i: int| 0 <= i < attributes.len() && (#[trigger] attributes[i]).name == name
}

/// Every attribute with the given name has the given value.
pub open spec fn attribute_is(
    attributes: Seq<AttributeView>,
    name: Seq<char>,
    value: Seq<char>,
) -> bool {
    forall|i: int|
        0 <= i < attributes.len() && (#[trigger] attributes[i]).name == name ==> attributes[i].value
            == value
}

/// What the attributes of the outermost tag are refused for: only version four
/// of the format is understood.
pub open spec fn version_fault(attributes: Seq<AttributeView>) -> Option<ErrorView> {
    if !attribute_is(attributes, "version"@, "4"@) {
        Some(message("Not version 4"@))
    } else if !has_attribute(attributes, "version"@) {
        Some(message("No version field"@))
    } else {
        None
    }
}

/// Whether the stream goes on with an opening tag of the given name.
pub open spec fn opens(stream: Stream, name: Seq<char>) -> bool {
    &&& stream.len() > 0
    &&& stream[0] is Ok
    &&& stream[0]->Ok_0 is StartElement
    &&& stream[0]->Ok_0->StartElement_name == name
}

/// Reading a piece of metadata: its name and its value. The next event is its
/// opening tag.
pub open spec fn metadata(stream: Stream) -> (Result<(Seq<char>, Seq<char>), ErrorView>, Stream) {
    let (start, inside) = next_event(stream);
    match start {
        Err(error) => (Err(error), inside),
        Ok(EventView::StartElement { attributes, .. }) => match last_attribute(
            attributes,
            "name"@,
        ) {
            None => (Err(message("Meta missing 'name' field"@)), inside),
            Some(name) => {
                let (contents, behind) = next_event(inside);
                match contents {
                    Err(error) => (Err(error), behind),
                    Ok(EventView::Characters(value)) => {
                        let (end, rest) = next_event(behind);
                        match end {
                            Err(error) => (Err(error), rest),
                            Ok(EventView::EndElement { name: closed }) => if closed == "Meta"@ {
                                (Ok((name, value)), rest)
                            } else {
                                (
                                    Err(message("Incorrect closing tag, expected 'Meta'"@)),
                                    rest,
                                )
                            },
                            Ok(_) => (Err(ErrorView::MalformedDocument), rest),
                        }
                    },
                    Ok(_) => (Err(ErrorView::MalformedDocument), behind),
                }
            },
        },
        Ok(_) => (Err(ErrorView::MalformedDocument), inside),
    }
}

/// Reading a property of the given type. A reference is left open while the
/// referents are not all known, and is asked for unless it is null.
pub open spec fn property(stream: Stream, xml_type: Seq<char>) -> ParsedProperty {
    if xml_type == "Ref"@ {
        let (contents, rest) = tag_contents(stream, "Ref"@);
        match contents {
            Err(error) => ParsedProperty { value: Err(error), referent: None, rest },
            Ok(referent) => ParsedProperty {
                value: Ok(ValueView::Ref(None)),
                referent: if referent == "null"@ {
                    None
                } else {
                    Some(referent)
                },
                rest,
            },
        }
    } else {
        let (value, rest) = property_value(stream, xml_type);
        ParsedProperty { value, referent: None, rest }
    }
}

/// The link that a property of an instance asks for.
pub open spec fn links(
    instance: nat,
    property: Seq<char>,
    referent: Option<Seq<char>>,
) -> Seq<Edit> {
    match referent {
        Some(referent) => seq![Edit::Link { instance, property, referent }],
        None => Seq::empty(),
    }
}

/// Reading properties up to the tag that closes their list.
pub open spec fn property_list(
    stream: Stream,
    instance: nat,
    properties: PropertiesView,
) -> ParsedProperties
    decreases stream.len(),
{
    let refused = |error: ErrorView|
        ParsedProperties { outcome: Err(error), edits: Seq::empty(), properties, rest: stream };
    if stream.len() == 0 {
        refused(message("Unexpected EOF"@))
    } else {
        match stream[0] {
            Ok(EventView::StartElement { name: xml_type, attributes }) => match first_attribute(
                attributes,
                "name"@,
            ) {
                None => refused(message("Missing 'name' for property tag"@)),
                Some(xml_name) => {
                    let read = property(stream, xml_type);
                    match read.value {
                        Err(error) => ParsedProperties {
                            outcome: Err(error),
                            edits: Seq::empty(),
                            properties,
                            rest: read.rest,
                        },
                        Ok(value) => if read.rest.len() < stream.len() {
                            let name = canonical(xml_name);
                            let others = property_list(
                                read.rest,
                                instance,
                                properties.insert(name, value),
                            );
                            ParsedProperties {
                                edits: links(instance, name, read.referent) + others.edits,
                                ..others
                            }
                        } else {
                            arbitrary()
                        },
                    }
                },
            },
            Ok(EventView::EndElement { name }) => if name == "Properties"@ {
                ParsedProperties {
                    outcome: Ok(()),
                    edits: Seq::empty(),
                    properties,
                    rest: stream.drop_first(),
                }
            } else {
                refused(message("Unexpected end element, expected Properties"@))
            },
            _ => refused(message("Unexpected thing in Properties section"@)),
        }
    }
}

/// The name of an instance: its property `Name`, which must be a text, or else
/// its class.
pub open spec fn instance_name(properties: PropertiesView, class_name: Seq<char>) -> Option<
    Seq<char>,
> {
    if !properties.contains_key("Name"@) {
        Some(class_name)
    } else {
        match properties["Name"@] {
            ValueView::String(name) => Some(name),
            _ => None,
        }
    }
}

/// Reading an instance, whose opening tag is the next event, with `opened`
/// instances opened before it.
pub open spec fn instance(stream: Stream, parent: Place, opened: nat) -> Parsed
    decreases stream.len(), 0nat,
{
    if !opens(stream, "Item"@) {
        arbitrary()
    } else {
        let attributes = stream[0]->Ok_0->StartElement_attributes;
        let inside = stream.drop_first();
        match last_attribute(attributes, "class"@) {
            None => Parsed {
                outcome: Err(Stop::Error(message("Missing 'class'"@))),
                edits: Seq::empty(),
                opened,
                rest: inside,
            },
            Some(class_name) => {
                let open = Edit::Open { parent, referent: last_attribute(attributes, "referent"@) };
                let body = instance_body(inside, opened, opened + 1, Map::empty());
                let read = Parsed {
                    outcome: body.outcome,
                    edits: seq![open] + body.edits,
                    opened: body.opened,
                    rest: body.rest,
                };
                match body.outcome {
                    Err(_) => read,
                    Ok(_) => match instance_name(body.properties, class_name) {
                        None => Parsed {
                            outcome: Err(Stop::Error(message("Name must be a string"@))),
                            ..read
                        },
                        Some(name) => Parsed {
                            edits: read.edits.push(
                                Edit::Fill {
                                    instance: opened,
                                    name,
                                    class_name,
                                    properties: body.properties.remove("Name"@),
                                },
                            ),
                            ..read
                        },
                    },
                }
            },
        }
    }
}

/// Reading the inside of an instance up to the tag that closes it.
pub open spec fn instance_body(
    stream: Stream,
    me: nat,
    opened: nat,
    properties: PropertiesView,
) -> ParsedBody
    decreases stream.len(), 1nat,
{
    let stopped = |stop: Stop|
        ParsedBody { outcome: Err(stop), edits: Seq::empty(), opened, properties, rest: stream };
    if stream.len() == 0 {
        stopped(Stop::Error(message("Unexpected EOF"@)))
    } else {
        match stream[0] {
            Ok(EventView::StartElement { name, .. }) => if name == "Properties"@ {
                let list = property_list(stream.drop_first(), me, properties);
                match list.outcome {
                    Err(error) => ParsedBody {
                        outcome: Err(Stop::Error(error)),
                        edits: list.edits,
                        opened,
                        properties: list.properties,
                        rest: list.rest,
                    },
                    Ok(_) => if list.rest.len() < stream.len() {
                        let others = instance_body(list.rest, me, opened, list.properties);
                        ParsedBody { edits: list.edits + others.edits, ..others }
                    } else {
                        arbitrary()
                    },
                }
            } else if name == "Item"@ {
                let child = instance(stream, Place::Opened(me), opened);
                match child.outcome {
                    Err(stop) => ParsedBody {
                        outcome: Err(stop),
                        edits: child.edits,
                        opened: child.opened,
                        properties,
                        rest: child.rest,
                    },
                    Ok(_) => if child.rest.len() < stream.len() {
                        let others = instance_body(child.rest, me, child.opened, properties);
                        ParsedBody { edits: child.edits + others.edits, ..others }
                    } else {
                        arbitrary()
                    },
                }
            } else {
                stopped(Stop::Error(message("Unexpected tag inside instance"@)))
            },
            Ok(EventView::EndElement { name }) => if name == "Item"@ {
                ParsedBody {
                    outcome: Ok(()),
                    edits: Seq::empty(),
                    opened,
                    properties,
                    rest: stream.drop_first(),
                }
            } else {
                stopped(Stop::Error(message("Unexpected closing tag, expected Item"@)))
            },
            _ => stopped(Stop::Unexpected),
        }
    }
}

/// Reading one thing at the top level of a document, which opens with a tag of
/// the given name.
pub open spec fn top_level_item(stream: Stream, name: Seq<char>, opened: nat) -> Parsed {
    if name == "Item"@ {
        instance(stream, Place::Given, opened)
    } else if name == "External"@ {
        let (skipped, rest) = skip_tag(stream, 0);
        Parsed {
            outcome: match skipped {
                Ok(_) => Ok(()),
                Err(error) => Err(Stop::Error(error)),
            },
            edits: Seq::empty(),
            opened,
            rest,
        }
    } else if name == "Meta"@ {
        let (described, rest) = metadata(stream);
        match described {
            Err(error) => Parsed {
                outcome: Err(Stop::Error(error)),
                edits: Seq::empty(),
                opened,
                rest,
            },
            Ok((name, value)) => Parsed {
                outcome: Ok(()),
                edits: seq![Edit::Describe { name, value }],
                opened,
                rest,
            },
        }
    } else {
        Parsed {
            outcome: Err(Stop::Error(message("Unexpected top-level start tag"@))),
            edits: Seq::empty(),
            opened,
            rest: stream,
        }
    }
}

/// Reading the top level of a document up to its end.
pub open spec fn top_level(stream: Stream, opened: nat) -> Parsed
    decreases stream.len(),
{
    let ended = |outcome: Result<(), Stop>|
        Parsed { outcome, edits: Seq::empty(), opened, rest: stream };
    if stream.len() == 0 {
        ended(Err(Stop::Error(ErrorView::MalformedDocument)))
    } else {
        match stream[0] {
            Ok(EventView::StartElement { name, .. }) => {
                let item = top_level_item(stream, name, opened);
                match item.outcome {
                    Err(_) => item,
                    Ok(_) => if item.rest.len() < stream.len() {
                        let others = top_level(item.rest, item.opened);
                        Parsed { edits: item.edits + others.edits, ..others }
                    } else {
                        arbitrary()
                    },
                }
            },
            Ok(EventView::EndElement { name }) => if name == "roblox"@ {
                ended(Ok(()))
            } else {
                ended(Err(Stop::Error(message("Unexpected closing tag"@))))
            },
            Ok(EventView::EndDocument) => ended(Ok(())),
            Ok(_) => ended(Err(Stop::Error(message("Unexpected top-level stuff"@)))),
            Err(fault) => Parsed {
                rest: stream.drop_first(),
                ..ended(Err(Stop::Error(ErrorView::XmlError(fault))))
            },
        }
    }
}

/// Reading a document.
pub open spec fn document(stream: Stream) -> Parsed {
    let refused = |error: ErrorView, rest: Stream|
        Parsed { outcome: Err(Stop::Error(error)), edits: Seq::empty(), opened: 0, rest };
    let (start, behind) = next_event(stream);
    match start {
        Err(error) => refused(error, behind),
        Ok(EventView::StartDocument) => {
            let (outermost, inside) = next_event(behind);
            match outermost {
                Err(error) => refused(error, inside),
                Ok(EventView::StartElement { name, attributes }) => if name != "roblox"@ {
                    refused(message("Missing <roblox>"@), inside)
                } else {
                    match version_fault(attributes) {
                        Some(error) => refused(error, inside),
                        None => top_level(inside, 0),
                    }
                },
                Ok(_) => refused(ErrorView::MalformedDocument, inside),
            }
        },
        Ok(_) => refused(ErrorView::MalformedDocument, behind),
    }
}

/// Every document is read to an end, unless something else than tags stands
/// inside an instance.
pub open spec fn is_decodable(stream: Stream) -> bool {
    document(stream).outcome != Err::<(), Stop>(Stop::Unexpected)
}

/// Reading a property uses events up.
pub proof fn lemma_property_progress(stream: Stream, xml_type: Seq<char>)
    ensures
        property(stream, xml_type).value is Ok ==> property(stream, xml_type).rest.len()
            < stream.len(),
{
    lemma_tag_contents_progress(stream, "Ref"@);
    lemma_property_value_progress(stream, xml_type);
}

/// Reading a list of properties uses events up.
pub proof fn lemma_property_list_progress(
    stream: Stream,
    instance: nat,
    properties: PropertiesView,
)
    ensures
        property_list(stream, instance, properties).outcome is Ok ==> property_list(
            stream,
            instance,
            properties,
        ).rest.len() < stream.len(),
    decreases stream.len(),
{
    if stream.len() > 0 {
        if let Ok(EventView::StartElement { name: xml_type, attributes }) = stream[0] {
            lemma_property_progress(stream, xml_type);
            let read = property(stream, xml_type);
            if let Some(xml_name) = first_attribute(attributes, "name"@) {
                if let Ok(value) = read.value {
                    lemma_property_list_progress(
                        read.rest,
                        instance,
                        properties.insert(canonical(xml_name), value),
                    );
                }
            }
        }
    }
}

/// Reading an instance uses events up.
pub proof fn lemma_instance_progress(stream: Stream, parent: Place, opened: nat)
    requires
        opens(stream, "Item"@),
    ensures
        instance(stream, parent, opened).outcome is Ok ==> instance(
            stream,
            parent,
            opened,
        ).rest.len() < stream.len(),
    decreases stream.len(), 0nat,
{
    lemma_instance_body_progress(stream.drop_first(), opened, opened + 1, Map::empty());
}

/// Reading the inside of an instance uses events up.
pub proof fn lemma_instance_body_progress(
    stream: Stream,
    me: nat,
    opened: nat,
    properties: PropertiesView,
)
    ensures
        instance_body(stream, me, opened, properties).outcome is Ok ==> instance_body(
            stream,
            me,
            opened,
            properties,
        ).rest.len() < stream.len(),
    decreases stream.len(), 1nat,
{
    if stream.len() > 0 {
        if opens(stream, "Properties"@) {
            let inside = stream.drop_first();
            lemma_property_list_progress(inside, me, properties);
            let list = property_list(inside, me, properties);
            if list.outcome is Ok {
                lemma_instance_body_progress(list.rest, me, opened, list.properties);
            }
        } else if opens(stream, "Item"@) {
            lemma_instance_progress(stream, Place::Opened(me), opened);
            let child = instance(stream, Place::Opened(me), opened);
            if child.outcome is Ok {
                lemma_instance_body_progress(child.rest, me, child.opened, properties);
            }
        }
    }
}

/// Reading anything at the top level uses events up.
pub proof fn lemma_top_level_item_progress(stream: Stream, name: Seq<char>, opened: nat)
    requires
        opens(stream, name),
    ensures
        top_level_item(stream, name, opened).outcome is Ok ==> top_level_item(
            stream,
            name,
            opened,
        ).rest.len() < stream.len(),
{
    if name == "Item"@ {
        lemma_instance_progress(stream, Place::Given, opened);
    }
    lemma_skip_tag_progress(stream, 0);
}


/// An instance that has a class is opened, and no other one is.
pub proof fn lemma_instance_opened(stream: Stream, parent: Place, opened: nat)
    requires
        opens(stream, "Item"@),
    ensures
        last_attribute(stream[0]->Ok_0->StartElement_attributes, "class"@) is Some ==> instance(
            stream,
            parent,
            opened,
        ).opened > opened,
        last_attribute(stream[0]->Ok_0->StartElement_attributes, "class"@) is None ==> instance(
            stream,
            parent,
            opened,
        ).opened == opened,
    decreases stream.len(), 0nat,
{
    lemma_instance_body_opened(stream.drop_first(), opened, opened + 1, Map::empty());
}

/// Reading the inside of an instance closes nothing that is open.
pub proof fn lemma_instance_body_opened(
    stream: Stream,
    me: nat,
    opened: nat,
    properties: PropertiesView,
)
    ensures
        instance_body(stream, me, opened, properties).opened >= opened,
    decreases stream.len(), 1nat,
{
    if stream.len() > 0 {
        if opens(stream, "Properties"@) {
            let inside = stream.drop_first();
            lemma_property_list_progress(inside, me, properties);
            let list = property_list(inside, me, properties);
            if list.outcome is Ok {
                lemma_instance_body_opened(list.rest, me, opened, list.properties);
            }
        } else if opens(stream, "Item"@) {
            lemma_instance_progress(stream, Place::Opened(me), opened);
            lemma_instance_opened(stream, Place::Opened(me), opened);
            let child = instance(stream, Place::Opened(me), opened);
            if child.outcome is Ok {
                lemma_instance_body_opened(child.rest, me, child.opened, properties);
            }
        }
    }
}

/// Reading the top level of a document closes nothing that is open.
pub proof fn lemma_top_level_opened(stream: Stream, opened: nat)
    ensures
        top_level(stream, opened).opened >= opened,
        stream.len() > 0 && stream[0] is Ok && stream[0]->Ok_0 is StartElement ==> top_level(
            stream,
            opened,
        ).opened >= top_level_item(
            stream,
            stream[0]->Ok_0->StartElement_name,
            opened,
        ).opened >= opened,
    decreases stream.len(),
{
    if stream.len() > 0 && stream[0] is Ok && stream[0]->Ok_0 is StartElement {
        let name = stream[0]->Ok_0->StartElement_name;
        let item = top_level_item(stream, name, opened);
        if name == "Item"@ {
            lemma_instance_opened(stream, Place::Given, opened);
        }
        lemma_top_level_item_progress(stream, name, opened);
        if item.outcome is Ok {
            lemma_top_level_opened(item.rest, item.opened);
        }
    }
}

}
