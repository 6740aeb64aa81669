//! Decoding documents into trees.

use vstd::prelude::*;
use vstd::string::StringSliceAdditionalSpecFns;

use crate::document::{
    document, first_attribute, instance, instance_body, is_decodable, last_attribute,
    lemma_instance_opened, lemma_instance_progress, lemma_property_list_progress,
    lemma_property_progress, lemma_top_level_item_progress, lemma_top_level_opened, links, metadata,
    opens, property, property_list, top_level, top_level_item, version_fault, Edit, Parsed,
    ParsedBody, ParsedProperties, Place, Stop,
};
use crate::dom::{
    has_instance, is_tree, lemma_tree_len, Properties, PropertiesView, RbxId, RbxInstanceProperties,
    RbxTree, RbxValue, TreeView,
};
use crate::error::{DecodeError, ErrorView};
use crate::event::{attributes_view, xml_events, Attribute, EventView, Stream, XmlReadEvent};
use crate::laws::trees::law_decoding_only_adds;
use crate::reader::{significant, unit_view, XmlEventReader};
use crate::reflection::canonical_name;
use crate::state::{
    apply_edits, apply_id_rewrites, fresh_state, instance_id, is_state, lemma_apply_edits_concat,
    lemma_apply_one, place_id, resolved, Base, ParseState, StateView,
};
use crate::text::text_eq;
use crate::types::{read_value_xml, value_view};

verus! {

/// Why decoding stops short.
enum Halt {
    /// The document is refused with an error.
    Error(DecodeError),
    /// An instance holds something else than tags.
    Unexpected,
}

/// The outcome of reading a part of a document.
spec fn halt_view(result: Result<(), Halt>) -> Result<(), Stop> {
    match result {
        Ok(_) => Ok(()),
        Err(Halt::Error(error)) => Err(Stop::Error(error@)),
        Err(Halt::Unexpected) => Err(Stop::Unexpected),
    }
}

/// The value of the first attribute with the given name.
fn find_attribute(attributes: &Vec<Attribute>, name: &str) -> (value: Option<String>)
    ensures
        match value {
            Some(value) => first_attribute(attributes_view(attributes@), name@) == Some(value@),
            None => first_attribute(attributes_view(attributes@), name@) is None,
        },
{
    let ghost all = attributes_view(attributes@);
    let mut i: usize = 0;
    assert(all.skip(0) =~= all);
    while i < attributes.len()
        invariant
            i <= attributes@.len(),
            all == attributes_view(attributes@),
            first_attribute(all, name@) == first_attribute(all.skip(i as int), name@),
        decreases attributes@.len() - i,
    {
        assert(all.skip(i as int)[0] == all[i as int]);
        assert(all.skip(i as int).drop_first() =~= all.skip(i + 1));
        if text_eq(attributes[i].0.as_str(), name) {
            return Some(attributes[i].1.clone());
        }
        i += 1;
    }
    None
}

/// The value of the last attribute with the given name.
fn find_last_attribute(attributes: &Vec<Attribute>, name: &str) -> (value: Option<String>)
    ensures
        match value {
            Some(value) => last_attribute(attributes_view(attributes@), name@) == Some(value@),
            None => last_attribute(attributes_view(attributes@), name@) is None,
        },
{
    let ghost all = attributes_view(attributes@);
    let mut value: Option<String> = None;
    let mut i: usize = 0;
    while i < attributes.len()
        invariant
            i <= attributes@.len(),
            all == attributes_view(attributes@),
            match value {
                Some(value) => last_attribute(all.take(i as int), name@) == Some(value@),
                None => last_attribute(all.take(i as int), name@) is None,
            },
        decreases attributes@.len() - i,
    {
        assert(all.take(i + 1).last() == all[i as int]);
        assert(all.take(i + 1).drop_last() =~= all.take(i as int));
        if text_eq(attributes[i].0.as_str(), name) {
            value = Some(attributes[i].1.clone());
        }
        i += 1;
    }
    assert(all.take(all.len() as int) =~= all);
    value
}

/// What the attributes of the outermost tag are refused for.
fn check_version(attributes: &Vec<Attribute>) -> (fault: Option<DecodeError>)
    ensures
        match fault {
            Some(error) => version_fault(attributes_view(attributes@)) == Some(error@),
            None => version_fault(attributes_view(attributes@)) is None,
        },
{
    let ghost all = attributes_view(attributes@);
    let mut found_version = false;
    let mut i: usize = 0;
    while i < attributes.len()
        invariant
            i <= attributes@.len(),
            all == attributes_view(attributes@),
            found_version == (exists|k: int|
                0 <= k < i && (#[trigger] all[k]).name == "version"@),
            forall|k: int|
                0 <= k < i && (#[trigger] all[k]).name == "version"@ ==> all[k].value == "4"@,
        decreases attributes@.len() - i,
    {
        assert(all[i as int].name == attributes@[i as int].0@);
        if text_eq(attributes[i].0.as_str(), "version") {
            found_version = true;
            if !text_eq(attributes[i].1.as_str(), "4") {
                return Some(DecodeError::Message("Not version 4"));
            }
        }
        i += 1;
    }
    if found_version {
        None
    } else {
        Some(DecodeError::Message("No version field"))
    }
}

/// Reads a piece of metadata, whose opening tag is the next event.
fn deserialize_metadata(reader: &mut XmlEventReader, state: &mut ParseState) -> (result: Result<
    (),
    DecodeError,
>)
    requires
        opens(old(reader)@, "Meta"@),
    ensures
        ({
            let (described, rest) = metadata(old(reader)@);
            &&& final(reader)@ == rest
            &&& match described {
                Ok((name, value)) => {
                    &&& result is Ok
                    &&& final(state)@ == (StateView {
                        metadata: old(state)@.metadata.insert(name, value),
                        ..old(state)@
                    })
                },
                Err(error) => {
                    &&& unit_view(result) == Err::<(), ErrorView>(error)
                    &&& final(state)@ == old(state)@
                },
            }
        }),
        *final(final(state).tree) == *final(old(state).tree),
{
    let name = match reader.read_event() {
        Ok(XmlReadEvent::StartElement(_, attributes)) => match find_last_attribute(
            &attributes,
            "name",
        ) {
            Some(name) => name,
            None => {
                return Err(DecodeError::Message("Meta missing 'name' field"));
            },
        },
        Ok(_) => {
            return Err(DecodeError::MalformedDocument);
        },
        Err(error) => {
            return Err(error);
        },
    };
    let value = match reader.read_event() {
        Ok(XmlReadEvent::Characters(value)) => value,
        Ok(_) => {
            return Err(DecodeError::MalformedDocument);
        },
        Err(error) => {
            return Err(error);
        },
    };
    match reader.read_event() {
        Ok(XmlReadEvent::EndElement(name)) => {
            if !text_eq(name.as_str(), "Meta") {
                return Err(DecodeError::Message("Incorrect closing tag, expected 'Meta'"));
            }
        },
        Ok(_) => {
            return Err(DecodeError::MalformedDocument);
        },
        Err(error) => {
            return Err(error);
        },
    }
    state.describe(name, value);
    Ok(())
}

/// Reads a reference, and asks for it to be made unless it is null.
fn read_ref(
    reader: &mut XmlEventReader,
    id: RbxId,
    property_name: &str,
    state: &mut ParseState,
    Ghost(base): Ghost<Base>,
    Ghost(me): Ghost<nat>,
) -> (value: Result<RbxValue, DecodeError>)
    requires
        id == instance_id(base, me),
        has_instance(old(state)@.tree, id),
        is_state(old(state)@),
    ensures
        ({
            let read = property(old(reader)@, "Ref"@);
            &&& final(reader)@ == read.rest
            &&& value_view(value) == read.value
            &&& final(state)@ == apply_edits(
                base,
                old(state)@,
                links(me, property_name@, read.referent),
            )
        }),
        final(state)@.tree == old(state)@.tree,
        is_state(final(state)@),
        *final(final(state).tree) == *final(old(state).tree),
{
    match reader.read_tag_contents("Ref") {
        Err(error) => Err(error),
        Ok(referent) => {
            if !text_eq(referent.as_str(), "null") {
                proof {
                    lemma_apply_one(
                        base,
                        state@,
                        Edit::Link { instance: me, property: property_name@, referent: referent@ },
                    );
                }
                state.add_id_rewrite(id, property_name.to_owned(), referent);
            }
            Ok(RbxValue::Ref { value: None })
        },
    }
}

/// Looks at the next property of a list, and hands back its type and the name
/// that the document calls it by, or nothing at the end of the list, which is
/// consumed.
fn next_property(reader: &mut XmlEventReader) -> (head: Result<
    Option<(String, String)>,
    DecodeError,
>)
    ensures
        match head {
            Ok(Some((xml_type, xml_name))) => {
                &&& opens(old(reader)@, xml_type@)
                &&& first_attribute(
                    old(reader)@[0]->Ok_0->StartElement_attributes,
                    "name"@,
                ) == Some(xml_name@)
                &&& final(reader)@ == old(reader)@
            },
            Ok(None) => {
                &&& old(reader)@.len() > 0
                &&& old(reader)@[0] == Ok::<EventView, Seq<char>>(
                    EventView::EndElement { name: "Properties"@ },
                )
                &&& final(reader)@ == old(reader)@.drop_first()
            },
            Err(error) => {
                &&& final(reader)@ == old(reader)@
                &&& forall|me: nat, properties: PropertiesView|
                    #![trigger property_list(old(reader)@, me, properties)]
                    property_list(old(reader)@, me, properties) == (ParsedProperties {
                        outcome: Err(error@),
                        edits: Seq::empty(),
                        properties,
                        rest: old(reader)@,
                    })
            },
        },
{
    match reader.peek() {
        None => {
            return Err(DecodeError::Message("Unexpected EOF"));
        },
        Some(Ok(XmlReadEvent::StartElement(name, attributes))) => {
            return match find_attribute(attributes, "name") {
                Some(xml_name) => Ok(Some((name.clone(), xml_name))),
                None => Err(DecodeError::Message("Missing 'name' for property tag")),
            };
        },
        Some(Ok(XmlReadEvent::EndElement(name))) => {
            if !text_eq(name.as_str(), "Properties") {
                return Err(DecodeError::Message("Unexpected end element, expected Properties"));
            }
        },
        _ => {
            return Err(DecodeError::Message("Unexpected thing in Properties section"));
        },
    }
    let _ = reader.next();
    Ok(None)
}

/// Reads a property of the given type. A reference needs state that no other
/// property does.
fn read_property(
    reader: &mut XmlEventReader,
    id: RbxId,
    xml_type: &str,
    name: &str,
    state: &mut ParseState,
    Ghost(base): Ghost<Base>,
    Ghost(me): Ghost<nat>,
) -> (value: Result<RbxValue, DecodeError>)
    requires
        id == instance_id(base, me),
        has_instance(old(state)@.tree, id),
        is_state(old(state)@),
    ensures
        ({
            let read = property(old(reader)@, xml_type@);
            &&& final(reader)@ == read.rest
            &&& value_view(value) == read.value
            &&& final(state)@ == apply_edits(base, old(state)@, links(me, name@, read.referent))
        }),
        final(state)@.tree == old(state)@.tree,
        is_state(final(state)@),
        *final(final(state).tree) == *final(old(state).tree),
{
    if text_eq(xml_type, "Ref") {
        read_ref(reader, id, name, state, Ghost(base), Ghost(me))
    } else {
        read_value_xml(reader, xml_type)
    }
}

/// Reads the properties of an instance, whose opening tag is the next event.
fn deserialize_properties(
    reader: &mut XmlEventReader,
    state: &mut ParseState,
    id: RbxId,
    props: &mut Properties,
    Ghost(base): Ghost<Base>,
    Ghost(me): Ghost<nat>,
) -> (result: Result<(), DecodeError>)
    requires
        opens(old(reader)@, "Properties"@),
        id == instance_id(base, me),
        has_instance(old(state)@.tree, id),
        is_state(old(state)@),
    ensures
        ({
            let list = property_list(old(reader)@.drop_first(), me, old(props)@);
            &&& unit_view(result) == list.outcome
            &&& final(reader)@ == list.rest
            &&& final(props)@ == list.properties
            &&& final(state)@ == apply_edits(base, old(state)@, list.edits)
        }),
        final(state)@.tree == old(state)@.tree,
        is_state(final(state)@),
        *final(final(state).tree) == *final(old(state).tree),
{
    match reader.read_event() {
        Ok(_) => {},
        Err(error) => {
            return Err(error);
        },
    }
    let ghost whole = property_list(reader@, me, props@);
    let ghost before = state@;
    let ghost mut done: Seq<Edit> = Seq::empty();
    assert(done + whole.edits =~= whole.edits);
    loop
        invariant
            before == old(state)@,
            id == instance_id(base, me),
            has_instance(state@.tree, id),
            is_state(state@),
            state@.tree == before.tree,
            ({
                let list = property_list(reader@, me, props@);
                &&& whole.outcome == list.outcome
                &&& whole.rest == list.rest
                &&& whole.properties == list.properties
                &&& whole.edits == done + list.edits
            }),
            whole == property_list(old(reader)@.drop_first(), me, old(props)@),
            state@ == apply_edits(base, before, done),
            *final(state.tree) == *final(old(state).tree),
        decreases reader@.len(),
    {
        let ghost stream = reader@;
        let ghost list = property_list(stream, me, props@);
        assert(done + Seq::<Edit>::empty() =~= done);
        match next_property(reader) {
            Err(error) => {
                return Err(error);
            },
            Ok(None) => {
                return Ok(());
            },
            Ok(Some((xml_type, xml_name))) => {
                let name = canonical_name(xml_name);
                let ghost read = property(stream, xml_type@);
                let ghost link = links(me, name@, read.referent);
                proof {
                    lemma_property_progress(stream, xml_type@);
                    lemma_apply_edits_concat(base, before, done, link);
                }
                match read_property(
                    reader,
                    id,
                    xml_type.as_str(),
                    name.as_str(),
                    state,
                    Ghost(base),
                    Ghost(me),
                ) {
                    Err(error) => {
                        assert(link == Seq::<Edit>::empty());
                        return Err(error);
                    },
                    Ok(value) => {
                        proof {
                            let others = property_list(read.rest, me, props@.insert(name@, value@));
                            assert(list.edits == link + others.edits);
                            assert(done + (link + others.edits) =~= (done + link) + others.edits);
                            done = done + link;
                        }
                        props.insert(name, value);
                    },
                }
            },
        }
    }
}

/// What comes next inside an instance.
enum Part {
    Properties,
    Item,
    End,
}

/// Looks at what comes next inside an instance; its end is consumed.
fn next_part(reader: &mut XmlEventReader) -> (part: Result<Part, Halt>)
    ensures
        match part {
            Ok(Part::Properties) => {
                &&& opens(old(reader)@, "Properties"@)
                &&& final(reader)@ == old(reader)@
            },
            Ok(Part::Item) => {
                &&& opens(old(reader)@, "Item"@)
                &&& !opens(old(reader)@, "Properties"@)
                &&& final(reader)@ == old(reader)@
            },
            Ok(Part::End) => {
                &&& old(reader)@.len() > 0
                &&& old(reader)@[0] == Ok::<EventView, Seq<char>>(
                    EventView::EndElement { name: "Item"@ },
                )
                &&& final(reader)@ == old(reader)@.drop_first()
            },
            Err(halt) => {
                &&& final(reader)@ == old(reader)@
                &&& forall|me: nat, opened: nat, properties: PropertiesView|
                    #![trigger instance_body(old(reader)@, me, opened, properties)]
                    instance_body(old(reader)@, me, opened, properties) == (ParsedBody {
                        outcome: halt_view(Err(halt)),
                        edits: Seq::empty(),
                        opened,
                        properties,
                        rest: old(reader)@,
                    })
            },
        },
{
    match reader.peek() {
        None => {
            return Err(Halt::Error(DecodeError::Message("Unexpected EOF")));
        },
        Some(Ok(XmlReadEvent::StartElement(name, _))) => {
            return if text_eq(name.as_str(), "Properties") {
                Ok(Part::Properties)
            } else if text_eq(name.as_str(), "Item") {
                Ok(Part::Item)
            } else {
                Err(Halt::Error(DecodeError::Message("Unexpected tag inside instance")))
            };
        },
        Some(Ok(XmlReadEvent::EndElement(name))) => {
            if !text_eq(name.as_str(), "Item") {
                return Err(
                    Halt::Error(DecodeError::Message("Unexpected closing tag, expected Item")),
                );
            }
        },
        _ => {
            return Err(Halt::Unexpected);
        },
    }
    let _ = reader.next();
    Ok(Part::End)
}

/// Reads an instance, whose opening tag is the next event, and puts it under
/// the given one.
fn deserialize_instance(
    reader: &mut XmlEventReader,
    state: &mut ParseState,
    parent_id: RbxId,
    Ghost(base): Ghost<Base>,
    Ghost(parent): Ghost<Place>,
    Ghost(opened): Ghost<nat>,
) -> (result: Result<(), Halt>)
    requires
        opens(old(reader)@, "Item"@),
        parent_id == place_id(base, parent),
        last_attribute(old(reader)@[0]->Ok_0->StartElement_attributes, "class"@) is Some
            ==> has_instance(old(state)@.tree, parent_id),
        old(state)@.tree.len() == base.first + opened,
        is_state(old(state)@),
    ensures
        ({
            let read = instance(old(reader)@, parent, opened);
            &&& halt_view(result) == read.outcome
            &&& final(reader)@ == read.rest
            &&& final(state)@ == apply_edits(base, old(state)@, read.edits)
            &&& final(state)@.tree.len() == base.first + read.opened
        }),
        final(state)@.tree.len() >= old(state)@.tree.len(),
        is_state(final(state)@),
        *final(final(state).tree) == *final(old(state).tree),
    decreases old(reader)@.len(), 0nat,
{
    let ghost stream = reader@;
    let ghost before = state@;
    let attributes = match reader.read_event() {
        Ok(XmlReadEvent::StartElement(_, attributes)) => attributes,
        _ => {
            return Err(Halt::Error(DecodeError::MalformedDocument));
        },
    };
    assert(attributes_view(attributes@) == stream[0]->Ok_0->StartElement_attributes);
    let class_name = match find_last_attribute(&attributes, "class") {
        Some(class_name) => class_name,
        None => {
            return Err(Halt::Error(DecodeError::Message("Missing 'class'")));
        },
    };
    let referent = find_last_attribute(&attributes, "referent");
    let ghost open = Edit::Open {
        parent,
        referent: last_attribute(attributes_view(attributes@), "referent"@),
    };
    let id = state.open_instance(parent_id, referent);
    proof {
        lemma_apply_one(base, before, open);
        assert(state@ == apply_edits(base, before, seq![open]));
    }
    let mut properties = Properties::new();
    let ghost body = instance_body(reader@, opened, opened + 1, properties@);
    let outcome = deserialize_body(
        reader,
        state,
        id,
        &mut properties,
        Ghost(base),
        Ghost(opened),
        Ghost(opened + 1),
    );
    proof {
        lemma_apply_edits_concat(base, before, seq![open], body.edits);
    }
    match outcome {
        Err(halt) => {
            return Err(halt);
        },
        Ok(_) => {},
    }
    let name = match properties.remove("Name") {
        Some(RbxValue::String { value }) => value,
        Some(_) => {
            return Err(Halt::Error(DecodeError::Message("Name must be a string")));
        },
        None => class_name.clone(),
    };
    proof {
        let edits = seq![open] + body.edits;
        let fill = Edit::Fill {
            instance: opened,
            name: name@,
            class_name: class_name@,
            properties: properties@,
        };
        assert(edits.push(fill).drop_last() =~= edits);
    }
    let ghost unfilled = state@;
    state.tree.set_contents(id, name, class_name, properties);
    assert(state@.tree.len() == unfilled.tree.len());
    assert(state@.rewrites == unfilled.rewrites);
    assert(state@.referents == unfilled.referents);
    Ok(())
}

/// Reads the inside of an instance up to the tag that closes it, which is
/// consumed.
#[verifier::spinoff_prover]
#[verifier::rlimit(40)]
fn deserialize_body(
    reader: &mut XmlEventReader,
    state: &mut ParseState,
    id: RbxId,
    properties: &mut Properties,
    Ghost(base): Ghost<Base>,
    Ghost(me): Ghost<nat>,
    Ghost(opened): Ghost<nat>,
) -> (result: Result<(), Halt>)
    requires
        id == instance_id(base, me),
        has_instance(old(state)@.tree, id),
        old(state)@.tree.len() == base.first + opened,
        is_state(old(state)@),
    ensures
        ({
            let read = instance_body(old(reader)@, me, opened, old(properties)@);
            &&& halt_view(result) == read.outcome
            &&& final(reader)@ == read.rest
            &&& final(properties)@ == read.properties
            &&& final(state)@ == apply_edits(base, old(state)@, read.edits)
            &&& final(state)@.tree.len() == base.first + read.opened
        }),
        final(state)@.tree.len() >= old(state)@.tree.len(),
        is_state(final(state)@),
        *final(final(state).tree) == *final(old(state).tree),
    decreases old(reader)@.len(), 1nat,
{
    let ghost before = state@;
    let ghost whole = instance_body(reader@, me, opened, properties@);
    let ghost mut done: Seq<Edit> = Seq::empty();
    let ghost mut count: nat = opened;
    assert(done + whole.edits =~= whole.edits);
    loop
        invariant
            before == old(state)@,
            id == instance_id(base, me),
            has_instance(state@.tree, id),
            state@.tree.len() == base.first + count,
            state@.tree.len() >= before.tree.len(),
            is_state(state@),
            whole == instance_body(old(reader)@, me, opened, old(properties)@),
            ({
                let read = instance_body(reader@, me, count, properties@);
                &&& whole.outcome == read.outcome
                &&& whole.rest == read.rest
                &&& whole.opened == read.opened
                &&& whole.properties == read.properties
                &&& whole.edits == done + read.edits
            }),
            state@ == apply_edits(base, before, done),
            reader@.len() <= old(reader)@.len(),
            *final(state.tree) == *final(old(state).tree),
        decreases reader@.len(),
    {
        let ghost stream = reader@;
        let ghost read = instance_body(stream, me, count, properties@);
        assert(done + Seq::<Edit>::empty() =~= done);
        match next_part(reader) {
            Err(halt) => {
                return Err(halt);
            },
            Ok(Part::End) => {
                return Ok(());
            },
            Ok(Part::Properties) => {
                let ghost list = property_list(stream.drop_first(), me, properties@);
                proof {
                    lemma_property_list_progress(stream.drop_first(), me, properties@);
                    lemma_apply_edits_concat(base, before, done, list.edits);
                }
                match deserialize_properties(reader, state, id, properties, Ghost(base), Ghost(me)) {
                    Err(error) => {
                        return Err(Halt::Error(error));
                    },
                    Ok(_) => {
                        proof {
                            let others = instance_body(reader@, me, count, properties@);
                            assert(read.edits == list.edits + others.edits);
                            assert(done + (list.edits + others.edits) =~= (done + list.edits)
                                + others.edits);
                            done = done + list.edits;
                        }
                    },
                }
            },
            Ok(Part::Item) => {
                let ghost child = instance(stream, Place::Opened(me), count);
                proof {
                    lemma_instance_progress(stream, Place::Opened(me), count);
                    lemma_apply_edits_concat(base, before, done, child.edits);
                }
                match deserialize_instance(
                    reader,
                    state,
                    id,
                    Ghost(base),
                    Ghost(Place::Opened(me)),
                    Ghost(count),
                ) {
                    Err(halt) => {
                        return Err(halt);
                    },
                    Ok(_) => {
                        proof {
                            let others = instance_body(reader@, me, child.opened, properties@);
                            assert(read.edits == child.edits + others.edits);
                            assert(done + (child.edits + others.edits) =~= (done + child.edits)
                                + others.edits);
                            done = done + child.edits;
                            count = child.opened;
                        }
                    },
                }
            },
        }
    }
}

/// Reads the start of a document and its outermost tag. What is behind the tag
/// is left to read.
fn read_prolog(reader: &mut XmlEventReader) -> (result: Result<(), DecodeError>)
    ensures
        match result {
            Ok(_) => document(old(reader)@) == top_level(final(reader)@, 0),
            Err(error) => document(old(reader)@) == (Parsed {
                outcome: Err(Stop::Error(error@)),
                edits: Seq::empty(),
                opened: 0,
                rest: final(reader)@,
            }),
        },
{
    match reader.read_event() {
        Ok(XmlReadEvent::StartDocument) => {},
        Ok(_) => {
            return Err(DecodeError::MalformedDocument);
        },
        Err(error) => {
            return Err(error);
        },
    }
    match reader.read_event() {
        Ok(XmlReadEvent::StartElement(name, attributes)) => {
            if !text_eq(name.as_str(), "roblox") {
                return Err(DecodeError::Message("Missing <roblox>"));
            }
            match check_version(&attributes) {
                Some(error) => Err(error),
                None => Ok(()),
            }
        },
        Ok(_) => Err(DecodeError::MalformedDocument),
        Err(error) => Err(error),
    }
}

/// What comes next at the top level of a document.
enum TopLevel {
    Item,
    External,
    Meta,
    End,
}

/// Looks at what comes next at the top level of a document; a fault is
/// consumed.
fn next_top_level(reader: &mut XmlEventReader) -> (next: Result<TopLevel, DecodeError>)
    ensures
        match next {
            Ok(TopLevel::Item) => opens(old(reader)@, "Item"@) && final(reader)@ == old(reader)@,
            Ok(TopLevel::External) => {
                &&& opens(old(reader)@, "External"@)
                &&& !opens(old(reader)@, "Item"@)
                &&& final(reader)@ == old(reader)@
            },
            Ok(TopLevel::Meta) => {
                &&& opens(old(reader)@, "Meta"@)
                &&& !opens(old(reader)@, "Item"@)
                &&& !opens(old(reader)@, "External"@)
                &&& final(reader)@ == old(reader)@
            },
            Ok(TopLevel::End) => {
                &&& final(reader)@ == old(reader)@
                &&& forall|opened: nat|
                    #![trigger top_level(old(reader)@, opened)]
                    top_level(old(reader)@, opened) == (Parsed {
                        outcome: Ok(()),
                        edits: Seq::empty(),
                        opened,
                        rest: final(reader)@,
                    })
            },
            Err(error) => forall|opened: nat|
                #![trigger top_level(old(reader)@, opened)]
                top_level(old(reader)@, opened) == (Parsed {
                    outcome: Err(Stop::Error(error@)),
                    edits: Seq::empty(),
                    opened,
                    rest: final(reader)@,
                }),
        },
{
    match reader.peek() {
        None => {
            return Err(DecodeError::MalformedDocument);
        },
        Some(Ok(XmlReadEvent::StartElement(name, _))) => {
            return if text_eq(name.as_str(), "Item") {
                Ok(TopLevel::Item)
            } else if text_eq(name.as_str(), "External") {
                Ok(TopLevel::External)
            } else if text_eq(name.as_str(), "Meta") {
                Ok(TopLevel::Meta)
            } else {
                Err(DecodeError::Message("Unexpected top-level start tag"))
            };
        },
        Some(Ok(XmlReadEvent::EndElement(name))) => {
            return if text_eq(name.as_str(), "roblox") {
                Ok(TopLevel::End)
            } else {
                Err(DecodeError::Message("Unexpected closing tag"))
            };
        },
        Some(Ok(XmlReadEvent::EndDocument)) => {
            return Ok(TopLevel::End);
        },
        Some(Ok(_)) => {
            return Err(DecodeError::Message("Unexpected top-level stuff"));
        },
        Some(Err(_)) => {},
    }
    match reader.read_event() {
        Ok(_) => Ok(TopLevel::End),
        Err(error) => Err(error),
    }
}

/// Reads one thing at the top level of a document.
fn deserialize_top_level(
    reader: &mut XmlEventReader,
    state: &mut ParseState,
    parent_id: RbxId,
    next: TopLevel,
    Ghost(base): Ghost<Base>,
    Ghost(name): Ghost<Seq<char>>,
    Ghost(opened): Ghost<nat>,
) -> (result: Result<(), Halt>)
    requires
        opens(old(reader)@, name),
        match next {
            TopLevel::Item => name == "Item"@,
            TopLevel::External => name == "External"@ && name != "Item"@,
            TopLevel::Meta => name == "Meta"@ && name != "Item"@ && name != "External"@,
            TopLevel::End => false,
        },
        parent_id == base.parent,
        top_level_item(old(reader)@, name, opened).opened > opened ==> has_instance(
            old(state)@.tree,
            parent_id,
        ),
        old(state)@.tree.len() == base.first + opened,
        is_state(old(state)@),
    ensures
        ({
            let read = top_level_item(old(reader)@, name, opened);
            &&& halt_view(result) == read.outcome
            &&& final(reader)@ == read.rest
            &&& final(state)@ == apply_edits(base, old(state)@, read.edits)
            &&& final(state)@.tree.len() == base.first + read.opened
        }),
        final(state)@.tree.len() >= old(state)@.tree.len(),
        is_state(final(state)@),
        *final(final(state).tree) == *final(old(state).tree),
{
    match next {
        TopLevel::Item => {
            proof {
                lemma_instance_opened(reader@, Place::Given, opened);
            }
            deserialize_instance(
                reader,
                state,
                parent_id,
                Ghost(base),
                Ghost(Place::Given),
                Ghost(opened),
            )
        },
        // This tag is always meaningless, there's nothing to do here except
        // skip it.
        TopLevel::External => match reader.eat_unknown_tag() {
            Err(error) => Err(Halt::Error(error)),
            Ok(_) => Ok(()),
        },
        _ => {
            let ghost before = state@;
            let ghost described = metadata(reader@).0;
            match deserialize_metadata(reader, state) {
                Err(error) => Err(Halt::Error(error)),
                Ok(_) => {
                    proof {
                        if let Ok((name, value)) = described {
                            lemma_apply_one(base, before, Edit::Describe { name, value });
                        }
                    }
                    Ok(())
                },
            }
        },
    }
}

/// Reads a document and puts its instances under the given one. The references
/// are left to be made.
fn deserialize_root(
    reader: &mut XmlEventReader,
    state: &mut ParseState,
    parent_id: RbxId,
    Ghost(base): Ghost<Base>,
) -> (result: Result<(), Halt>)
    requires
        parent_id == base.parent,
        document(old(reader)@).opened > 0 ==> has_instance(old(state)@.tree, parent_id),
        old(state)@.tree.len() == base.first,
        is_state(old(state)@),
    ensures
        ({
            let read = document(old(reader)@);
            &&& halt_view(result) == read.outcome
            &&& final(reader)@ == read.rest
            &&& final(state)@ == apply_edits(base, old(state)@, read.edits)
            &&& final(state)@.tree.len() == base.first + read.opened
        }),
        is_state(final(state)@),
        *final(final(state).tree) == *final(old(state).tree),
{
    let ghost before = state@;
    match read_prolog(reader) {
        Err(error) => {
            return Err(Halt::Error(error));
        },
        Ok(_) => {},
    }
    let ghost whole = top_level(reader@, 0);
    let ghost mut done: Seq<Edit> = Seq::empty();
    let ghost mut count: nat = 0;
    assert(done + whole.edits =~= whole.edits);
    loop
        invariant
            before == old(state)@,
            parent_id == base.parent,
            whole.opened > 0 ==> has_instance(state@.tree, parent_id),
            state@.tree.len() == base.first + count,
            is_state(state@),
            whole == document(old(reader)@),
            ({
                let read = top_level(reader@, count);
                &&& whole.outcome == read.outcome
                &&& whole.rest == read.rest
                &&& whole.opened == read.opened
                &&& whole.edits == done + read.edits
            }),
            state@ == apply_edits(base, before, done),
            *final(state.tree) == *final(old(state).tree),
        decreases reader@.len(),
    {
        let ghost stream = reader@;
        let ghost read = top_level(stream, count);
        assert(done + Seq::<Edit>::empty() =~= done);
        match next_top_level(reader) {
            Err(error) => {
                return Err(Halt::Error(error));
            },
            Ok(TopLevel::End) => {
                return Ok(());
            },
            Ok(next) => {
                let ghost name = stream[0]->Ok_0->StartElement_name;
                let ghost item = top_level_item(stream, name, count);
                proof {
                    lemma_top_level_item_progress(stream, name, count);
                    lemma_top_level_opened(stream, count);
                    lemma_apply_edits_concat(base, before, done, item.edits);
                }
                match deserialize_top_level(
                    reader,
                    state,
                    parent_id,
                    next,
                    Ghost(base),
                    Ghost(name),
                    Ghost(count),
                ) {
                    Err(halt) => {
                        return Err(halt);
                    },
                    Ok(_) => {
                        proof {
                            let others = top_level(item.rest, item.opened);
                            assert(read.edits == item.edits + others.edits);
                            assert(done + (item.edits + others.edits) =~= (done + item.edits)
                                + others.edits);
                            done = done + item.edits;
                            count = item.opened;
                        }
                    },
                }
            },
        }
    }
}

/// What decoding a document does to a tree, and how it ends: the instances of
/// the document go under `parent`, and its references are made at the end, if
/// it is read to the end.
pub open spec fn decoded(stream: Stream, tree: TreeView, parent: RbxId) -> (
    Result<(), ErrorView>,
    TreeView,
) {
    let read = document(stream);
    let base = Base { parent, first: tree.len() };
    let state = apply_edits(base, fresh_state(tree), read.edits);
    match read.outcome {
        Ok(_) => (Ok(()), resolved(state).tree),
        Err(Stop::Error(error)) => (Err(error), state.tree),
        Err(Stop::Unexpected) => arbitrary(),
    }
}

/// What is left to say of decoding: the instances that the document opened are
/// what the tree gained, and what was a tree stays one.
pub open spec fn grew(stream: Stream, before: TreeView, after: TreeView) -> bool {
    &&& after.len() == before.len() + document(stream).opened <= usize::MAX
    &&& is_tree(before) ==> is_tree(after)
}

/// Decodes the given events into an instance of a tree.
pub fn decode_events(tree: &mut RbxTree, parent_id: RbxId, reader: XmlEventReader) -> (result:
    Result<(), DecodeError>)
    requires
        document(reader@).opened > 0 ==> has_instance(old(tree)@, parent_id),
        is_decodable(reader@),
    ensures
        (unit_view(result), final(tree)@) == decoded(reader@, old(tree)@, parent_id),
        grew(reader@, old(tree)@, final(tree)@),
{
    let ghost stream = reader@;
    let ghost before = tree@;
    let mut reader = reader;
    let ghost base = Base { parent: parent_id, first: tree@.len() };
    let mut state = ParseState::new(tree);
    let result = deserialize_root(&mut reader, &mut state, parent_id, Ghost(base));
    proof {
        lemma_tree_len(*state.tree);
        law_decoding_only_adds(stream, before, parent_id);
    }
    match result {
        Err(Halt::Error(error)) => Err(error),
        Err(Halt::Unexpected) => Err(DecodeError::MalformedDocument),
        Ok(_) => {
            apply_id_rewrites(&mut state);
            Ok(())
        },
    }
}

/// Whether a document opens an instance; nothing where one of its instances
/// holds something else than tags, as far as it is read.
fn survey(reader: XmlEventReader) -> (opens: Option<bool>)
    ensures
        match opens {
            Some(opens) => {
                &&& is_decodable(reader@)
                &&& opens == (document(reader@).opened > 0)
            },
            None => !is_decodable(reader@),
        },
{
    let mut reader = reader;
    let mut tree = RbxTree::new(
        RbxInstanceProperties {
            name: String::new(),
            class_name: String::new(),
            properties: Properties::new(),
        },
    );
    let root_id = tree.get_root_id();
    let ghost base = Base { parent: root_id, first: 1 };
    let mut state = ParseState::new(&mut tree);
    match deserialize_root(&mut reader, &mut state, root_id, Ghost(base)) {
        Err(Halt::Unexpected) => None,
        _ => Some(state.tree.get_instance(RbxId { index: 1 }).is_some()),
    }
}

/// Whether every instance of a document holds nothing but tags, as far as it is
/// read.
pub fn can_decode(reader: XmlEventReader) -> (answer: bool)
    ensures
        answer == is_decodable(reader@),
{
    survey(reader).is_some()
}

/// What decoding bytes comes to: the outcome, and the tree afterwards.
pub open spec fn decodes_to(
    source: Seq<u8>,
    before: TreeView,
    parent: RbxId,
    result: Result<(), DecodeError>,
    after: TreeView,
) -> bool {
    let stream = significant(xml_events(source));
    &&& (unit_view(result), after) == decoded(stream, before, parent)
    &&& grew(stream, before, after)
}

/// Whether decoding bytes has an answer: every instance of the document holds
/// nothing but tags, as far as it is read, and where it opens one there is an
/// instance to put it under.
pub open spec fn has_answer(source: Seq<u8>, tree: TreeView, parent: RbxId) -> bool {
    let stream = significant(xml_events(source));
    &&& is_decodable(stream)
    &&& document(stream).opened > 0 ==> has_instance(tree, parent)
}

/// Decodes source from the given bytes into the instance in the given tree.
///
/// Roblox model files can contain multiple instances at the top level. This
/// happens in the case of places as well as Studio users choosing multiple
/// objects when saving a model file.
pub fn decode(tree: &mut RbxTree, parent_id: RbxId, source: &[u8]) -> (result: Result<
    (),
    DecodeError,
>)
    requires
        has_answer(source@, old(tree)@, parent_id),
    ensures
        decodes_to(source@, old(tree)@, parent_id, result, final(tree)@),
{
    decode_events(tree, parent_id, XmlEventReader::from_source(source))
}

/// A utility method to decode an XML-format model from a string.
pub fn decode_str(tree: &mut RbxTree, parent_id: RbxId, source: &str) -> (result: Result<
    (),
    DecodeError,
>)
    requires
        has_answer(source.spec_bytes(), old(tree)@, parent_id),
    ensures
        decodes_to(source.spec_bytes(), old(tree)@, parent_id, result, final(tree)@),
{
    decode(tree, parent_id, source.as_bytes())
}

/// Decodes source from the given bytes into the instance in the given tree, or
/// answers nothing and leaves the tree alone where an instance of the document
/// holds something else than tags, and where there is no instance to put those
/// of the document under.
pub fn try_decode(tree: &mut RbxTree, parent_id: RbxId, source: &[u8]) -> (outcome: Option<
    Result<(), DecodeError>,
>)
    ensures
        match outcome {
            Some(result) => {
                &&& has_answer(source@, old(tree)@, parent_id)
                &&& decodes_to(source@, old(tree)@, parent_id, result, final(tree)@)
            },
            None => !has_answer(source@, old(tree)@, parent_id) && final(tree)@ == old(tree)@,
        },
{
    match survey(XmlEventReader::from_source(source)) {
        None => None,
        Some(opens) => if opens && tree.get_instance(parent_id).is_none() {
            None
        } else {
            Some(decode(tree, parent_id, source))
        },
    }
}

/// Decodes a string as [`try_decode`] does bytes.
pub fn try_decode_str(tree: &mut RbxTree, parent_id: RbxId, source: &str) -> (outcome: Option<
    Result<(), DecodeError>,
>)
    ensures
        match outcome {
            Some(result) => {
                &&& has_answer(source.spec_bytes(), old(tree)@, parent_id)
                &&& decodes_to(source.spec_bytes(), old(tree)@, parent_id, result, final(tree)@)
            },
            None => {
                &&& !has_answer(source.spec_bytes(), old(tree)@, parent_id)
                &&& final(tree)@ == old(tree)@
            },
        },
{
    try_decode(tree, parent_id, source.as_bytes())
}

}
