//! How properties are written down, and that they read back.

use vstd::prelude::*;

use crate::document::{first_attribute, last_attribute, property, ParsedProperty};
use crate::dom::{RbxId, ScalarView, ValueView};
use crate::error::ErrorView;
use crate::event::{AttributeView, EventView, ItemView, Stream};
use crate::laws::numbers::{
    is_written_float, law_colors_unpack, law_floats_are_numbers_or_words, law_numerals_read_back,
    numeral,
};
use crate::laws::reading::{end, lemma_run, start};
use crate::reader::{character_data, characters, closing_tag, opening_tag, run_text, tag_contents};
use crate::reflection::canonical;
use crate::types::{
    cframe_tags, color3, color3_tags, color_bytes, property_value, scalar, scalars, scalars_in,
    u32_value, vector2_tags, vector3_tags,
};

verus! {

/// What a property of a model holds: a value by itself, or a reference to
/// nothing, or one to the instance that a referent stands for.
pub enum Held {
    Value(ValueView),
    Null,
    Reference(Seq<char>),
}

/// A piece of a text: plain, or marked as character data.
pub enum Piece {
    Plain(Seq<char>),
    Marked(Seq<char>),
}

/// A number of a model, in a tag of its own: the attributes of the tag, and the
/// pieces that the number is written in.
pub struct ScalarModel {
    pub attributes: Seq<AttributeView>,
    pub pieces: Seq<Piece>,
}

/// A property of a model, by the name that documents call it, and how it is
/// written: the attributes of its tag, and the pieces of its text or else the
/// numbers that it is made of.
pub struct PropertyModel {
    pub name: Seq<char>,
    pub held: Held,
    pub attributes: Seq<AttributeView>,
    pub pieces: Seq<Piece>,
    pub parts: Seq<ScalarModel>,
}

/// An instance as it is meant, without a place in a tree, and the attributes
/// that its tag is written with.
pub struct InstanceModel {
    pub class_name: Seq<char>,
    pub referent: Option<Seq<char>>,
    pub attributes: Seq<AttributeView>,
    pub body: Seq<BodyModel>,
}

/// What stands inside an instance: a list of properties, or another instance.
#[allow(inconsistent_fields)]
pub enum BodyModel {
    Properties { attributes: Seq<AttributeView>, properties: Seq<PropertyModel> },
    Item(InstanceModel),
}

/// The first attribute with the name has the value.
pub open spec fn first_says(
    attributes: Seq<AttributeView>,
    name: Seq<char>,
    value: Seq<char>,
) -> bool {
    exists|i: int|
        {
            &&& 0 <= i < attributes.len()
            &&& (#[trigger] attributes[i]).name == name
            &&& attributes[i].value == value
            &&& forall|k: int| 0 <= k < i ==> (#[trigger] attributes[k]).name != name
        }
}

/// The last attribute with the name has the value.
pub open spec fn last_says(
    attributes: Seq<AttributeView>,
    name: Seq<char>,
    value: Seq<char>,
) -> bool {
    exists|i: int|
        {
            &&& 0 <= i < attributes.len()
            &&& (#[trigger] attributes[i]).name == name
            &&& attributes[i].value == value
            &&& forall|k: int| i < k < attributes.len() ==> (#[trigger] attributes[k]).name != name
        }
}

/// No attribute has the name.
pub open spec fn is_silent(attributes: Seq<AttributeView>, name: Seq<char>) -> bool {
    forall|i: int| 0 <= i < attributes.len() ==> (#[trigger] attributes[i]).name != name
}

/// What is found first among attributes.
pub proof fn law_the_first_attribute_counts(
    attributes: Seq<AttributeView>,
    name: Seq<char>,
    value: Seq<char>,
)
    ensures
        first_says(attributes, name, value) ==> first_attribute(attributes, name) == Some(value),
        is_silent(attributes, name) ==> first_attribute(attributes, name) is None,
    decreases attributes.len(),
{
    if attributes.len() > 0 {
        let others = attributes.drop_first();
        assert(forall|i: int| 0 <= i < others.len() ==> (#[trigger] others[i]) == attributes[i + 1]);
        law_the_first_attribute_counts(others, name, value);
        if first_says(attributes, name, value) && attributes[0].name != name {
            let i = choose|i: int|
                {
                    &&& 0 <= i < attributes.len()
                    &&& (#[trigger] attributes[i]).name == name
                    &&& attributes[i].value == value
                    &&& forall|k: int| 0 <= k < i ==> (#[trigger] attributes[k]).name != name
                };
            assert(others[i - 1] == attributes[i]);
        }
        if first_says(attributes, name, value) && attributes[0].name == name {
            assert(attributes[0].value == value);
        }
    }
}

/// What is found last among attributes.
pub proof fn law_the_last_attribute_counts(
    attributes: Seq<AttributeView>,
    name: Seq<char>,
    value: Seq<char>,
)
    ensures
        last_says(attributes, name, value) ==> last_attribute(attributes, name) == Some(value),
        is_silent(attributes, name) ==> last_attribute(attributes, name) is None,
    decreases attributes.len(),
{
    if attributes.len() > 0 {
        let others = attributes.drop_last();
        assert(forall|i: int| 0 <= i < others.len() ==> (#[trigger] others[i]) == attributes[i]);
        law_the_last_attribute_counts(others, name, value);
        let last = attributes[attributes.len() - 1];
        if last_says(attributes, name, value) && last.name != name {
            let i = choose|i: int|
                {
                    &&& 0 <= i < attributes.len()
                    &&& (#[trigger] attributes[i]).name == name
                    &&& attributes[i].value == value
                    &&& forall|k: int|
                        i < k < attributes.len() ==> (#[trigger] attributes[k]).name != name
                };
            assert(others[i] == attributes[i]);
        }
        if last_says(attributes, name, value) && last.name == name {
            assert(last.value == value);
        }
    }
}

/// The name that a property goes by which documents call `xml_name`: only one
/// name differs.
pub open spec fn stored_name(xml_name: Seq<char>) -> Seq<char> {
    if xml_name == "size"@ {
        "Size"@
    } else {
        xml_name
    }
}

/// The property `size` is stored as `Size`, and every other property under the
/// name that the document calls it.
pub proof fn law_names_are_kept(xml_name: Seq<char>)
    ensures
        xml_name == "size"@ ==> canonical(xml_name) == "Size"@,
        xml_name != "size"@ ==> canonical(xml_name) == xml_name,
{
}

/// The digits of a number.
pub open spec fn digits(n: nat) -> Seq<char>
    decreases n,
{
    let last = ((n % 10) as u8 + '0' as u8) as char;
    if n < 10 {
        seq![last]
    } else {
        digits(n / 10).push(last)
    }
}

/// The number that holds the red, green and blue parts of a color.
pub open spec fn packed(bytes: Seq<u8>) -> nat {
    (bytes[0] * 0x10000 + bytes[1] * 0x100 + bytes[2]) as nat
}

/// An element, with what stands inside it.
pub open spec fn element(
    name: Seq<char>,
    attributes: Seq<AttributeView>,
    inside: Stream,
) -> Stream {
    seq![start(name, attributes)] + inside + seq![end(name)]
}

/// The event that a piece of a text is.
pub open spec fn piece_event(piece: Piece) -> ItemView {
    match piece {
        Piece::Plain(text) => Ok(EventView::Characters(text)),
        Piece::Marked(text) => Ok(EventView::CData(text)),
    }
}

/// A text, written in pieces.
pub open spec fn text_events(pieces: Seq<Piece>) -> Stream {
    pieces.map_values(|piece: Piece| piece_event(piece))
}

/// The text that pieces make up.
pub open spec fn text_of(pieces: Seq<Piece>) -> Seq<char>
    decreases pieces.len(),
{
    if pieces.len() == 0 {
        Seq::empty()
    } else {
        (match pieces[0] {
            Piece::Plain(text) => text,
            Piece::Marked(text) => text,
        }) + text_of(pieces.drop_first())
    }
}

/// The attribute that names a property.
pub open spec fn named(name: Seq<char>) -> Seq<AttributeView> {
    seq![AttributeView { name: "name"@, value: name }]
}

/// One attribute is enough to name something.
pub proof fn law_one_attribute_names(name: Seq<char>)
    ensures
        first_says(named(name), "name"@, name),
        last_says(named(name), "name"@, name),
{
    assert(named(name)[0].name == "name"@);
}

/// Numbers, each inside a tag of its own.
pub open spec fn scalar_elements(tags: Seq<Seq<char>>, parts: Seq<ScalarModel>) -> Stream
    decreases tags.len(),
{
    if tags.len() == 0 {
        Seq::empty()
    } else {
        element(tags[0], parts[0].attributes, text_events(parts[0].pieces)) + scalar_elements(
            tags.drop_first(),
            parts.drop_first(),
        )
    }
}

/// Numbers, `count` of them, that are written as floats.
pub open spec fn are_literals(
    parts: Seq<ScalarModel>,
    numbers: Seq<ScalarView>,
    count: nat,
) -> bool {
    &&& numbers.len() == count
    &&& parts.len() == count
    &&& forall|i: int|
        0 <= i < count ==> (#[trigger] numbers[i]) == ScalarView::Literal(text_of(parts[i].pieces))
    &&& forall|i: int|
        0 <= i < count ==> is_written_float(text_of((#[trigger] parts[i]).pieces))
}

/// The numbers of a color whose parts are bytes.
pub open spec fn byte_fractions(bytes: Seq<u8>) -> Seq<ScalarView> {
    bytes.map_values(|byte: u8| ScalarView::ByteFraction(byte))
}

/// The bytes that numbers are fractions of.
pub open spec fn fraction_bytes(numbers: Seq<ScalarView>) -> Seq<u8> {
    numbers.map_values(|number: ScalarView| number->ByteFraction_0)
}

/// A color packed into a number: its bytes, below one that has no meaning.
pub open spec fn is_packed(text: Seq<char>, bytes: Seq<u8>) -> bool {
    &&& bytes.len() == 3
    &&& exists|plus: bool, zeros: nat, top: u8|
        text == #[trigger] numeral(plus, zeros, (top * 0x1000000 + packed(bytes)) as nat)
}

/// The tags of the numbers of a vector, a color and a frame.
pub open spec fn two_axes() -> Seq<Seq<char>> {
    seq!["X"@, "Y"@]
}

pub open spec fn three_axes() -> Seq<Seq<char>> {
    seq!["X"@, "Y"@, "Z"@]
}

pub open spec fn color_parts() -> Seq<Seq<char>> {
    seq!["R"@, "G"@, "B"@]
}

pub open spec fn frame_parts() -> Seq<Seq<char>> {
    three_axes() + seq!["R00"@, "R01"@, "R02"@, "R10"@, "R11"@, "R12"@, "R20"@, "R21"@, "R22"@]
}

/// The tags are those that are read.
pub proof fn lemma_tags()
    ensures
        vector2_tags() == two_axes(),
        vector3_tags() == three_axes(),
        color3_tags() == color_parts(),
        cframe_tags() == frame_parts(),
{
    assert(vector2_tags() =~= two_axes());
    assert(vector3_tags() =~= three_axes());
    assert(color3_tags() =~= color_parts());
    assert(cframe_tags() =~= frame_parts());
}

/// Whether a property is written the way that its value is: a text, a truth
/// value and a reference as their text, and all else as numbers.
pub open spec fn is_writable(model: PropertyModel) -> bool {
    let text = text_of(model.pieces);
    match model.held {
        Held::Null => text == "null"@,
        Held::Reference(referent) => text == referent && referent != "null"@,
        Held::Value(ValueView::String(value)) => text == value,
        Held::Value(ValueView::Bool(true)) => text == "true"@,
        Held::Value(ValueView::Bool(false)) => text == "false"@,
        Held::Value(ValueView::Vector2(numbers)) => are_literals(model.parts, numbers, 2),
        Held::Value(ValueView::Vector3(numbers)) => are_literals(model.parts, numbers, 3),
        Held::Value(ValueView::Color3(numbers)) => if is_packed_color(model) {
            &&& numbers == byte_fractions(fraction_bytes(numbers))
            &&& is_packed(text, fraction_bytes(numbers))
        } else {
            text.len() == 0 && are_literals(model.parts, numbers, 3)
        },
        Held::Value(ValueView::Color3uint8(bytes)) => is_packed(text, bytes),
        Held::Value(ValueView::CFrame(numbers)) => are_literals(model.parts, numbers, 12),
        Held::Value(ValueView::Ref(_)) => false,
    }
}

/// A color is packed where it has no parts of its own.
pub open spec fn is_packed_color(model: PropertyModel) -> bool {
    model.parts.len() == 0
}

/// The type that a property is written with.
pub open spec fn xml_type(held: Held) -> Seq<char> {
    match held {
        Held::Value(ValueView::String(_)) => "string"@,
        Held::Value(ValueView::Bool(_)) => "bool"@,
        Held::Value(ValueView::Vector2(_)) => "Vector2"@,
        Held::Value(ValueView::Vector3(_)) => "Vector3"@,
        Held::Value(ValueView::Color3(_)) => "Color3"@,
        Held::Value(ValueView::Color3uint8(_)) => "Color3uint8"@,
        Held::Value(ValueView::CFrame(_)) => "CoordinateFrame"@,
        _ => "Ref"@,
    }
}

/// What stands inside the tag of a property.
pub open spec fn held_events(model: PropertyModel) -> Stream {
    match model.held {
        Held::Value(ValueView::Vector2(_)) => scalar_elements(two_axes(), model.parts),
        Held::Value(ValueView::Vector3(_)) => scalar_elements(three_axes(), model.parts),
        Held::Value(ValueView::Color3(_)) => if is_packed_color(model) {
            text_events(model.pieces)
        } else {
            text_events(model.pieces) + scalar_elements(color_parts(), model.parts)
        },
        Held::Value(ValueView::CFrame(_)) => scalar_elements(frame_parts(), model.parts),
        _ => text_events(model.pieces),
    }
}

/// A property, written down.
pub open spec fn property_events(model: PropertyModel) -> Stream {
    element(xml_type(model.held), model.attributes, held_events(model))
}

/// The value that a property comes to have, given what referents stand for.
pub open spec fn held_value(held: Held, known: Map<Seq<char>, RbxId>) -> ValueView {
    match held {
        Held::Value(value) => value,
        Held::Null => ValueView::Ref(None),
        Held::Reference(referent) => ValueView::Ref(
            if known.contains_key(referent) {
                Some(known[referent])
            } else {
                None
            },
        ),
    }
}

/// The referent that a property refers to.
pub open spec fn held_referent(held: Held) -> Option<Seq<char>> {
    match held {
        Held::Reference(referent) => Some(referent),
        _ => None,
    }
}

/// Whether a property is written down: its value is, its tag says its name
/// before it says any other, and the name of an instance is a text.
pub open spec fn is_property(model: PropertyModel) -> bool {
    &&& is_writable(model)
    &&& first_says(model.attributes, "name"@, model.name)
    &&& model.name == "Name"@ ==> model.held is Value && model.held->Value_0 is String
}

proof fn lemma_text_run(pieces: Seq<Piece>)
    ensures
        run_text(text_events(pieces)) == text_of(pieces),
    decreases pieces.len(),
{
    let events = text_events(pieces);
    if pieces.len() > 0 {
        lemma_text_run(pieces.drop_first());
        assert(events.drop_first() =~= text_events(pieces.drop_first()));
        assert(events[0] == piece_event(pieces[0]));
    }
}

/// A text reads as it was written, whatever its pieces, up to the next event
/// that is no text, which is left to be read; and a fault in that place spoils
/// it.
pub proof fn law_texts_read_back(pieces: Seq<Piece>, rest: Stream)
    ensures
        rest.len() == 0 || (rest[0] is Ok && !(rest[0]->Ok_0 is Characters) && !(rest[0]->Ok_0
            is CData)) ==> characters(text_events(pieces) + rest) == (
            Ok::<Seq<char>, ErrorView>(text_of(pieces)),
            rest,
        ),
        rest.len() > 0 && rest[0] is Err ==> characters(text_events(pieces) + rest) == (
            Err::<Seq<char>, ErrorView>(ErrorView::XmlError(rest[0]->Err_0)),
            rest.drop_first(),
        ),
{
    let events = text_events(pieces);
    lemma_text_run(pieces);
    assert forall|i: int| 0 <= i < events.len() implies character_data(#[trigger] events[i])
        is Some by {
        assert(events[i] == piece_event(pieces[i]));
    }
    if rest.len() == 0 || character_data(rest[0]) is None {
        lemma_run(events, rest);
        let stream = events + rest;
        assert(stream.skip(events.len() as int) =~= rest);
        if rest.len() > 0 {
            assert(stream[events.len() as int] == rest[0]);
            assert(stream.skip((events.len() + 1) as int) =~= rest.drop_first());
        }
    }
}

proof fn lemma_opens(name: Seq<char>, attributes: Seq<AttributeView>, inside: Stream, rest: Stream)
    ensures
        opening_tag(element(name, attributes, inside) + rest, name, "Got wrong tag name"@) == (
            Ok::<(), ErrorView>(()),
            inside + (seq![end(name)] + rest),
        ),
        opening_tag(element(name, attributes, inside) + rest, name, "Wrong opening tag"@) == (
            Ok::<(), ErrorView>(()),
            inside + (seq![end(name)] + rest),
        ),
{
    let stream = element(name, attributes, inside) + rest;
    assert(stream[0] == start(name, attributes));
    assert(stream.drop_first() =~= inside + (seq![end(name)] + rest));
}

proof fn lemma_closes(name: Seq<char>, rest: Stream)
    ensures
        closing_tag(seq![end(name)] + rest, name, "Wrong closing tag"@) == (
            Ok::<(), ErrorView>(()),
            rest,
        ),
{
    assert((seq![end(name)] + rest).drop_first() =~= rest);
}

/// A tag reads as the text that it holds, whatever its attributes and the
/// pieces of the text.
pub proof fn law_text_elements_read_back(
    name: Seq<char>,
    attributes: Seq<AttributeView>,
    pieces: Seq<Piece>,
    rest: Stream,
)
    ensures
        tag_contents(element(name, attributes, text_events(pieces)) + rest, name) == (
            Ok::<Seq<char>, ErrorView>(text_of(pieces)),
            rest,
        ),
{
    let behind = seq![end(name)] + rest;
    lemma_opens(name, attributes, text_events(pieces), rest);
    law_texts_read_back(pieces, behind);
    assert(behind.drop_first() =~= rest);
}

/// Numbers read back.
pub proof fn lemma_scalars_read(
    tags: Seq<Seq<char>>,
    parts: Seq<ScalarModel>,
    numbers: Seq<ScalarView>,
    rest: Stream,
)
    requires
        are_literals(parts, numbers, tags.len()),
    ensures
        scalars(scalar_elements(tags, parts) + rest, tags) == (
            Ok::<Seq<ScalarView>, ErrorView>(numbers),
            rest,
        ),
    decreases tags.len(),
{
    let stream = scalar_elements(tags, parts) + rest;
    if tags.len() == 0 {
        assert(stream =~= rest);
        assert(numbers =~= Seq::empty());
    } else {
        let others = numbers.drop_first();
        let later = parts.drop_first();
        let behind = scalar_elements(tags.drop_first(), later) + rest;
        let first = element(tags[0], parts[0].attributes, text_events(parts[0].pieces));
        assert(stream =~= first + behind);
        law_text_elements_read_back(tags[0], parts[0].attributes, parts[0].pieces, behind);
        law_floats_are_numbers_or_words(text_of(parts[0].pieces));
        assert(numbers[0] == ScalarView::Literal(text_of(parts[0].pieces)));
        assert(scalar(stream, tags[0]) == (Ok::<ScalarView, ErrorView>(numbers[0]), behind));
        assert(forall|i: int| 0 <= i < later.len() ==> (#[trigger] later[i]) == parts[i + 1]);
        assert(forall|i: int| 0 <= i < others.len() ==> (#[trigger] others[i]) == numbers[i + 1]);
        lemma_scalars_read(tags.drop_first(), later, others, rest);
        assert(seq![numbers[0]] + others =~= numbers);
    }
}

proof fn lemma_scalars_element_reads(
    name: Seq<char>,
    attributes: Seq<AttributeView>,
    tags: Seq<Seq<char>>,
    parts: Seq<ScalarModel>,
    numbers: Seq<ScalarView>,
    rest: Stream,
)
    requires
        are_literals(parts, numbers, tags.len()),
    ensures
        scalars_in(element(name, attributes, scalar_elements(tags, parts)) + rest, name, tags) == (
            Ok::<Seq<ScalarView>, ErrorView>(numbers),
            rest,
        ),
{
    lemma_opens(name, attributes, scalar_elements(tags, parts), rest);
    lemma_scalars_read(tags, parts, numbers, seq![end(name)] + rest);
    lemma_closes(name, rest);
}

/// A packed color reads as its bytes, whatever stands above them.
proof fn lemma_packed_reads(text: Seq<char>, bytes: Seq<u8>)
    requires
        is_packed(text, bytes),
    ensures
        text.len() > 0,
        u32_value(text) is Some,
        color_bytes(u32_value(text)->0) == bytes,
{
    let (plus, zeros, top) = choose|plus: bool, zeros: nat, top: u8|
        text == #[trigger] numeral(plus, zeros, (top * 0x1000000 + packed(bytes)) as nat);
    law_colors_unpack(top, bytes[0], bytes[1], bytes[2]);
    law_numerals_read_back(plus, zeros, (top * 0x1000000 + packed(bytes)) as nat);
    assert(bytes =~= seq![bytes[0], bytes[1], bytes[2]]);
}

proof fn lemma_color_reads(model: PropertyModel, numbers: Seq<ScalarView>, rest: Stream)
    requires
        model.held == Held::Value(ValueView::Color3(numbers)),
        is_writable(model),
    ensures
        color3(property_events(model) + rest) == (Ok::<Seq<ScalarView>, ErrorView>(numbers), rest),
{
    let tag = "Color3"@;
    let inside = held_events(model);
    let behind = seq![end(tag)] + rest;
    lemma_tags();
    lemma_opens(tag, model.attributes, inside, rest);
    lemma_closes(tag, rest);
    if is_packed_color(model) {
        let bytes = fraction_bytes(numbers);
        lemma_packed_reads(text_of(model.pieces), bytes);
        law_texts_read_back(model.pieces, behind);
        assert(byte_fractions(bytes) =~= bytes.map_values(
            |byte: u8| ScalarView::ByteFraction(byte),
        ));
    } else {
        let numbered = scalar_elements(color_parts(), model.parts) + behind;
        assert(numbered[0] == start("R"@, model.parts[0].attributes));
        assert(inside + behind =~= text_events(model.pieces) + numbered);
        law_texts_read_back(model.pieces, numbered);
        lemma_scalars_read(color_parts(), model.parts, numbers, behind);
    }
}

/// No two types have the same name.
pub proof fn lemma_types_differ()
    ensures
        "bool"@ != "string"@,
        "Vector2"@ != "string"@,
        "Vector2"@ != "bool"@,
        "Vector3"@ != "string"@,
        "Vector3"@ != "bool"@,
        "Vector3"@ != "Vector2"@,
        "Color3"@ != "string"@,
        "Color3"@ != "bool"@,
        "Color3"@ != "Vector2"@,
        "Color3"@ != "Vector3"@,
        "Color3uint8"@ != "string"@,
        "Color3uint8"@ != "bool"@,
        "Color3uint8"@ != "Vector2"@,
        "Color3uint8"@ != "Vector3"@,
        "Color3uint8"@ != "Color3"@,
        "CoordinateFrame"@ != "string"@,
        "CoordinateFrame"@ != "bool"@,
        "CoordinateFrame"@ != "Vector2"@,
        "CoordinateFrame"@ != "Vector3"@,
        "CoordinateFrame"@ != "Color3"@,
        "CoordinateFrame"@ != "Color3uint8"@,
        "Ref"@ != "string"@,
        "Ref"@ != "bool"@,
        "Ref"@ != "Vector2"@,
        "Ref"@ != "Vector3"@,
        "Ref"@ != "Color3"@,
        "Ref"@ != "Color3uint8"@,
        "Ref"@ != "CoordinateFrame"@,
{
    reveal_strlit("string");
    reveal_strlit("bool");
    reveal_strlit("Vector2");
    reveal_strlit("Vector3");
    reveal_strlit("Color3");
    reveal_strlit("Color3uint8");
    reveal_strlit("CoordinateFrame");
    reveal_strlit("Ref");
    assert("string"@.len() == 6);
    assert("bool"@.len() == 4);
    assert("Vector2"@.len() == 7);
    assert("Vector3"@.len() == 7);
    assert("Color3"@.len() == 6);
    assert("Color3uint8"@.len() == 11);
    assert("CoordinateFrame"@.len() == 15);
    assert("Ref"@.len() == 3);
    assert("Vector2"@[6] != "Vector3"@[6]);
    assert("Color3"@[0] != "string"@[0]);
}

/// A property that is written down reads back as it was: its value, and the
/// referent that it refers to.
pub proof fn law_properties_read_back(model: PropertyModel, rest: Stream)
    requires
        is_property(model),
    ensures
        property(property_events(model) + rest, xml_type(model.held)) == (ParsedProperty {
            value: Ok(held_value(model.held, Map::empty())),
            referent: held_referent(model.held),
            rest,
        }),
{
    let tag = xml_type(model.held);
    lemma_types_differ();
    match model.held {
        Held::Value(_) => {
            lemma_value_reads(model, rest);
        },
        _ => {
            law_text_elements_read_back(tag, model.attributes, model.pieces, rest);
        },
    }
}

proof fn lemma_value_reads(model: PropertyModel, rest: Stream)
    requires
        model.held is Value,
        is_writable(model),
    ensures
        property_value(property_events(model) + rest, xml_type(model.held)) == (
            Ok::<ValueView, ErrorView>(model.held->Value_0),
            rest,
        ),
{
    let tag = xml_type(model.held);
    lemma_types_differ();
    lemma_tags();
    match model.held->Value_0 {
        ValueView::String(text) => {
            law_text_elements_read_back(tag, model.attributes, model.pieces, rest);
        },
        ValueView::Bool(truth) => {
            reveal_strlit("true");
            reveal_strlit("false");
            assert("true"@.len() != "false"@.len());
            law_text_elements_read_back(tag, model.attributes, model.pieces, rest);
        },
        ValueView::Vector2(numbers) => {
            lemma_scalars_element_reads(
                tag,
                model.attributes,
                two_axes(),
                model.parts,
                numbers,
                rest,
            );
        },
        ValueView::Vector3(numbers) => {
            lemma_scalars_element_reads(
                tag,
                model.attributes,
                three_axes(),
                model.parts,
                numbers,
                rest,
            );
        },
        ValueView::Color3(numbers) => {
            lemma_color_reads(model, numbers, rest);
        },
        ValueView::Color3uint8(bytes) => {
            lemma_packed_reads(text_of(model.pieces), bytes);
            law_text_elements_read_back(tag, model.attributes, model.pieces, rest);
        },
        ValueView::CFrame(numbers) => {
            lemma_scalars_element_reads(
                tag,
                model.attributes,
                frame_parts(),
                model.parts,
                numbers,
                rest,
            );
        },
        ValueView::Ref(_) => {},
    }
}

}
