//! What is wrong with a document, told for every way in which it can be.

use vstd::prelude::*;

use crate::document::{property, ParsedProperty};
use crate::dom::{ScalarView, ValueView};
use crate::error::ErrorView;
use crate::event::{AttributeView, ItemView, Stream};
use crate::laws::numbers::{
    is_written_float, law_floats_are_numbers_or_words, law_numbers_are_numerals,
    law_numerals_read_back, numeral,
};
use crate::laws::reading::{end, start};
use crate::laws::rendering::{
    color_parts, element, frame_parts, law_text_elements_read_back, law_texts_read_back,
    lemma_scalars_read, lemma_tags, lemma_types_differ, scalar_elements, text_events, text_of,
    three_axes, two_axes, Piece, ScalarModel,
};
use crate::reader::{closing_tag, tag_contents};
use crate::types::{color3_inside, scalar, scalars, u32_error, u32_value};

verus! {

/// What is told of an event that stands where another one is due.
pub open spec fn misfit(first: ItemView) -> ErrorView {
    match first {
        Ok(_) => ErrorView::MalformedDocument,
        Err(fault) => ErrorView::XmlError(fault),
    }
}

/// An event that is no text.
pub open spec fn is_no_text(first: ItemView) -> bool {
    !(first is Ok && (first->Ok_0 is Characters || first->Ok_0 is CData))
}

/// An event that is no opening tag.
pub open spec fn is_no_start(first: ItemView) -> bool {
    !(first is Ok && first->Ok_0 is StartElement)
}

/// An event that is no closing tag.
pub open spec fn is_no_end(first: ItemView) -> bool {
    !(first is Ok && first->Ok_0 is EndElement)
}

/// A tag with a text in it ends with a closing tag, and all else in its place is
/// refused; so is a tag of another name, and whatever is no opening tag.
pub proof fn law_texts_stand_in_tags(
    name: Seq<char>,
    attributes: Seq<AttributeView>,
    pieces: Seq<Piece>,
    other: Seq<char>,
    first: ItemView,
    rest: Stream,
)
    ensures
        is_no_text(first) && is_no_end(first) ==> tag_contents(
            seq![start(name, attributes)] + text_events(pieces) + seq![first] + rest,
            name,
        ) == (Err::<Seq<char>, ErrorView>(misfit(first)), rest),
        other != name ==> tag_contents(seq![start(other, attributes)] + rest, name) == (
            Err::<Seq<char>, ErrorView>(ErrorView::Message("Got wrong tag name"@)),
            rest,
        ),
        is_no_start(first) ==> tag_contents(seq![first] + rest, name) == (
            Err::<Seq<char>, ErrorView>(misfit(first)),
            rest,
        ),
        tag_contents(Seq::empty(), name) == (
            Err::<Seq<char>, ErrorView>(ErrorView::MalformedDocument),
            Seq::<ItemView>::empty(),
        ),
{
    let behind = seq![first] + rest;
    let stream = seq![start(name, attributes)] + text_events(pieces) + seq![first] + rest;
    assert(stream.drop_first() =~= text_events(pieces) + behind);
    assert(behind.drop_first() =~= rest);
    assert(behind[0] == first);
    law_texts_read_back(pieces, behind);
    assert((seq![start(other, attributes)] + rest).drop_first() =~= rest);
}

/// A property of another type is refused, and nothing of it is read.
pub proof fn law_other_types_are_unknown(stream: Stream, xml_type: Seq<char>)
    requires
        xml_type != "string"@,
        xml_type != "bool"@,
        xml_type != "Vector2"@,
        xml_type != "Vector3"@,
        xml_type != "Color3"@,
        xml_type != "Color3uint8"@,
        xml_type != "CoordinateFrame"@,
        xml_type != "Ref"@,
    ensures
        property(stream, xml_type) == (ParsedProperty {
            value: Err(ErrorView::Message("Unknown property type"@)),
            referent: None,
            rest: stream,
        }),
{
}

/// A truth value is `true` or `false`, and every other text is refused.
pub proof fn law_truth_is_spelt_out(
    attributes: Seq<AttributeView>,
    pieces: Seq<Piece>,
    rest: Stream,
)
    requires
        text_of(pieces) != "true"@,
        text_of(pieces) != "false"@,
    ensures
        property(element("bool"@, attributes, text_events(pieces)) + rest, "bool"@) == (
        ParsedProperty {
            value: Err(ErrorView::Message("Invalid boolean value, expected true or false"@)),
            referent: None,
            rest,
        }),
{
    lemma_types_differ();
    law_text_elements_read_back("bool"@, attributes, pieces, rest);
}

/// A number that 32 bits hold, written down in some way.
pub open spec fn is_numeral(text: Seq<char>) -> bool {
    exists|plus: bool, leading: nat, n: u32| text == #[trigger] numeral(plus, leading, n as nat)
}

/// A packed color is a number that 32 bits hold, and every other text is
/// refused.
pub proof fn law_packed_colors_are_numbers(
    attributes: Seq<AttributeView>,
    pieces: Seq<Piece>,
    rest: Stream,
)
    requires
        !is_numeral(text_of(pieces)),
    ensures
        property(element("Color3uint8"@, attributes, text_events(pieces)) + rest, "Color3uint8"@)
            == (ParsedProperty {
            value: Err(ErrorView::ParseIntError(u32_error(text_of(pieces)))),
            referent: None,
            rest,
        }),
        text_of(pieces).len() > 0 ==> property(
            element("Color3"@, attributes, text_events(pieces)) + rest,
            "Color3"@,
        ) == (ParsedProperty {
            value: Err(ErrorView::ParseIntError(u32_error(text_of(pieces)))),
            referent: None,
            rest: seq![end("Color3"@)] + rest,
        }),
{
    let text = text_of(pieces);
    lemma_types_differ();
    law_numbers_are_numerals(text);
    assert(u32_value(text) is None) by {
        if u32_value(text) is Some {
            let n = u32_value(text)->0;
            let (plus, leading) = choose|plus: bool, leading: nat|
                text == #[trigger] numeral(plus, leading, n as nat);
            assert(is_numeral(text));
        }
    }
    law_text_elements_read_back("Color3uint8"@, attributes, pieces, rest);
    let behind = seq![end("Color3"@)] + rest;
    let stream = element("Color3"@, attributes, text_events(pieces)) + rest;
    assert(stream[0] == start("Color3"@, attributes));
    assert(stream.drop_first() =~= text_events(pieces) + behind);
    law_texts_read_back(pieces, behind);
}

/// The types that are made of numbers, each with the tags of its numbers.
pub open spec fn is_made_of(xml_type: Seq<char>, tags: Seq<Seq<char>>) -> bool {
    ||| xml_type == "Vector2"@ && tags == two_axes()
    ||| xml_type == "Vector3"@ && tags == three_axes()
    ||| xml_type == "Color3"@ && tags == color_parts()
    ||| xml_type == "CoordinateFrame"@ && tags == frame_parts()
}

/// Numbers that are written as floats.
pub open spec fn are_floats(parts: Seq<ScalarModel>) -> bool {
    forall|i: int|
        0 <= i < parts.len() ==> is_written_float(text_of((#[trigger] parts[i]).pieces))
}

/// The numbers that are written.
spec fn numbers_of(parts: Seq<ScalarModel>) -> Seq<ScalarView> {
    parts.map_values(|part: ScalarModel| ScalarView::Literal(text_of(part.pieces)))
}

/// What goes wrong with a number behind others that are right goes wrong with
/// all.
proof fn lemma_scalars_stop(tags: Seq<Seq<char>>, parts: Seq<ScalarModel>, tail: Stream)
    requires
        parts.len() < tags.len(),
        are_floats(parts),
        scalar(tail, tags[parts.len() as int]).0 is Err,
    ensures
        ({
            let (outcome, rest) = scalar(tail, tags[parts.len() as int]);
            let taken = tags.take(parts.len() as int);
            scalars(scalar_elements(taken, parts) + tail, tags) == (
                Err::<Seq<ScalarView>, ErrorView>(outcome->Err_0),
                rest,
            )
        }),
    decreases tags.len(),
{
    let taken = tags.take(parts.len() as int);
    let stream = scalar_elements(taken, parts) + tail;
    if parts.len() == 0 {
        assert(stream =~= tail);
    } else {
        let later = parts.drop_first();
        let others = tags.drop_first();
        assert(taken.drop_first() =~= others.take(later.len() as int));
        let behind = scalar_elements(taken.drop_first(), later) + tail;
        let first = element(tags[0], parts[0].attributes, text_events(parts[0].pieces));
        assert(stream =~= first + behind);
        law_text_elements_read_back(tags[0], parts[0].attributes, parts[0].pieces, behind);
        law_floats_are_numbers_or_words(text_of(parts[0].pieces));
        assert(scalar(stream, tags[0]).0 is Ok);
        assert(scalar(stream, tags[0]).1 == behind);
        assert(forall|i: int| 0 <= i < later.len() ==> (#[trigger] later[i]) == parts[i + 1]);
        lemma_scalars_stop(others, later, tail);
    }
}

/// What stands inside a property that is made of numbers decides how it reads.
proof fn lemma_made_of(
    xml_type: Seq<char>,
    tags: Seq<Seq<char>>,
    attributes: Seq<AttributeView>,
    inside: Stream,
)
    requires
        is_made_of(xml_type, tags),
        inside.len() > 0,
        xml_type == "Color3"@ ==> is_no_text(inside[0]) && inside[0] is Ok,
        scalars(inside, tags).0 is Err || closing_tag(
            scalars(inside, tags).1,
            xml_type,
            "Wrong closing tag"@,
        ).0 is Err,
    ensures
        ({
            let (numbers, behind) = scalars(inside, tags);
            let (closed, rest) = closing_tag(behind, xml_type, "Wrong closing tag"@);
            let read = property(seq![start(xml_type, attributes)] + inside, xml_type);
            &&& read.referent is None
            &&& numbers is Err ==> read.value == Err::<ValueView, ErrorView>(numbers->Err_0) && read.rest
                == behind
            &&& numbers is Ok ==> read.value == Err::<ValueView, ErrorView>(closed->Err_0) && read.rest
                == rest
        }),
{
    let stream = seq![start(xml_type, attributes)] + inside;
    lemma_types_differ();
    lemma_tags();
    assert(stream[0] == start(xml_type, attributes));
    assert(stream.drop_first() =~= inside);
    if xml_type == "Color3"@ {
        assert(text_events(Seq::empty()) + inside =~= inside);
        law_texts_read_back(Seq::empty(), inside);
        assert(text_of(Seq::empty()).len() == 0);
        assert(color3_inside(inside) == scalars(inside, tags));
    }
}

/// The first event of numbers and what follows them.
proof fn lemma_first_of(tags: Seq<Seq<char>>, parts: Seq<ScalarModel>, tail: Stream)
    requires
        parts.len() == tags.len(),
        tail.len() > 0,
    ensures
        (scalar_elements(tags, parts) + tail).len() > 0,
        parts.len() == 0 ==> (scalar_elements(tags, parts) + tail)[0] == tail[0],
        parts.len() > 0 ==> (scalar_elements(tags, parts) + tail)[0] == start(
            tags[0],
            parts[0].attributes,
        ),
{
}

/// A text that is no float is refused in place of a number, behind as many
/// numbers as there are before it.
pub proof fn law_numbers_are_floats(
    xml_type: Seq<char>,
    tags: Seq<Seq<char>>,
    attributes: Seq<AttributeView>,
    parts: Seq<ScalarModel>,
    part_attributes: Seq<AttributeView>,
    pieces: Seq<Piece>,
    rest: Stream,
)
    requires
        is_made_of(xml_type, tags),
        parts.len() < tags.len(),
        are_floats(parts),
        !is_written_float(text_of(pieces)),
    ensures
        property(
            seq![start(xml_type, attributes)] + (scalar_elements(
                tags.take(parts.len() as int),
                parts,
            ) + (element(tags[parts.len() as int], part_attributes, text_events(pieces)) + rest)),
            xml_type,
        ) == (ParsedProperty {
            value: Err(ErrorView::ParseFloatError(text_of(pieces))),
            referent: None,
            rest,
        }),
{
    let tag = tags[parts.len() as int];
    let taken = tags.take(parts.len() as int);
    let tail = element(tag, part_attributes, text_events(pieces)) + rest;
    law_text_elements_read_back(tag, part_attributes, pieces, rest);
    law_floats_are_numbers_or_words(text_of(pieces));
    lemma_scalars_stop(tags, parts, tail);
    assert(tail[0] == start(tag, part_attributes));
    lemma_first_of(taken, parts, tail);
    lemma_made_of(xml_type, tags, attributes, scalar_elements(taken, parts) + tail);
}

/// An event that does not open the tag of the next number is refused, behind as
/// many numbers as there are before it. (A text right inside a color is a packed
/// color, and a fault there is told as any other.)
pub proof fn law_numbers_stand_in_order(
    xml_type: Seq<char>,
    tags: Seq<Seq<char>>,
    attributes: Seq<AttributeView>,
    parts: Seq<ScalarModel>,
    first: ItemView,
    rest: Stream,
)
    requires
        is_made_of(xml_type, tags),
        parts.len() < tags.len(),
        are_floats(parts),
        first is Ok && first->Ok_0 is StartElement ==> first->Ok_0->StartElement_name
            != tags[parts.len() as int],
        xml_type == "Color3"@ && parts.len() == 0 ==> is_no_text(first) && first is Ok,
    ensures
        property(
            seq![start(xml_type, attributes)] + (scalar_elements(
                tags.take(parts.len() as int),
                parts,
            ) + (seq![first] + rest)),
            xml_type,
        ) == (ParsedProperty {
            value: Err(
                if is_no_start(first) {
                    misfit(first)
                } else {
                    ErrorView::Message("Got wrong tag name"@)
                },
            ),
            referent: None,
            rest,
        }),
{
    let tag = tags[parts.len() as int];
    let taken = tags.take(parts.len() as int);
    let tail = seq![first] + rest;
    assert(tail[0] == first);
    assert(tail.drop_first() =~= rest);
    assert(scalar(tail, tag).0 is Err);
    lemma_scalars_stop(tags, parts, tail);
    lemma_first_of(taken, parts, tail);
    lemma_made_of(xml_type, tags, attributes, scalar_elements(taken, parts) + tail);
}

/// Behind its numbers a property ends with its own closing tag, and all else in
/// that place is refused.
pub proof fn law_numbers_are_closed(
    xml_type: Seq<char>,
    tags: Seq<Seq<char>>,
    attributes: Seq<AttributeView>,
    parts: Seq<ScalarModel>,
    first: ItemView,
    rest: Stream,
)
    requires
        is_made_of(xml_type, tags),
        parts.len() == tags.len(),
        are_floats(parts),
        first != end(xml_type),
    ensures
        property(
            seq![start(xml_type, attributes)] + (scalar_elements(tags, parts) + (seq![first]
                + rest)),
            xml_type,
        ) == (ParsedProperty {
            value: Err(
                if is_no_end(first) {
                    misfit(first)
                } else {
                    ErrorView::Message("Wrong closing tag"@)
                },
            ),
            referent: None,
            rest,
        }),
{
    let tail = seq![first] + rest;
    assert(tail[0] == first);
    assert(tail.drop_first() =~= rest);
    lemma_scalars_read(tags, parts, numbers_of(parts), tail);
    lemma_first_of(tags, parts, tail);
    lemma_made_of(xml_type, tags, attributes, scalar_elements(tags, parts) + tail);
}


/// A packed color ends with its own closing tag, and all else in that place is
/// refused.
pub proof fn law_packed_colors_are_closed(
    attributes: Seq<AttributeView>,
    pieces: Seq<Piece>,
    first: ItemView,
    rest: Stream,
)
    requires
        is_numeral(text_of(pieces)),
        is_no_text(first),
        first != end("Color3"@),
    ensures
        ({
            let read = property(
                seq![start("Color3"@, attributes)] + (text_events(pieces) + (seq![first] + rest)),
                "Color3"@,
            );
            &&& read.referent is None
            &&& read.rest == rest
            &&& read.value == Err::<ValueView, ErrorView>(
                if is_no_end(first) {
                    misfit(first)
                } else {
                    ErrorView::Message("Wrong closing tag"@)
                },
            )
        }),
{
    let text = text_of(pieces);
    let behind = seq![first] + rest;
    let inside = text_events(pieces) + behind;
    let stream = seq![start("Color3"@, attributes)] + inside;
    lemma_types_differ();
    assert(stream[0] == start("Color3"@, attributes));
    assert(stream.drop_first() =~= inside);
    assert(behind[0] == first);
    assert(behind.drop_first() =~= rest);
    law_texts_read_back(pieces, behind);
    let (plus, leading, n) = choose|plus: bool, leading: nat, n: u32|
        text == #[trigger] numeral(plus, leading, n as nat);
    law_numerals_read_back(plus, leading, n as nat);
}

/// The types that are written as a text.
pub open spec fn is_text_type(xml_type: Seq<char>) -> bool {
    xml_type == "string"@ || xml_type == "bool"@ || xml_type == "Color3uint8"@ || xml_type
        == "Ref"@
}

/// A property that is written as a text ends with a closing tag, and all else in
/// that place is refused.
pub proof fn law_text_properties_are_closed(
    xml_type: Seq<char>,
    attributes: Seq<AttributeView>,
    pieces: Seq<Piece>,
    first: ItemView,
    rest: Stream,
)
    requires
        is_text_type(xml_type),
        is_no_text(first),
        is_no_end(first),
    ensures
        property(
            seq![start(xml_type, attributes)] + text_events(pieces) + seq![first] + rest,
            xml_type,
        ) == (ParsedProperty { value: Err(misfit(first)), referent: None, rest }),
{
    lemma_types_differ();
    law_texts_stand_in_tags(xml_type, attributes, pieces, xml_type, first, rest);
}

/// A value stands in a tag of its own type, and all else in that place is
/// refused.
pub proof fn law_values_stand_in_their_tags(
    xml_type: Seq<char>,
    tags: Seq<Seq<char>>,
    attributes: Seq<AttributeView>,
    other: Seq<char>,
    first: ItemView,
    rest: Stream,
)
    requires
        is_text_type(xml_type) || is_made_of(xml_type, tags),
    ensures
        other != xml_type ==> ({
            let read = property(seq![start(other, attributes)] + rest, xml_type);
            &&& read.rest == rest
            &&& read.value == Err::<ValueView, ErrorView>(
                ErrorView::Message(
                    if is_text_type(xml_type) {
                        "Got wrong tag name"@
                    } else {
                        "Wrong opening tag"@
                    },
                ),
            )
        }),
        is_no_start(first) ==> property(seq![first] + rest, xml_type) == (ParsedProperty {
            value: Err(misfit(first)),
            referent: None,
            rest,
        }),
        property(Seq::empty(), xml_type) == (ParsedProperty {
            value: Err(ErrorView::MalformedDocument),
            referent: None,
            rest: Seq::empty(),
        }),
{
    lemma_types_differ();
    lemma_tags();
    let wrong = seq![start(other, attributes)] + rest;
    assert(wrong[0] == start(other, attributes));
    assert(wrong.drop_first() =~= rest);
    let none = seq![first] + rest;
    assert(none[0] == first);
    assert(none.drop_first() =~= rest);
}

}
