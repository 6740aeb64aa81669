//! Reading the values of properties.

use vstd::prelude::*;

use crate::dom::{scalars_view, RbxValue, Scalar, ScalarView, ValueView};
use crate::error::{DecodeError, ErrorView, FloatError};
use crate::event::Stream;
use crate::reader::{
    characters, closing_tag, lemma_characters_progress, lemma_tag_contents_progress, message,
    opening_tag, tag_contents, XmlEventReader,
};
use crate::text::{all_digits, is_float, is_float_literal, text_eq};

verus! {

/// The number that decimal digits denote.
pub open spec fn decimal_value(digits: Seq<char>) -> nat
    decreases digits.len(),
{
    if digits.len() == 0 {
        0
    } else {
        10 * decimal_value(digits.drop_last()) + (digits.last() as nat - '0' as nat) as nat
    }
}

/// What follows an optional plus sign.
pub open spec fn behind_plus(text: Seq<char>) -> Seq<char> {
    if text.len() > 0 && text[0] == '+' {
        text.skip(1)
    } else {
        text
    }
}

/// The number that a text denotes: an optional plus sign and at least one
/// digit, and no more than 32 bits hold.
pub open spec fn u32_value(text: Seq<char>) -> Option<u32> {
    let digits = behind_plus(text);
    if digits.len() > 0 && all_digits(digits) && decimal_value(digits) <= u32::MAX {
        Some(decimal_value(digits) as u32)
    } else {
        None
    }
}

/// The error with which a text is refused that denotes no number of 32 bits.
pub uninterp spec fn u32_error(text: Seq<char>) -> std::num::ParseIntError;

/// `<u32 as std::str::FromStr>::from_str`: it takes an optional `+` sign
/// followed by digits only, and fails on every other text and on a number too
/// large for the type. The error depends on the text alone, and is named by
/// [`u32_error`]; nothing else is said of it.
#[verifier::external_body]
fn parse_u32(text: &str) -> (number: Result<u32, std::num::ParseIntError>)
    ensures
        match number {
            Ok(number) => u32_value(text@) == Some(number),
            Err(error) => u32_value(text@) is None && error == u32_error(text@),
        },
{
    text.parse()
}

/// Reading a tag that holds a floating-point literal.
pub open spec fn scalar(stream: Stream, tag: Seq<char>) -> (Result<ScalarView, ErrorView>, Stream) {
    let (contents, rest) = tag_contents(stream, tag);
    match contents {
        Err(error) => (Err(error), rest),
        Ok(text) => if is_float_literal(text) {
            (Ok(ScalarView::Literal(text)), rest)
        } else {
            (Err(ErrorView::ParseFloatError(text)), rest)
        },
    }
}

/// Reading tags with the given names, in order, each of which holds a
/// floating-point literal.
pub open spec fn scalars(stream: Stream, tags: Seq<Seq<char>>) -> (
    Result<Seq<ScalarView>, ErrorView>,
    Stream,
)
    decreases tags.len(),
{
    if tags.len() == 0 {
        (Ok(Seq::empty()), stream)
    } else {
        let (first, behind) = scalar(stream, tags[0]);
        match first {
            Err(error) => (Err(error), behind),
            Ok(number) => {
                let (others, rest) = scalars(behind, tags.drop_first());
                match others {
                    Err(error) => (Err(error), rest),
                    Ok(numbers) => (Ok(seq![number] + numbers), rest),
                }
            },
        }
    }
}

/// Reading a tag of the given name around tags that hold floating-point
/// literals.
pub open spec fn scalars_in(stream: Stream, name: Seq<char>, tags: Seq<Seq<char>>) -> (
    Result<Seq<ScalarView>, ErrorView>,
    Stream,
) {
    let (opened, inside) = opening_tag(stream, name, "Wrong opening tag"@);
    match opened {
        Err(error) => (Err(error), inside),
        Ok(_) => {
            let (numbers, behind) = scalars(inside, tags);
            match numbers {
                Err(error) => (Err(error), behind),
                Ok(numbers) => {
                    let (closed, rest) = closing_tag(behind, name, "Wrong closing tag"@);
                    match closed {
                        Err(error) => (Err(error), rest),
                        Ok(_) => (Ok(numbers), rest),
                    }
                },
            }
        },
    }
}

/// The red, green and blue parts of a packed color, whose topmost byte has no
/// meaning.
pub open spec fn color_bytes(packed: u32) -> Seq<u8> {
    seq![
        (packed / 0x10000 % 0x100) as u8,
        (packed / 0x100 % 0x100) as u8,
        (packed % 0x100) as u8,
    ]
}

pub open spec fn vector2_tags() -> Seq<Seq<char>> {
    seq!["X"@, "Y"@]
}

pub open spec fn vector3_tags() -> Seq<Seq<char>> {
    seq!["X"@, "Y"@, "Z"@]
}

pub open spec fn color3_tags() -> Seq<Seq<char>> {
    seq!["R"@, "G"@, "B"@]
}

pub open spec fn cframe_tags() -> Seq<Seq<char>> {
    seq![
        "X"@,
        "Y"@,
        "Z"@,
        "R00"@,
        "R01"@,
        "R02"@,
        "R10"@,
        "R11"@,
        "R12"@,
        "R20"@,
        "R21"@,
        "R22"@,
    ]
}

/// Reading the inside of a color: a packed number, or one tag for each part.
pub open spec fn color3_inside(stream: Stream) -> (Result<Seq<ScalarView>, ErrorView>, Stream) {
    let (contents, behind) = characters(stream);
    match contents {
        Err(error) => (Err(error), behind),
        Ok(text) => if text.len() == 0 {
            scalars(behind, color3_tags())
        } else {
            match u32_value(text) {
                None => (Err(ErrorView::ParseIntError(u32_error(text))), behind),
                Some(packed) => (
                    Ok(color_bytes(packed).map_values(|byte: u8| ScalarView::ByteFraction(byte))),
                    behind,
                ),
            }
        },
    }
}

/// Reading a color whose parts are real numbers.
pub open spec fn color3(stream: Stream) -> (Result<Seq<ScalarView>, ErrorView>, Stream) {
    let (opened, inside) = opening_tag(stream, "Color3"@, "Wrong opening tag"@);
    match opened {
        Err(error) => (Err(error), inside),
        Ok(_) => {
            let (numbers, behind) = color3_inside(inside);
            match numbers {
                Err(error) => (Err(error), behind),
                Ok(numbers) => {
                    let (closed, rest) = closing_tag(behind, "Color3"@, "Wrong closing tag"@);
                    match closed {
                        Err(error) => (Err(error), rest),
                        Ok(_) => (Ok(numbers), rest),
                    }
                },
            }
        },
    }
}

/// The truth value that a text denotes.
pub open spec fn bool_value(text: Seq<char>) -> Option<bool> {
    if text == "true"@ {
        Some(true)
    } else if text == "false"@ {
        Some(false)
    } else {
        None
    }
}

/// Reading a property value of the given type. The next event is its opening
/// tag.
pub open spec fn property_value(stream: Stream, xml_type: Seq<char>) -> (
    Result<ValueView, ErrorView>,
    Stream,
) {
    if xml_type == "string"@ {
        let (contents, rest) = tag_contents(stream, xml_type);
        match contents {
            Err(error) => (Err(error), rest),
            Ok(text) => (Ok(ValueView::String(text)), rest),
        }
    } else if xml_type == "bool"@ {
        let (contents, rest) = tag_contents(stream, xml_type);
        match contents {
            Err(error) => (Err(error), rest),
            Ok(text) => match bool_value(text) {
                Some(value) => (Ok(ValueView::Bool(value)), rest),
                None => (
                    Err(message("Invalid boolean value, expected true or false"@)),
                    rest,
                ),
            },
        }
    } else if xml_type == "Vector2"@ {
        let (numbers, rest) = scalars_in(stream, xml_type, vector2_tags());
        match numbers {
            Err(error) => (Err(error), rest),
            Ok(numbers) => (Ok(ValueView::Vector2(numbers)), rest),
        }
    } else if xml_type == "Vector3"@ {
        let (numbers, rest) = scalars_in(stream, xml_type, vector3_tags());
        match numbers {
            Err(error) => (Err(error), rest),
            Ok(numbers) => (Ok(ValueView::Vector3(numbers)), rest),
        }
    } else if xml_type == "Color3"@ {
        let (numbers, rest) = color3(stream);
        match numbers {
            Err(error) => (Err(error), rest),
            Ok(numbers) => (Ok(ValueView::Color3(numbers)), rest),
        }
    } else if xml_type == "Color3uint8"@ {
        let (contents, rest) = tag_contents(stream, xml_type);
        match contents {
            Err(error) => (Err(error), rest),
            Ok(text) => match u32_value(text) {
                Some(packed) => (Ok(ValueView::Color3uint8(color_bytes(packed))), rest),
                None => (Err(ErrorView::ParseIntError(u32_error(text))), rest),
            },
        }
    } else if xml_type == "CoordinateFrame"@ {
        let (numbers, rest) = scalars_in(stream, xml_type, cframe_tags());
        match numbers {
            Err(error) => (Err(error), rest),
            Ok(numbers) => (Ok(ValueView::CFrame(numbers)), rest),
        }
    } else {
        (Err(message("Unknown property type"@)), stream)
    }
}

/// Reading numbers adds no events.
pub proof fn lemma_scalars_progress(stream: Stream, tags: Seq<Seq<char>>)
    ensures
        scalars(stream, tags).0 is Ok ==> scalars(stream, tags).1.len() <= stream.len(),
    decreases tags.len(),
{
    if tags.len() > 0 {
        lemma_tag_contents_progress(stream, tags[0]);
        let (_, behind) = scalar(stream, tags[0]);
        lemma_scalars_progress(behind, tags.drop_first());
    }
}

/// Reading a value uses events up.
pub proof fn lemma_property_value_progress(stream: Stream, xml_type: Seq<char>)
    ensures
        property_value(stream, xml_type).0 is Ok ==> property_value(stream, xml_type).1.len()
            < stream.len(),
{
    lemma_tag_contents_progress(stream, xml_type);
    let (_, inside) = opening_tag(stream, xml_type, "Wrong opening tag"@);
    lemma_scalars_progress(inside, vector2_tags());
    lemma_scalars_progress(inside, vector3_tags());
    lemma_scalars_progress(inside, cframe_tags());
    lemma_characters_progress(inside);
    let (_, behind) = characters(inside);
    lemma_scalars_progress(behind, color3_tags());
}

/// The outcome of reading numbers.
pub open spec fn scalars_result(result: Result<Vec<Scalar>, DecodeError>) -> Result<
    Seq<ScalarView>,
    ErrorView,
> {
    match result {
        Ok(numbers) => Ok(scalars_view(numbers@)),
        Err(error) => Err(error@),
    }
}

/// The outcome of reading a value.
pub open spec fn value_view(result: Result<RbxValue, DecodeError>) -> Result<ValueView, ErrorView> {
    match result {
        Ok(value) => Ok(value@),
        Err(error) => Err(error@),
    }
}

/// Reads a tag that holds a floating-point literal.
fn read_scalar(reader: &mut XmlEventReader, tag: &str) -> (number: Result<Scalar, DecodeError>)
    ensures
        ({
            let (expected, rest) = scalar(old(reader)@, tag@);
            &&& final(reader)@ == rest
            &&& match number {
                Ok(number) => expected == Ok::<ScalarView, ErrorView>(number@),
                Err(error) => expected == Err::<ScalarView, ErrorView>(error@),
            }
        }),
{
    match reader.read_tag_contents(tag) {
        Err(error) => Err(error),
        Ok(text) => {
            if is_float(text.as_str()) {
                Ok(Scalar::Literal(text))
            } else {
                Err(DecodeError::from(FloatError { text }))
            }
        },
    }
}

/// Reads tags with the given names, in order, each of which holds a
/// floating-point literal.
fn read_scalars(reader: &mut XmlEventReader, tags: &[&str]) -> (numbers: Result<
    Vec<Scalar>,
    DecodeError,
>)
    ensures
        (scalars_result(numbers), final(reader)@) == scalars(
            old(reader)@,
            tags@.map_values(|tag: &str| tag@),
        ),
{
    let ghost names = tags@.map_values(|tag: &str| tag@);
    let mut numbers: Vec<Scalar> = Vec::new();
    let mut i: usize = 0;
    assert(names.skip(0) =~= names);
    assert(scalars_view(numbers@) =~= Seq::empty());
    while i < tags.len()
        invariant
            i <= tags@.len(),
            names == tags@.map_values(|tag: &str| tag@),
            ({
                let (others, rest) = scalars(reader@, names.skip(i as int));
                scalars(old(reader)@, names) == match others {
                    Ok(others) => (
                        Ok::<Seq<ScalarView>, ErrorView>(scalars_view(numbers@) + others),
                        rest,
                    ),
                    Err(error) => (Err(error), rest),
                }
            }),
        decreases tags@.len() - i,
    {
        assert(names.skip(i as int)[0] == tags@[i as int]@);
        assert(names.skip(i as int).drop_first() =~= names.skip(i + 1));
        let ghost before = numbers@;
        match read_scalar(reader, tags[i]) {
            Err(error) => {
                return Err(error);
            },
            Ok(number) => {
                numbers.push(number);
                assert(scalars_view(numbers@) =~= scalars_view(before) + seq![number@]);
                proof {
                    let (others, _) = scalars(reader@, names.skip(i + 1));
                    if let Ok(others) = others {
                        assert(scalars_view(before) + (seq![number@] + others) =~= scalars_view(
                            numbers@,
                        ) + others);
                    }
                }
            },
        }
        i += 1;
    }
    Ok(numbers)
}

/// Reads a tag of the given name around tags that hold floating-point
/// literals.
fn read_scalars_in(reader: &mut XmlEventReader, name: &str, tags: &[&str]) -> (numbers: Result<
    Vec<Scalar>,
    DecodeError,
>)
    ensures
        (scalars_result(numbers), final(reader)@) == scalars_in(
            old(reader)@,
            name@,
            tags@.map_values(|tag: &str| tag@),
        ),
{
    match reader.expect_start_with_name(name) {
        Err(error) => Err(error),
        Ok(_) => match read_scalars(reader, tags) {
            Err(error) => Err(error),
            Ok(numbers) => match reader.expect_end_with_name(name) {
                Err(error) => Err(error),
                Ok(_) => Ok(numbers),
            },
        },
    }
}

/// One number is read for each tag.
proof fn lemma_scalars_len(stream: Stream, tags: Seq<Seq<char>>)
    ensures
        scalars(stream, tags).0 matches Ok(numbers) ==> numbers.len() == tags.len(),
    decreases tags.len(),
{
    if tags.len() > 0 {
        let (first, behind) = scalar(stream, tags[0]);
        lemma_scalars_len(behind, tags.drop_first());
    }
}

/// A color has three parts inside.
#[verifier::spinoff_prover]
proof fn lemma_color3_inside_len(stream: Stream)
    ensures
        color3_inside(stream).0 matches Ok(numbers) ==> numbers.len() == 3,
{
    let (contents, behind) = characters(stream);
    if contents is Ok {
        lemma_scalars_len(behind, color3_tags());
        if let Some(packed) = u32_value(contents->Ok_0) {
            assert(color_bytes(packed).len() == 3);
        }
    }
}

/// A color has three parts.
#[verifier::spinoff_prover]
proof fn lemma_color3_len(stream: Stream)
    ensures
        color3(stream).0 matches Ok(numbers) ==> numbers.len() == 3,
{
    let inside = opening_tag(stream, "Color3"@, "Wrong opening tag"@).1;
    lemma_color3_inside_len(inside);
    let numbers = color3_inside(inside).0;
    assert(color3(stream).0 is Ok ==> color3(stream).0 == numbers);
}

/// The last number of a list, which is taken off it.
fn take_last(numbers: &mut Vec<Scalar>) -> (number: Scalar)
    requires
        old(numbers)@.len() > 0,
    ensures
        number == old(numbers)@.last(),
        final(numbers)@ == old(numbers)@.drop_last(),
{
    numbers.pop().unwrap()
}

/// A list of two numbers as an array.
fn array2(numbers: Vec<Scalar>) -> (array: [Scalar; 2])
    requires
        numbers@.len() == 2,
    ensures
        array@ == numbers@,
{
    let mut numbers = numbers;
    let b = take_last(&mut numbers);
    let a = take_last(&mut numbers);
    [a, b]
}

/// A list of three numbers as an array.
fn array3(numbers: Vec<Scalar>) -> (array: [Scalar; 3])
    requires
        numbers@.len() == 3,
    ensures
        array@ == numbers@,
{
    let mut numbers = numbers;
    let c = take_last(&mut numbers);
    let b = take_last(&mut numbers);
    let a = take_last(&mut numbers);
    [a, b, c]
}

/// A list of twelve numbers as an array.
fn array12(numbers: Vec<Scalar>) -> (array: [Scalar; 12])
    requires
        numbers@.len() == 12,
    ensures
        array@ == numbers@,
{
    let mut numbers = numbers;
    let l = take_last(&mut numbers);
    let k = take_last(&mut numbers);
    let j = take_last(&mut numbers);
    let i = take_last(&mut numbers);
    let h = take_last(&mut numbers);
    let g = take_last(&mut numbers);
    let f = take_last(&mut numbers);
    let e = take_last(&mut numbers);
    let d = take_last(&mut numbers);
    let c = take_last(&mut numbers);
    let b = take_last(&mut numbers);
    let a = take_last(&mut numbers);
    [a, b, c, d, e, f, g, h, i, j, k, l]
}

/// Takes a packed color apart.
fn unpack_color(packed: u32) -> (bytes: [u8; 3])
    ensures
        bytes@ == color_bytes(packed),
{
    [
        (packed / 0x10000 % 0x100) as u8,
        (packed / 0x100 % 0x100) as u8,
        (packed % 0x100) as u8,
    ]
}

/// Reads the inside of a color: a packed number, or one tag for each part.
fn read_color3_inside(reader: &mut XmlEventReader) -> (numbers: Result<Vec<Scalar>, DecodeError>)
    ensures
        (scalars_result(numbers), final(reader)@) == color3_inside(old(reader)@),
{
    match reader.read_characters() {
        Err(error) => Err(error),
        Ok(text) => {
            if text.as_str().is_empty() {
                let numbers = read_scalars(reader, &["R", "G", "B"]);
                assert(["R", "G", "B"]@.map_values(|tag: &str| tag@) =~= color3_tags());
                return numbers;
            }
            match parse_u32(text.as_str()) {
                Err(error) => Err(DecodeError::from(error)),
                Ok(packed) => {
                    let bytes = unpack_color(packed);
                    let mut numbers: Vec<Scalar> = Vec::new();
                    numbers.push(Scalar::ByteFraction(bytes[0]));
                    numbers.push(Scalar::ByteFraction(bytes[1]));
                    numbers.push(Scalar::ByteFraction(bytes[2]));
                    assert(scalars_view(numbers@) =~= color_bytes(packed).map_values(
                        |byte: u8| ScalarView::ByteFraction(byte),
                    ));
                    Ok(numbers)
                },
            }
        },
    }
}

/// Reads a color whose parts are real numbers.
fn read_color3(reader: &mut XmlEventReader) -> (numbers: Result<Vec<Scalar>, DecodeError>)
    ensures
        (scalars_result(numbers), final(reader)@) == color3(old(reader)@),
{
    match reader.expect_start_with_name("Color3") {
        Err(error) => Err(error),
        Ok(_) => match read_color3_inside(reader) {
            Err(error) => Err(error),
            Ok(numbers) => match reader.expect_end_with_name("Color3") {
                Err(error) => Err(error),
                Ok(_) => Ok(numbers),
            },
        },
    }
}

/// Reads a property value of the given type from the event stream.
#[verifier::spinoff_prover]
#[verifier::rlimit(40)]
pub fn read_value_xml(reader: &mut XmlEventReader, xml_type: &str) -> (value: Result<
    RbxValue,
    DecodeError,
>)
    ensures
        (value_view(value), final(reader)@) == property_value(old(reader)@, xml_type@),
{
    if text_eq(xml_type, "string") {
        match reader.read_tag_contents(xml_type) {
            Err(error) => Err(error),
            Ok(value) => Ok(RbxValue::String { value }),
        }
    } else if text_eq(xml_type, "bool") {
        match reader.read_tag_contents(xml_type) {
            Err(error) => Err(error),
            Ok(text) => {
                if text_eq(text.as_str(), "true") {
                    Ok(RbxValue::Bool { value: true })
                } else if text_eq(text.as_str(), "false") {
                    Ok(RbxValue::Bool { value: false })
                } else {
                    Err(DecodeError::Message("Invalid boolean value, expected true or false"))
                }
            },
        }
    } else if text_eq(xml_type, "Vector2") {
        let numbers = read_scalars_in(reader, xml_type, &["X", "Y"]);
        proof {
            assert(["X", "Y"]@.map_values(|tag: &str| tag@) =~= vector2_tags());
            lemma_scalars_len(opening_tag(old(reader)@, xml_type@, "Wrong opening tag"@).1, vector2_tags());
        }
        match numbers {
            Err(error) => Err(error),
            Ok(numbers) => Ok(RbxValue::Vector2 { value: array2(numbers) }),
        }
    } else if text_eq(xml_type, "Vector3") {
        let numbers = read_scalars_in(reader, xml_type, &["X", "Y", "Z"]);
        proof {
            assert(["X", "Y", "Z"]@.map_values(|tag: &str| tag@) =~= vector3_tags());
            lemma_scalars_len(opening_tag(old(reader)@, xml_type@, "Wrong opening tag"@).1, vector3_tags());
        }
        match numbers {
            Err(error) => Err(error),
            Ok(numbers) => Ok(RbxValue::Vector3 { value: array3(numbers) }),
        }
    } else if text_eq(xml_type, "Color3") {
        let numbers = read_color3(reader);
        proof {
            lemma_color3_len(old(reader)@);
        }
        match numbers {
            Err(error) => Err(error),
            Ok(numbers) => Ok(RbxValue::Color3 { value: array3(numbers) }),
        }
    } else if text_eq(xml_type, "Color3uint8") {
        match reader.read_tag_contents(xml_type) {
            Err(error) => Err(error),
            Ok(text) => match parse_u32(text.as_str()) {
                Err(error) => Err(DecodeError::from(error)),
                Ok(packed) => Ok(RbxValue::Color3uint8 { value: unpack_color(packed) }),
            },
        }
    } else if text_eq(xml_type, "CoordinateFrame") {
        let numbers = read_scalars_in(
            reader,
            xml_type,
            &["X", "Y", "Z", "R00", "R01", "R02", "R10", "R11", "R12", "R20", "R21", "R22"],
        );
        proof {
            assert(
                [
                    "X",
                    "Y",
                    "Z",
                    "R00",
                    "R01",
                    "R02",
                    "R10",
                    "R11",
                    "R12",
                    "R20",
                    "R21",
                    "R22",
                ]@.map_values(|tag: &str| tag@) =~= cframe_tags());
            lemma_scalars_len(opening_tag(old(reader)@, xml_type@, "Wrong opening tag"@).1, cframe_tags());
        }
        match numbers {
            Err(error) => Err(error),
            Ok(numbers) => Ok(RbxValue::CFrame { value: array12(numbers) }),
        }
    } else {
        Err(DecodeError::Message("Unknown property type"))
    }
}

}
