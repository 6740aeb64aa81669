use rbx_xml::error::XmlError;
use rbx_xml::event::{XmlReadEvent, XmlResult};
use rbx_xml::{DecodeError, XmlEventReader};

fn start(name: &str) -> XmlResult {
    Ok(XmlReadEvent::StartElement(name.to_string(), Vec::new()))
}

fn start_with(name: &str, attribute: &str, value: &str) -> XmlResult {
    Ok(XmlReadEvent::StartElement(
        name.to_string(),
        vec![(attribute.to_string(), value.to_string())],
    ))
}

fn end(name: &str) -> XmlResult {
    Ok(XmlReadEvent::EndElement(name.to_string()))
}

fn characters(text: &str) -> XmlResult {
    Ok(XmlReadEvent::Characters(text.to_string()))
}

fn cdata(text: &str) -> XmlResult {
    Ok(XmlReadEvent::CData(text.to_string()))
}

fn fault(text: &str) -> XmlResult {
    Err(text.to_string())
}

fn xml_error(text: &str) -> DecodeError {
    DecodeError::XmlError(XmlError { message: text.to_string() })
}

fn remaining(mut reader: XmlEventReader) -> Vec<XmlResult> {
    let mut items = Vec::new();
    while let Some(item) = reader.next() {
        items.push(item);
    }
    items
}

#[test]
fn source_yields_its_events_without_comments_and_whitespace() {
    let source = b"<?xml version=\"1.0\"?><a>\n  <!-- note --><b k=\"v\" l=\"w\">x<![CDATA[ y ]]></b>\n</a>";
    let items = remaining(XmlEventReader::from_source(source));
    assert_eq!(
        items,
        vec![
            Ok(XmlReadEvent::StartDocument),
            start("a"),
            Ok(XmlReadEvent::StartElement(
                "b".to_string(),
                vec![
                    ("k".to_string(), "v".to_string()),
                    ("l".to_string(), "w".to_string()),
                ],
            )),
            characters("x"),
            cdata(" y "),
            end("b"),
            end("a"),
            Ok(XmlReadEvent::EndDocument),
        ]
    );
}

#[test]
fn whitespace_inside_cdata_is_kept() {
    let mut reader = XmlEventReader::from_source(b"<a><![CDATA[   ]]></a>");
    assert_eq!(reader.next(), Some(Ok(XmlReadEvent::StartDocument)));
    assert_eq!(reader.read_tag_contents("a"), Ok("   ".to_string()));
}

#[test]
fn prefixes_are_no_part_of_names() {
    let source = b"<a xmlns:p=\"u\"><p:b p:k=\"v\"/></a>";
    let items = remaining(XmlEventReader::from_source(source));
    assert_eq!(items[2], start_with("b", "k", "v"));
    assert_eq!(items[3], end("b"));
}

#[test]
fn reading_ends_behind_the_first_fault() {
    let items = remaining(XmlEventReader::from_source(b"<a><b></a>"));
    assert_eq!(items.len(), 4);
    assert!(items[..3].iter().all(|item| item.is_ok()));
    assert!(items[3].is_err());
}

#[test]
fn an_empty_source_is_at_fault() {
    let items = remaining(XmlEventReader::from_source(b""));
    assert!(items.last().unwrap().is_err());
}

#[test]
fn standalone_whitespace_is_left_out() {
    let spaced = vec![
        Ok(XmlReadEvent::Whitespace),
        start("a"),
        Ok(XmlReadEvent::Whitespace),
        Ok(XmlReadEvent::Whitespace),
        end("a"),
    ];
    assert_eq!(
        remaining(XmlEventReader::from_events(spaced)),
        vec![start("a"), end("a")]
    );
}

#[test]
fn peeking_leaves_the_event_to_be_read() {
    let mut reader = XmlEventReader::from_events(vec![start("a"), end("a")]);
    assert_eq!(reader.peek(), Some(&start("a")));
    assert_eq!(reader.peek(), Some(&start("a")));
    assert_eq!(reader.next(), Some(start("a")));
    assert_eq!(reader.peek(), Some(&end("a")));
    assert_eq!(reader.next(), Some(end("a")));
    assert_eq!(reader.peek(), None);
    assert_eq!(reader.next(), None);
    assert_eq!(reader.next(), None);
}

#[test]
fn opening_tags_are_expected_by_name() {
    let mut reader = XmlEventReader::from_events(vec![
        start("a"),
        start("b"),
        end("b"),
        fault("1:1 oops"),
    ]);
    assert_eq!(reader.expect_start_with_name("a"), Ok(()));
    assert_eq!(
        reader.expect_start_with_name("a"),
        Err(DecodeError::Message("Wrong opening tag"))
    );
    assert_eq!(
        reader.expect_start_with_name("b"),
        Err(DecodeError::MalformedDocument)
    );
    assert_eq!(
        reader.expect_start_with_name("b"),
        Err(xml_error("1:1 oops"))
    );
    assert_eq!(
        reader.expect_start_with_name("b"),
        Err(DecodeError::MalformedDocument)
    );
}

#[test]
fn closing_tags_are_expected_by_name() {
    let mut reader = XmlEventReader::from_events(vec![
        end("a"),
        end("b"),
        start("b"),
        fault("1:1 oops"),
    ]);
    assert_eq!(reader.expect_end_with_name("a"), Ok(()));
    assert_eq!(
        reader.expect_end_with_name("a"),
        Err(DecodeError::Message("Wrong closing tag"))
    );
    assert_eq!(
        reader.expect_end_with_name("b"),
        Err(DecodeError::MalformedDocument)
    );
    assert_eq!(reader.expect_end_with_name("b"), Err(xml_error("1:1 oops")));
    assert_eq!(
        reader.expect_end_with_name("b"),
        Err(DecodeError::MalformedDocument)
    );
}

#[test]
fn characters_stop_at_the_next_tag() {
    let mut reader = XmlEventReader::from_events(vec![
        characters("one "),
        cdata("two"),
        characters(" three"),
        end("a"),
    ]);
    assert_eq!(reader.read_characters(), Ok("one two three".to_string()));
    assert_eq!(reader.read_characters(), Ok(String::new()));
    assert_eq!(reader.next(), Some(end("a")));
    assert_eq!(reader.read_characters(), Ok(String::new()));
}

#[test]
fn a_fault_behind_characters_spoils_them() {
    let mut reader =
        XmlEventReader::from_events(vec![characters("one"), fault("2:3 oops"), end("a")]);
    assert_eq!(reader.read_characters(), Err(xml_error("2:3 oops")));
    assert_eq!(reader.next(), Some(end("a")));
}

#[test]
fn divided_text_reads_as_one_text() {
    let mut divided = XmlEventReader::from_events(vec![characters("ab"), cdata("c"), end("t")]);
    let mut joined = XmlEventReader::from_events(vec![cdata("abc"), end("t")]);
    assert_eq!(divided.read_characters(), joined.read_characters());
    assert_eq!(divided.next(), joined.next());
}

#[test]
fn a_tag_reads_as_its_text() {
    let mut reader = XmlEventReader::from_events(vec![
        start_with("a", "k", "v"),
        characters("t"),
        end("a"),
        end("z"),
    ]);
    assert_eq!(reader.read_tag_contents("a"), Ok("t".to_string()));
    assert_eq!(reader.next(), Some(end("z")));
}

#[test]
fn an_empty_tag_reads_as_the_empty_text() {
    let mut reader = XmlEventReader::from_events(vec![start("a"), end("a")]);
    assert_eq!(reader.read_tag_contents("a"), Ok(String::new()));
}

#[test]
fn tags_that_hold_no_text_are_refused() {
    let mut wrong = XmlEventReader::from_events(vec![start("b"), end("b")]);
    assert_eq!(
        wrong.read_tag_contents("a"),
        Err(DecodeError::Message("Got wrong tag name"))
    );
    let mut nested = XmlEventReader::from_events(vec![start("a"), start("b"), end("b"), end("a")]);
    assert_eq!(
        nested.read_tag_contents("a"),
        Err(DecodeError::MalformedDocument)
    );
    let mut cut = XmlEventReader::from_events(vec![start("a"), characters("t")]);
    assert_eq!(
        cut.read_tag_contents("a"),
        Err(DecodeError::MalformedDocument)
    );
    let mut faulty = XmlEventReader::from_events(vec![fault("1:1 oops")]);
    assert_eq!(faulty.read_tag_contents("a"), Err(xml_error("1:1 oops")));
}

#[test]
fn skipping_takes_one_element() {
    let mut reader = XmlEventReader::from_events(vec![
        start("External"),
        characters("x"),
        start("a"),
        start("a"),
        end("a"),
        end("a"),
        Ok(XmlReadEvent::ProcessingInstruction),
        end("External"),
        start("Item"),
    ]);
    assert_eq!(reader.eat_unknown_tag(), Ok(()));
    assert_eq!(reader.next(), Some(start("Item")));
}

#[test]
fn skipping_fails_at_the_end_and_at_faults() {
    let mut cut = XmlEventReader::from_events(vec![start("a"), start("b"), end("b")]);
    assert_eq!(
        cut.eat_unknown_tag(),
        Err(DecodeError::Message("Unexpected EOF"))
    );
    let mut faulty = XmlEventReader::from_events(vec![start("a"), fault("1:1 oops"), end("a")]);
    assert_eq!(faulty.eat_unknown_tag(), Err(xml_error("1:1 oops")));
    assert_eq!(faulty.next(), Some(end("a")));
}

#[test]
fn a_closing_tag_in_front_must_be_made_up_for() {
    let mut reader = XmlEventReader::from_events(vec![
        end("a"),
        start("b"),
        start("c"),
        end("c"),
        end("d"),
    ]);
    assert_eq!(reader.eat_unknown_tag(), Ok(()));
    assert_eq!(reader.next(), Some(end("d")));
    let mut alone = XmlEventReader::from_events(vec![end("a"), start("b"), end("b")]);
    assert_eq!(
        alone.eat_unknown_tag(),
        Err(DecodeError::Message("Unexpected EOF"))
    );
}
