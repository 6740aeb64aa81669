//! Where a document breaks off: what is told, and what has been done by then.

use vstd::prelude::*;

use crate::deserializer::decoded;
use crate::document::{
    document, instance, instance_body, is_decodable, opens, property, property_list, top_level,
    Edit, Parsed, ParsedBody, ParsedProperties, Place, Stop,
};
use crate::dom::{has_instance, PropertiesView, RbxId, TreeView};
use crate::error::ErrorView;
use crate::event::{AttributeView, EventView, ItemView, Stream};
use crate::laws::complaints::{is_no_end, is_no_start, misfit};
use crate::laws::models::{
    all_properties, are_parts, are_properties, body_events, body_size, edits_of_body,
    edits_of_parts, gathered, instances_of, is_body, law_bodies_are_read_in_turn,
    law_parts_are_read_in_turn, law_properties_are_read_in_turn, law_version_four_is_read,
    lemma_parts_differ, links_of, outermost, parts_events, properties_events, says_version_four,
    sizes, PartModel,
};
use crate::laws::reading::{end, start};
use crate::laws::rendering::{
    first_says, is_silent, last_says, law_the_first_attribute_counts, law_the_last_attribute_counts,
    BodyModel, PropertyModel,
};
use crate::laws::round_trip::{ids_of, lemma_parts_placed, placed_all, with_children};
use crate::reader::skip_tag;
use crate::state::{fresh_state, Base};

verus! {

/// Properties and nothing else may stand in a list of them. What does not fit is
/// told and left unread.
pub proof fn law_lists_hold_properties(
    me: nat,
    properties: PropertiesView,
    xml_type: Seq<char>,
    attributes: Seq<AttributeView>,
    other: Seq<char>,
    first: ItemView,
    rest: Stream,
)
    ensures
        is_silent(attributes, "name"@) ==> refuses(
            seq![start(xml_type, attributes)] + rest,
            me,
            properties,
            "Missing 'name' for property tag"@,
        ),
        other != "Properties"@ ==> refuses(
            seq![end(other)] + rest,
            me,
            properties,
            "Unexpected end element, expected Properties"@,
        ),
        is_no_start(first) && is_no_end(first) ==> refuses(
            seq![first] + rest,
            me,
            properties,
            "Unexpected thing in Properties section"@,
        ),
        refuses(Seq::empty(), me, properties, "Unexpected EOF"@),
{
    law_the_first_attribute_counts(attributes, "name"@, Seq::empty());
    assert((seq![start(xml_type, attributes)] + rest)[0] == start(xml_type, attributes));
    assert((seq![end(other)] + rest)[0] == end(other));
    assert((seq![first] + rest)[0] == first);
}

/// A list of properties is refused with the message as it stands.
pub open spec fn refuses(
    stream: Stream,
    me: nat,
    properties: PropertiesView,
    text: Seq<char>,
) -> bool {
    property_list(stream, me, properties) == (ParsedProperties {
        outcome: Err(ErrorView::Message(text)),
        edits: Seq::empty(),
        properties,
        rest: stream,
    })
}

/// A property that cannot be read is told for the whole list, and what was read
/// before it stays.
pub proof fn law_lists_stop_at_bad_properties(
    models: Seq<PropertyModel>,
    me: nat,
    properties: PropertiesView,
    xml_type: Seq<char>,
    attributes: Seq<AttributeView>,
    name: Seq<char>,
    inside: Stream,
)
    requires
        are_properties(models),
        first_says(attributes, "name"@, name),
        property(seq![start(xml_type, attributes)] + inside, xml_type).value is Err,
    ensures
        ({
            let bad = seq![start(xml_type, attributes)] + inside;
            let read = property(bad, xml_type);
            property_list(properties_events(models) + bad, me, properties) == (ParsedProperties {
                outcome: Err(read.value->Err_0),
                edits: links_of(models, me),
                properties: gathered(properties, models, Map::empty()),
                rest: read.rest,
            })
        }),
{
    let bad = seq![start(xml_type, attributes)] + inside;
    assert(bad[0] == start(xml_type, attributes));
    law_properties_are_read_in_turn(models, me, properties, bad);
    law_the_first_attribute_counts(attributes, "name"@, name);
    assert(links_of(models, me) + Seq::<Edit>::empty() =~= links_of(models, me));
}

/// An instance stops as it stands.
pub open spec fn stops(
    stream: Stream,
    me: nat,
    opened: nat,
    properties: PropertiesView,
    stop: Stop,
) -> bool {
    instance_body(stream, me, opened, properties) == (ParsedBody {
        outcome: Err(stop),
        edits: Seq::empty(),
        opened,
        properties,
        rest: stream,
    })
}

/// Lists of properties and instances may stand inside an instance, and no other
/// tags. What is no tag at all, a fault among it, has no answer.
pub proof fn law_instances_hold_tags(
    me: nat,
    opened: nat,
    properties: PropertiesView,
    attributes: Seq<AttributeView>,
    other: Seq<char>,
    first: ItemView,
    rest: Stream,
)
    ensures
        other != "Properties"@ && other != "Item"@ ==> stops(
            seq![start(other, attributes)] + rest,
            me,
            opened,
            properties,
            Stop::Error(ErrorView::Message("Unexpected tag inside instance"@)),
        ),
        other != "Item"@ ==> stops(
            seq![end(other)] + rest,
            me,
            opened,
            properties,
            Stop::Error(ErrorView::Message("Unexpected closing tag, expected Item"@)),
        ),
        is_no_start(first) && is_no_end(first) ==> stops(
            seq![first] + rest,
            me,
            opened,
            properties,
            Stop::Unexpected,
        ),
        stops(
            Seq::empty(),
            me,
            opened,
            properties,
            Stop::Error(ErrorView::Message("Unexpected EOF"@)),
        ),
{
    assert((seq![start(other, attributes)] + rest)[0] == start(other, attributes));
    assert((seq![end(other)] + rest)[0] == end(other));
    assert((seq![first] + rest)[0] == first);
}

/// A list of properties that is refused stops the instance that it stands in.
pub proof fn law_bad_lists_stop_instances(
    me: nat,
    opened: nat,
    properties: PropertiesView,
    attributes: Seq<AttributeView>,
    inside: Stream,
)
    requires
        property_list(inside, me, properties).outcome is Err,
    ensures
        ({
            let list = property_list(inside, me, properties);
            instance_body(
                seq![start("Properties"@, attributes)] + inside,
                me,
                opened,
                properties,
            ) == (ParsedBody {
                outcome: Err(Stop::Error(list.outcome->Err_0)),
                edits: list.edits,
                opened,
                properties: list.properties,
                rest: list.rest,
            })
        }),
{
    let stream = seq![start("Properties"@, attributes)] + inside;
    assert(stream[0] == start("Properties"@, attributes));
    assert(stream.drop_first() =~= inside);
}

/// An instance that does not say its class is refused, and none is opened.
pub proof fn law_instances_have_a_class(
    parent: Place,
    opened: nat,
    attributes: Seq<AttributeView>,
    inside: Stream,
)
    requires
        is_silent(attributes, "class"@),
    ensures
        instance(seq![start("Item"@, attributes)] + inside, parent, opened) == (Parsed {
            outcome: Err(Stop::Error(ErrorView::Message("Missing 'class'"@))),
            edits: Seq::empty(),
            opened,
            rest: inside,
        }),
{
    let stream = seq![start("Item"@, attributes)] + inside;
    assert(stream[0] == start("Item"@, attributes));
    assert(stream.drop_first() =~= inside);
    law_the_last_attribute_counts(attributes, "class"@, Seq::empty());
}

/// An instance that is still open: its attributes, what they say, and what
/// stands inside it so far.
pub struct OpenModel {
    pub class_name: Seq<char>,
    pub referent: Option<Seq<char>>,
    pub attributes: Seq<AttributeView>,
    pub body: Seq<BodyModel>,
}

/// Whether an open instance is written down so far.
pub open spec fn is_open(model: OpenModel) -> bool {
    &&& last_says(model.attributes, "class"@, model.class_name)
    &&& match model.referent {
        Some(referent) => last_says(model.attributes, "referent"@, referent),
        None => is_silent(model.attributes, "referent"@),
    }
    &&& is_body(model.body)
}

/// Open instances, each inside the one before it, written down so far.
pub open spec fn open_events(frames: Seq<OpenModel>) -> Stream
    decreases frames.len(),
{
    if frames.len() == 0 {
        Seq::empty()
    } else {
        seq![start("Item"@, frames[0].attributes)] + body_events(frames[0].body) + open_events(
            frames.drop_first(),
        )
    }
}

/// How many instances there are among open ones and inside them.
pub open spec fn open_size(frames: Seq<OpenModel>) -> nat
    decreases frames.len(),
{
    if frames.len() == 0 {
        0
    } else {
        1 + body_size(frames[0].body) + open_size(frames.drop_first())
    }
}

/// What open instances have done so far: each is opened, blank, and what stands
/// inside it is done, but none is named, classed or equipped.
pub open spec fn open_edits(frames: Seq<OpenModel>, parent: Place, opened: nat) -> Seq<Edit>
    decreases frames.len(),
{
    if frames.len() == 0 {
        Seq::empty()
    } else {
        seq![Edit::Open { parent, referent: frames[0].referent }] + edits_of_body(
            frames[0].body,
            opened,
            opened + 1,
        ) + open_edits(
            frames.drop_first(),
            Place::Opened(opened),
            opened + 1 + body_size(frames[0].body),
        )
    }
}

/// The number of the innermost of open instances.
pub open spec fn innermost(frames: Seq<OpenModel>, opened: nat) -> nat
    decreases frames.len(),
{
    if frames.len() <= 1 {
        opened
    } else {
        innermost(frames.drop_first(), opened + 1 + body_size(frames[0].body))
    }
}

/// The properties that the innermost of open instances has gathered.
pub open spec fn innermost_properties(frames: Seq<OpenModel>) -> PropertiesView {
    gathered(Map::empty(), all_properties(frames.last().body), Map::empty())
}

/// What [`instance_body`] yields, to be reasoned with as a whole.
#[verifier::opaque]
spec fn body_at(
    stream: Stream,
    me: nat,
    opened: nat,
    properties: PropertiesView,
) -> ParsedBody {
    instance_body(stream, me, opened, properties)
}

/// What [`instance`] yields, to be reasoned with as a whole.
#[verifier::opaque]
spec fn instance_at(stream: Stream, parent: Place, opened: nat) -> Parsed {
    instance(stream, parent, opened)
}

/// What stops an instance stops all that it stands in, at that place, with
/// nothing undone.
pub proof fn law_stops_come_through(
    frames: Seq<OpenModel>,
    parent: Place,
    opened: nat,
    tail: Stream,
)
    requires
        frames.len() > 0,
        forall|i: int| 0 <= i < frames.len() ==> is_open(#[trigger] frames[i]),
        instance_body(
            tail,
            innermost(frames, opened),
            opened + open_size(frames),
            innermost_properties(frames),
        ).outcome is Err,
    ensures
        ({
            let stopped = instance_body(
                tail,
                innermost(frames, opened),
                opened + open_size(frames),
                innermost_properties(frames),
            );
            &&& opens(open_events(frames) + tail, "Item"@)
            &&& instance(open_events(frames) + tail, parent, opened) == (Parsed {
                outcome: stopped.outcome,
                edits: open_edits(frames, parent, opened) + stopped.edits,
                opened: stopped.opened,
                rest: stopped.rest,
            })
        }),
{
    assert(body_at(
        tail,
        innermost(frames, opened),
        opened + open_size(frames),
        innermost_properties(frames),
    ).outcome is Err) by {
        reveal(body_at);
    }
    lemma_stops(frames, parent, opened, tail);
    reveal(body_at);
    reveal(instance_at);
}

#[verifier::spinoff_prover]
proof fn lemma_stops(frames: Seq<OpenModel>, parent: Place, opened: nat, tail: Stream)
    requires
        frames.len() > 0,
        forall|i: int| 0 <= i < frames.len() ==> is_open(#[trigger] frames[i]),
        body_at(
            tail,
            innermost(frames, opened),
            opened + open_size(frames),
            innermost_properties(frames),
        ).outcome is Err,
    ensures
        ({
            let stopped = body_at(
                tail,
                innermost(frames, opened),
                opened + open_size(frames),
                innermost_properties(frames),
            );
            &&& opens(open_events(frames) + tail, "Item"@)
            &&& instance_at(open_events(frames) + tail, parent, opened) == (Parsed {
                outcome: stopped.outcome,
                edits: open_edits(frames, parent, opened) + stopped.edits,
                opened: stopped.opened,
                rest: stopped.rest,
            })
        }),
    decreases frames.len(),
{
    let frame = frames[0];
    let others = frames.drop_first();
    let later = open_events(others) + tail;
    let next = opened + 1 + body_size(frame.body);
    let properties = gathered(Map::empty(), all_properties(frame.body), Map::empty());
    let stopped = body_at(
        tail,
        innermost(frames, opened),
        opened + open_size(frames),
        innermost_properties(frames),
    );
    let open = Edit::Open { parent, referent: frame.referent };
    let done = edits_of_body(frame.body, opened, opened + 1);
    assert(is_open(frame));
    assert(open_events(frames) + tail =~= seq![start("Item"@, frame.attributes)] + (body_events(
        frame.body,
    ) + later));
    if others.len() == 0 {
        assert(later =~= tail);
        assert(frames.last() == frame);
        assert(open_size(others) == 0);
        lemma_open_instance(frame, parent, opened, tail);
        assert(open_edits(others, Place::Opened(opened), next) =~= Seq::empty());
        assert(seq![open] + (done + stopped.edits) =~= open_edits(frames, parent, opened)
            + stopped.edits);
    } else {
        assert(forall|i: int| 0 <= i < others.len() ==> (#[trigger] others[i]) == frames[i + 1]);
        assert(others.last() == frames.last());
        lemma_stops(others, Place::Opened(opened), next, tail);
        lemma_stopped_child(later, opened, next, properties);
        lemma_open_instance(frame, parent, opened, later);
        assert(seq![open] + (done + (open_edits(others, Place::Opened(opened), next)
            + stopped.edits)) =~= open_edits(frames, parent, opened) + stopped.edits);
    }
}

/// An open instance stops where what stands behind its inside does.
#[verifier::spinoff_prover]
proof fn lemma_open_instance(frame: OpenModel, parent: Place, opened: nat, later: Stream)
    requires
        is_open(frame),
        body_at(
            later,
            opened,
            opened + 1 + body_size(frame.body),
            gathered(Map::empty(), all_properties(frame.body), Map::empty()),
        ).outcome is Err,
    ensures
        ({
            let rest = body_at(
                later,
                opened,
                opened + 1 + body_size(frame.body),
                gathered(Map::empty(), all_properties(frame.body), Map::empty()),
            );
            let stream = seq![start("Item"@, frame.attributes)] + (body_events(frame.body) + later);
            let open = Edit::Open { parent, referent: frame.referent };
            let done = edits_of_body(frame.body, opened, opened + 1);
            &&& opens(stream, "Item"@)
            &&& instance_at(stream, parent, opened) == (Parsed {
                outcome: rest.outcome,
                edits: seq![open] + (done + rest.edits),
                opened: rest.opened,
                rest: rest.rest,
            })
        }),
{
    let inside = body_events(frame.body) + later;
    let stream = seq![start("Item"@, frame.attributes)] + inside;
    reveal(body_at);
    reveal(instance_at);
    assert(stream[0] == start("Item"@, frame.attributes));
    assert(stream.drop_first() =~= inside);
    law_the_last_attribute_counts(frame.attributes, "class"@, frame.class_name);
    if let Some(referent) = frame.referent {
        law_the_last_attribute_counts(frame.attributes, "referent"@, referent);
    } else {
        law_the_last_attribute_counts(frame.attributes, "referent"@, Seq::empty());
    }
    law_bodies_are_read_in_turn(frame.body, opened, opened + 1, Map::empty(), later);
}

/// An instance that stops stops the one that it stands in.
proof fn lemma_stopped_child(stream: Stream, me: nat, opened: nat, properties: PropertiesView)
    requires
        opens(stream, "Item"@),
        instance_at(stream, Place::Opened(me), opened).outcome is Err,
    ensures
        ({
            let child = instance_at(stream, Place::Opened(me), opened);
            body_at(stream, me, opened, properties) == (ParsedBody {
                outcome: child.outcome,
                edits: child.edits,
                opened: child.opened,
                properties,
                rest: child.rest,
            })
        }),
{
    reveal(body_at);
    reveal(instance_at);
    reveal_strlit("Item");
    reveal_strlit("Properties");
    assert("Item"@.len() != "Properties"@.len());
}

/// The top level stops as it stands.
pub open spec fn ends(stream: Stream, opened: nat, error: ErrorView, rest: Stream) -> bool {
    top_level(stream, opened) == (Parsed {
        outcome: Err(Stop::Error(error)),
        edits: Seq::empty(),
        opened,
        rest,
    })
}

/// Instances, metadata and notes on what is outside may stand at the top level,
/// and nothing else.
pub proof fn law_the_top_level_holds_parts(
    opened: nat,
    attributes: Seq<AttributeView>,
    other: Seq<char>,
    first: ItemView,
    rest: Stream,
)
    ensures
        other != "Item"@ && other != "External"@ && other != "Meta"@ ==> ends(
            seq![start(other, attributes)] + rest,
            opened,
            ErrorView::Message("Unexpected top-level start tag"@),
            seq![start(other, attributes)] + rest,
        ),
        other != "roblox"@ ==> ends(
            seq![end(other)] + rest,
            opened,
            ErrorView::Message("Unexpected closing tag"@),
            seq![end(other)] + rest,
        ),
        first is Ok && is_no_start(first) && is_no_end(first) && !(first->Ok_0 is EndDocument)
            ==> ends(
            seq![first] + rest,
            opened,
            ErrorView::Message("Unexpected top-level stuff"@),
            seq![first] + rest,
        ),
        first is Err ==> ends(
            seq![first] + rest,
            opened,
            ErrorView::XmlError(first->Err_0),
            rest,
        ),
        ends(Seq::empty(), opened, ErrorView::MalformedDocument, Seq::empty()),
{
    assert((seq![start(other, attributes)] + rest)[0] == start(other, attributes));
    assert((seq![end(other)] + rest)[0] == end(other));
    assert((seq![first] + rest)[0] == first);
    assert((seq![first] + rest).drop_first() =~= rest);
}

/// An instance that stops ends the top level, and so does a note on what is
/// outside that breaks off.
pub proof fn law_bad_parts_end_the_top_level(opened: nat, stream: Stream)
    requires
        stream.len() > 0,
    ensures
        opens(stream, "Item"@) && instance(stream, Place::Given, opened).outcome is Err
            ==> top_level(stream, opened) == instance(stream, Place::Given, opened),
        opens(stream, "External"@) && skip_tag(stream, 0).0 is Err ==> ends(
            stream,
            opened,
            skip_tag(stream, 0).0->Err_0,
            skip_tag(stream, 0).1,
        ),
{
    lemma_parts_differ();
}

/// The end of the document is the end of its top level too.
pub proof fn law_documents_may_just_end(opened: nat, rest: Stream)
    ensures
        top_level(seq![Ok(EventView::EndDocument)] + rest, opened) == (Parsed {
            outcome: Ok(()),
            edits: Seq::empty(),
            opened,
            rest: seq![Ok::<_, Seq<char>>(EventView::EndDocument)] + rest,
        }),
{
    assert((seq![Ok::<_, Seq<char>>(EventView::EndDocument)] + rest)[0] == Ok::<_, Seq<char>>(
        EventView::EndDocument,
    ));
}

/// A piece of metadata says its name and holds one text, and all else is
/// refused.
pub proof fn law_metadata_holds_one_text(
    opened: nat,
    attributes: Seq<AttributeView>,
    name: Seq<char>,
    value: Seq<char>,
    other: Seq<char>,
    first: ItemView,
    rest: Stream,
)
    ensures
        is_silent(attributes, "name"@) ==> ends(
            seq![start("Meta"@, attributes)] + rest,
            opened,
            ErrorView::Message("Meta missing 'name' field"@),
            rest,
        ),
        last_says(attributes, "name"@, name) && !(first is Ok && first->Ok_0 is Characters) ==> ends(
            seq![start("Meta"@, attributes), first] + rest,
            opened,
            misfit(first),
            rest,
        ),
        last_says(attributes, "name"@, name) && is_no_end(first) ==> ends(
            seq![start("Meta"@, attributes), Ok(EventView::Characters(value)), first] + rest,
            opened,
            misfit(first),
            rest,
        ),
        last_says(attributes, "name"@, name) && other != "Meta"@ ==> ends(
            seq![start("Meta"@, attributes), Ok(EventView::Characters(value)), end(other)] + rest,
            opened,
            ErrorView::Message("Incorrect closing tag, expected 'Meta'"@),
            rest,
        ),
{
    lemma_parts_differ();
    law_the_last_attribute_counts(attributes, "name"@, name);
    let opening = start("Meta"@, attributes);
    let text = Ok::<EventView, Seq<char>>(EventView::Characters(value));
    let bare = seq![opening] + rest;
    assert(bare[0] == opening);
    assert(bare.drop_first() =~= rest);
    let empty = seq![opening, first] + rest;
    assert(empty[0] == opening);
    assert(empty.drop_first()[0] == first);
    assert(empty.drop_first().drop_first() =~= rest);
    let open = seq![opening, text, first] + rest;
    assert(open[0] == opening);
    assert(open.drop_first()[0] == text);
    assert(open.drop_first().drop_first()[0] == first);
    assert(open.drop_first().drop_first().drop_first() =~= rest);
    let wrong = seq![opening, text, end(other)] + rest;
    assert(wrong[0] == opening);
    assert(wrong.drop_first()[0] == text);
    assert(wrong.drop_first().drop_first()[0] == end(other));
    assert(wrong.drop_first().drop_first().drop_first() =~= rest);
}

/// A document starts as such, goes on with the tag `roblox`, and is refused
/// where it does not.
pub proof fn law_documents_start_with_their_tag(
    attributes: Seq<AttributeView>,
    other: Seq<char>,
    first: ItemView,
    rest: Stream,
)
    ensures
        ({
            let opening = Ok::<EventView, Seq<char>>(EventView::StartDocument);
            &&& first != opening ==> is_refused(seq![first] + rest, misfit(first), rest)
            &&& is_no_start(first) ==> is_refused(
                seq![opening, first] + rest,
                misfit(first),
                rest,
            )
            &&& other != "roblox"@ ==> is_refused(
                seq![opening, start(other, attributes)] + rest,
                ErrorView::Message("Missing <roblox>"@),
                rest,
            )
            &&& is_refused(Seq::empty(), ErrorView::MalformedDocument, Seq::empty())
            &&& is_refused(seq![opening], ErrorView::MalformedDocument, Seq::empty())
        }),
{
    let opening = Ok::<EventView, Seq<char>>(EventView::StartDocument);
    let one = seq![first] + rest;
    assert(one[0] == first);
    assert(one.drop_first() =~= rest);
    let two = seq![opening, first] + rest;
    assert(two[0] == opening);
    assert(two.drop_first()[0] == first);
    assert(two.drop_first().drop_first() =~= rest);
    let wrong = seq![opening, start(other, attributes)] + rest;
    assert(wrong[0] == opening);
    assert(wrong.drop_first()[0] == start(other, attributes));
    assert(wrong.drop_first().drop_first() =~= rest);
    assert(seq![opening].drop_first() =~= Seq::empty());
}

/// A document of another version is refused, and so is one that does not say its
/// version, whatever else its outermost tag says.
pub proof fn law_other_versions_are_refused(
    attributes: Seq<AttributeView>,
    i: int,
    rest: Stream,
)
    ensures
        ({
            let opening = Ok::<EventView, Seq<char>>(EventView::StartDocument);
            let stream = seq![opening, outermost(attributes)] + rest;
            &&& 0 <= i < attributes.len() && attributes[i].name == "version"@ && attributes[i].value
                != "4"@ ==> is_refused(stream, ErrorView::Message("Not version 4"@), rest)
            &&& is_silent(attributes, "version"@) ==> is_refused(
                stream,
                ErrorView::Message("No version field"@),
                rest,
            )
        }),
{
    let opening = Ok::<EventView, Seq<char>>(EventView::StartDocument);
    let stream = seq![opening, outermost(attributes)] + rest;
    assert(stream[0] == opening);
    assert(stream.drop_first()[0] == outermost(attributes));
    assert(stream.drop_first().drop_first() =~= rest);
}

/// A document is refused before anything is done.
pub open spec fn is_refused(stream: Stream, error: ErrorView, rest: Stream) -> bool {
    document(stream) == (Parsed {
        outcome: Err(Stop::Error(error)),
        edits: Seq::empty(),
        opened: 0,
        rest,
    })
}

/// A document that breaks off at its top level does what stands before.
#[verifier::spinoff_prover]
proof fn lemma_broken_documents(
    attributes: Seq<AttributeView>,
    parts: Seq<PartModel>,
    error: ErrorView,
    tail: Stream,
    rest: Stream,
)
    requires
        says_version_four(attributes),
        are_parts(parts),
        ends(tail, sizes(instances_of(parts)), error, rest),
    ensures
        ({
            let read = document(
                seq![Ok(EventView::StartDocument), outermost(attributes)] + (parts_events(parts)
                    + tail),
            );
            &&& read.outcome == Err::<(), Stop>(Stop::Error(error))
            &&& read.edits == edits_of_parts(parts, 0)
        }),
{
    law_version_four_is_read(attributes, parts_events(parts) + tail);
    law_parts_are_read_in_turn(parts, 0, tail);
    assert(edits_of_parts(parts, 0) + Seq::<Edit>::empty() =~= edits_of_parts(parts, 0));
}

/// A document that breaks off at its top level is refused with what is told
/// there, and the tree has all instances before it, with their references left
/// open.
#[verifier::spinoff_prover]
pub proof fn law_broken_documents_keep_what_was_read(
    attributes: Seq<AttributeView>,
    parts: Seq<PartModel>,
    error: ErrorView,
    tail: Stream,
    rest: Stream,
    tree: TreeView,
    parent: RbxId,
)
    requires
        says_version_four(attributes),
        are_parts(parts),
        ends(tail, sizes(instances_of(parts)), error, rest),
        has_instance(tree, parent),
        tree.len() + sizes(instances_of(parts)) <= usize::MAX,
    ensures
        ({
            let stream = seq![Ok(EventView::StartDocument), outermost(attributes)] + (parts_events(
                parts,
            ) + tail);
            let models = instances_of(parts);
            &&& is_decodable(stream)
            &&& decoded(stream, tree, parent) == (
                Err::<(), ErrorView>(error),
                with_children(tree, parent, ids_of(models, tree.len())) + placed_all(
                    models,
                    parent,
                    tree.len(),
                    Map::empty(),
                ),
            )
        }),
{
    let base = Base { parent, first: tree.len() };
    lemma_broken_documents(attributes, parts, error, tail, rest);
    lemma_parts_placed(base, fresh_state(tree), parts, 0);
}

/// A document that breaks off inside an instance stops with what stops that
/// one: it has no answer where that one has none, and is refused with the same
/// error otherwise. All that was opened by then stays.
#[verifier::spinoff_prover]
pub proof fn law_broken_instances_break_documents(
    attributes: Seq<AttributeView>,
    parts: Seq<PartModel>,
    frames: Seq<OpenModel>,
    tail: Stream,
    tree: TreeView,
    parent: RbxId,
)
    requires
        says_version_four(attributes),
        are_parts(parts),
        frames.len() > 0,
        forall|i: int| 0 <= i < frames.len() ==> is_open(#[trigger] frames[i]),
        instance_body(
            tail,
            innermost(frames, sizes(instances_of(parts))),
            sizes(instances_of(parts)) + open_size(frames),
            innermost_properties(frames),
        ).outcome is Err,
    ensures
        ({
            let opened = sizes(instances_of(parts));
            let stopped = instance_body(
                tail,
                innermost(frames, opened),
                opened + open_size(frames),
                innermost_properties(frames),
            );
            let stream = seq![Ok(EventView::StartDocument), outermost(attributes)] + (parts_events(
                parts,
            ) + (open_events(frames) + tail));
            &&& document(stream) == (Parsed {
                outcome: stopped.outcome,
                edits: edits_of_parts(parts, 0) + (open_edits(frames, Place::Given, opened)
                    + stopped.edits),
                opened: stopped.opened,
                rest: stopped.rest,
            })
            &&& is_decodable(stream) <==> stopped.outcome->Err_0 is Error
            &&& stopped.outcome->Err_0 is Error ==> decoded(stream, tree, parent).0 == Err::<
                (),
                ErrorView,
            >(stopped.outcome->Err_0->Error_0)
        }),
{
    let opened = sizes(instances_of(parts));
    let broken = open_events(frames) + tail;
    assert(body_at(
        tail,
        innermost(frames, opened),
        opened + open_size(frames),
        innermost_properties(frames),
    ) == instance_body(
        tail,
        innermost(frames, opened),
        opened + open_size(frames),
        innermost_properties(frames),
    )) by {
        reveal(body_at);
    }
    lemma_stops(frames, Place::Given, opened, tail);
    lemma_stopped_document(attributes, parts, broken);
}

/// A document stops where its last instance does.
#[verifier::spinoff_prover]
proof fn lemma_stopped_document(
    attributes: Seq<AttributeView>,
    parts: Seq<PartModel>,
    broken: Stream,
)
    requires
        says_version_four(attributes),
        are_parts(parts),
        opens(broken, "Item"@),
        instance_at(broken, Place::Given, sizes(instances_of(parts))).outcome is Err,
    ensures
        ({
            let stopped = instance_at(broken, Place::Given, sizes(instances_of(parts)));
            let stream = seq![Ok(EventView::StartDocument), outermost(attributes)] + (parts_events(
                parts,
            ) + broken);
            document(stream) == (Parsed {
                edits: edits_of_parts(parts, 0) + stopped.edits,
                ..stopped
            })
        }),
{
    reveal(instance_at);
    law_version_four_is_read(attributes, parts_events(parts) + broken);
    law_parts_are_read_in_turn(parts, 0, broken);
    assert(top_level(broken, sizes(instances_of(parts))) == instance(
        broken,
        Place::Given,
        sizes(instances_of(parts)),
    ));
}

/// The name of an instance is a text, and an instance is refused whose last
/// property of that name is none.
pub proof fn law_names_are_texts(
    model: OpenModel,
    parent: Place,
    opened: nat,
    rest: Stream,
)
    requires
        is_open(model),
        ({
            let properties = gathered(Map::empty(), all_properties(model.body), Map::empty());
            properties.contains_key("Name"@) && !(properties["Name"@] is String)
        }),
    ensures
        instance(
            seq![start("Item"@, model.attributes)] + (body_events(model.body) + (seq![
                end("Item"@),
            ] + rest)),
            parent,
            opened,
        ) == (Parsed {
            outcome: Err(Stop::Error(ErrorView::Message("Name must be a string"@))),
            edits: open_edits(seq![model], parent, opened),
            opened: opened + open_size(seq![model]),
            rest,
        }),
{
    let behind = seq![end("Item"@)] + rest;
    let inside = body_events(model.body) + behind;
    let stream = seq![start("Item"@, model.attributes)] + inside;
    let done = edits_of_body(model.body, opened, opened + 1);
    let open = Edit::Open { parent, referent: model.referent };
    assert(stream[0] == start("Item"@, model.attributes));
    assert(stream.drop_first() =~= inside);
    assert(behind.drop_first() =~= rest);
    law_the_last_attribute_counts(model.attributes, "class"@, model.class_name);
    if let Some(referent) = model.referent {
        law_the_last_attribute_counts(model.attributes, "referent"@, referent);
    } else {
        law_the_last_attribute_counts(model.attributes, "referent"@, Seq::empty());
    }
    law_bodies_are_read_in_turn(model.body, opened, opened + 1, Map::empty(), behind);
    assert(done + Seq::<Edit>::empty() =~= done);
    let frames = seq![model];
    assert(frames.drop_first() =~= Seq::empty());
    assert(open_edits(frames.drop_first(), Place::Opened(opened), opened + 1 + body_size(model.body))
        =~= Seq::empty());
    assert(open_size(frames.drop_first()) == 0);
    assert(open_edits(frames, parent, opened) =~= seq![open] + done);
}

}
