//! The edits of a document speak of its own instances only.

use vstd::prelude::*;

use crate::document::{
    document, first_attribute, instance, instance_body, instance_name, last_attribute,
    lemma_instance_progress, lemma_property_list_progress, lemma_property_progress,
    lemma_top_level_item_progress, links, opens, property, property_list, top_level, top_level_item,
    Edit, Place,
};
use crate::dom::PropertiesView;
use crate::event::{EventView, Stream};
use crate::reflection::canonical;

verus! {

/// How many instances edits open.
pub open spec fn opened_by(edits: Seq<Edit>) -> nat
    decreases edits.len(),
{
    if edits.len() == 0 {
        0
    } else if edits.last() is Open {
        opened_by(edits.drop_last()) + 1
    } else {
        opened_by(edits.drop_last())
    }
}

/// A place among the first `opened` instances of the document, or the given
/// one.
pub open spec fn is_place(place: Place, opened: nat) -> bool {
    match place {
        Place::Given => true,
        Place::Opened(instance) => instance < opened,
    }
}

/// With `opened` instances opened before it, an edit speaks of no others.
pub open spec fn is_edit(edit: Edit, opened: nat) -> bool {
    match edit {
        Edit::Open { parent, .. } => is_place(parent, opened),
        Edit::Fill { instance, .. } => instance < opened,
        Edit::Describe { .. } => true,
        Edit::Link { instance, .. } => instance < opened,
    }
}

/// With `opened` instances opened before them, edits speak of no instance that
/// is not open yet.
pub open spec fn are_edits(edits: Seq<Edit>, opened: nat) -> bool
    decreases edits.len(),
{
    edits.len() == 0 || {
        &&& are_edits(edits.drop_last(), opened)
        &&& is_edit(edits.last(), opened + opened_by(edits.drop_last()))
    }
}

/// Edits one after another.
pub proof fn lemma_edits_concat(a: Seq<Edit>, b: Seq<Edit>, opened: nat)
    requires
        are_edits(a, opened),
        are_edits(b, opened + opened_by(a)),
    ensures
        are_edits(a + b, opened),
        opened_by(a + b) == opened_by(a) + opened_by(b),
    decreases b.len(),
{
    if b.len() == 0 {
        assert(a + b =~= a);
    } else {
        assert((a + b).drop_last() =~= a + b.drop_last());
        lemma_edits_concat(a, b.drop_last(), opened);
    }
}

/// One edit by itself.
pub proof fn lemma_edits_one(edit: Edit, opened: nat)
    requires
        is_edit(edit, opened),
    ensures
        are_edits(seq![edit], opened),
        opened_by(seq![edit]) == (if edit is Open {
            1nat
        } else {
            0nat
        }),
{
    let edits = seq![edit];
    assert(edits.drop_last() =~= Seq::<Edit>::empty());
    assert(opened_by(edits.drop_last()) == 0);
    assert(are_edits(edits.drop_last(), opened));
}

/// Edits are links of the instance `me` and nothing else.
spec fn are_links(edits: Seq<Edit>, me: nat) -> bool {
    forall|i: int|
        0 <= i < edits.len() ==> (#[trigger] edits[i]) is Link && edits[i]->Link_instance == me
}

proof fn lemma_links_edits(edits: Seq<Edit>, me: nat, opened: nat)
    requires
        me < opened,
        are_links(edits, me),
    ensures
        are_edits(edits, opened),
        opened_by(edits) == 0,
    decreases edits.len(),
{
    if edits.len() > 0 {
        let earlier = edits.drop_last();
        assert(forall|i: int| 0 <= i < earlier.len() ==> (#[trigger] earlier[i]) == edits[i]);
        lemma_links_edits(earlier, me, opened);
        assert(edits.last() == edits[edits.len() - 1]);
    }
}

proof fn lemma_property_list_links(stream: Stream, me: nat, properties: PropertiesView)
    ensures
        are_links(property_list(stream, me, properties).edits, me),
    decreases stream.len(),
{
    if stream.len() > 0 {
        if let Ok(EventView::StartElement { name: xml_type, attributes }) = stream[0] {
            lemma_property_progress(stream, xml_type);
            let read = property(stream, xml_type);
            if let Some(xml_name) = first_attribute(attributes, "name"@) {
                if let Ok(value) = read.value {
                    let name = canonical(xml_name);
                    let more = properties.insert(name, value);
                    lemma_property_list_links(read.rest, me, more);
                    let first = links(me, name, read.referent);
                    let others = property_list(read.rest, me, more).edits;
                    assert(property_list(stream, me, properties).edits == first + others);
                }
            }
        }
    }
}

proof fn lemma_instance_edits(stream: Stream, parent: Place, opened: nat)
    requires
        opens(stream, "Item"@),
        is_place(parent, opened),
    ensures
        ({
            let read = instance(stream, parent, opened);
            are_edits(read.edits, opened) && read.opened == opened + opened_by(read.edits)
        }),
    decreases stream.len(), 0nat,
{
    let attributes = stream[0]->Ok_0->StartElement_attributes;
    let inside = stream.drop_first();
    if let Some(class_name) = last_attribute(attributes, "class"@) {
        let open = Edit::Open { parent, referent: last_attribute(attributes, "referent"@) };
        let body = instance_body(inside, opened, opened + 1, Map::empty());
        lemma_edits_one(open, opened);
        lemma_instance_body_edits(inside, opened, opened + 1, Map::empty());
        lemma_edits_concat(seq![open], body.edits, opened);
        if body.outcome is Ok {
            if let Some(name) = instance_name(body.properties, class_name) {
                let fill = Edit::Fill {
                    instance: opened,
                    name,
                    class_name,
                    properties: body.properties.remove("Name"@),
                };
                let edits = seq![open] + body.edits;
                lemma_edits_one(fill, body.opened);
                lemma_edits_concat(edits, seq![fill], opened);
                assert(edits + seq![fill] =~= edits.push(fill));
            }
        }
    }
}

proof fn lemma_instance_body_edits(
    stream: Stream,
    me: nat,
    opened: nat,
    properties: PropertiesView,
)
    requires
        me < opened,
    ensures
        ({
            let body = instance_body(stream, me, opened, properties);
            are_edits(body.edits, opened) && body.opened == opened + opened_by(body.edits)
        }),
    decreases stream.len(), 1nat,
{
    if stream.len() > 0 {
        if opens(stream, "Properties"@) {
            let inside = stream.drop_first();
            lemma_property_list_progress(inside, me, properties);
            let list = property_list(inside, me, properties);
            lemma_property_list_links(inside, me, properties);
            lemma_links_edits(list.edits, me, opened);
            if list.outcome is Ok {
                lemma_instance_body_edits(list.rest, me, opened, list.properties);
                lemma_edits_concat(
                    list.edits,
                    instance_body(list.rest, me, opened, list.properties).edits,
                    opened,
                );
            }
        } else if opens(stream, "Item"@) {
            lemma_instance_progress(stream, Place::Opened(me), opened);
            lemma_instance_edits(stream, Place::Opened(me), opened);
            let child = instance(stream, Place::Opened(me), opened);
            if child.outcome is Ok {
                lemma_instance_body_edits(child.rest, me, child.opened, properties);
                lemma_edits_concat(
                    child.edits,
                    instance_body(child.rest, me, child.opened, properties).edits,
                    opened,
                );
            }
        }
    }
}

proof fn lemma_top_level_edits(stream: Stream, opened: nat)
    ensures
        ({
            let read = top_level(stream, opened);
            are_edits(read.edits, opened) && read.opened == opened + opened_by(read.edits)
        }),
    decreases stream.len(),
{
    if stream.len() > 0 {
        if let Ok(EventView::StartElement { name, .. }) = stream[0] {
            let item = top_level_item(stream, name, opened);
            lemma_top_level_item_progress(stream, name, opened);
            if name == "Item"@ {
                lemma_instance_edits(stream, Place::Given, opened);
            } else if item.edits.len() > 0 {
                lemma_edits_one(item.edits[0], opened);
                assert(item.edits =~= seq![item.edits[0]]);
            }
            if item.outcome is Ok {
                lemma_top_level_edits(item.rest, item.opened);
                lemma_edits_concat(
                    item.edits,
                    top_level(item.rest, item.opened).edits,
                    opened,
                );
            }
        }
    }
}

/// A document, be it whole or refused halfway, speaks of the instances that it
/// has opened and of the place that it is decoded into, and of nothing else;
/// and it opens as many instances as it says.
pub proof fn law_documents_speak_of_their_own(stream: Stream)
    ensures
        are_edits(document(stream).edits, 0),
        document(stream).opened == opened_by(document(stream).edits),
{
    lemma_top_level_edits(stream.drop_first().drop_first(), 0);
}

}
