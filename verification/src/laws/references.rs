//! What references refer to.

use vstd::prelude::*;

use crate::deserializer::decoded;
use crate::document::{
    document, first_attribute, instance, instance_body, is_decodable, last_attribute,
    lemma_instance_progress, lemma_property_list_progress, lemma_property_progress,
    lemma_top_level_item_progress, links, opens, property, property_list, top_level, top_level_item,
    Edit, Place,
};
use crate::dom::{has_instance, InstanceView, PropertiesView, RbxId, TreeView, ValueView};
use crate::event::{EventView, Stream};
use crate::laws::scope::{are_edits, law_documents_speak_of_their_own, opened_by};
use crate::laws::trees::{lemma_edits_decoding, lemma_rewrites_decoding};
use crate::reflection::canonical;
use crate::state::{
    apply_edits, apply_rewrites, can_rewrite, fresh_state, instance_id, lemma_rewrites_len,
    resolved, Base, RewriteView, StateView,
};

verus! {

/// Whether a reference is one of the property `name` of the instance `id`.
pub open spec fn concerns(rewrite: RewriteView, id: RbxId, name: Seq<char>) -> bool {
    rewrite.id == id && rewrite.property_name == name
}

/// The properties of the instance `id` once references have been made.
pub open spec fn rewritten(
    properties: PropertiesView,
    referents: Map<Seq<char>, RbxId>,
    rewrites: Seq<RewriteView>,
    id: RbxId,
) -> PropertiesView
    decreases rewrites.len(),
{
    if rewrites.len() == 0 {
        properties
    } else {
        let earlier = rewritten(properties, referents, rewrites.drop_last(), id);
        let last = rewrites.last();
        if last.id == id && referents.contains_key(last.referent_value) {
            earlier.insert(
                last.property_name,
                ValueView::Ref(Some(referents[last.referent_value])),
            )
        } else {
            earlier
        }
    }
}

/// References change the properties of the instances that they are made from,
/// each by itself.
pub proof fn lemma_rewritten(
    tree: TreeView,
    referents: Map<Seq<char>, RbxId>,
    rewrites: Seq<RewriteView>,
    id: RbxId,
)
    requires
        can_rewrite(tree, referents, rewrites),
        has_instance(tree, id),
    ensures
        apply_rewrites(tree, referents, rewrites).len() == tree.len(),
        apply_rewrites(tree, referents, rewrites)[id.index as int] == (InstanceView {
            properties: rewritten(tree[id.index as int].properties, referents, rewrites, id),
            ..tree[id.index as int]
        }),
    decreases rewrites.len(),
{
    if rewrites.len() > 0 {
        let earlier = rewrites.drop_last();
        assert(forall|i: int| 0 <= i < earlier.len() ==> (#[trigger] earlier[i]) == rewrites[i]);
        lemma_rewritten(tree, referents, earlier, id);
    }
}

/// Of references that concern one property, the last whose referent is known
/// decides what it refers to.
proof fn lemma_rewritten_known(
    properties: PropertiesView,
    referents: Map<Seq<char>, RbxId>,
    rewrites: Seq<RewriteView>,
    at: int,
)
    requires
        0 <= at < rewrites.len(),
        referents.contains_key(rewrites[at].referent_value),
        forall|i: int|
            at < i < rewrites.len() && concerns(
                #[trigger] rewrites[i],
                rewrites[at].id,
                rewrites[at].property_name,
            ) ==> !referents.contains_key(rewrites[i].referent_value),
    ensures
        ({
            let name = rewrites[at].property_name;
            let after = rewritten(properties, referents, rewrites, rewrites[at].id);
            &&& after.contains_key(name)
            &&& after[name] == ValueView::Ref(Some(referents[rewrites[at].referent_value]))
        }),
    decreases rewrites.len(),
{
    if at < rewrites.len() - 1 {
        let earlier = rewrites.drop_last();
        assert(earlier[at] == rewrites[at]);
        assert forall|i: int|
            at < i < earlier.len() && concerns(
                #[trigger] earlier[i],
                earlier[at].id,
                earlier[at].property_name,
            ) implies !referents.contains_key(earlier[i].referent_value) by {
            assert(earlier[i] == rewrites[i]);
        }
        lemma_rewritten_known(properties, referents, earlier, at);
        assert(rewrites.last() == rewrites[rewrites.len() - 1]);
    }
}

/// A property that no known reference concerns stays as it is.
proof fn lemma_rewritten_unknown(
    properties: PropertiesView,
    referents: Map<Seq<char>, RbxId>,
    rewrites: Seq<RewriteView>,
    id: RbxId,
    name: Seq<char>,
)
    requires
        forall|i: int|
            0 <= i < rewrites.len() && concerns(#[trigger] rewrites[i], id, name)
                ==> !referents.contains_key(rewrites[i].referent_value),
    ensures
        ({
            let after = rewritten(properties, referents, rewrites, id);
            &&& after.contains_key(name) == properties.contains_key(name)
            &&& after[name] == properties[name]
        }),
    decreases rewrites.len(),
{
    if rewrites.len() > 0 {
        let earlier = rewrites.drop_last();
        assert(forall|i: int| 0 <= i < earlier.len() ==> (#[trigger] earlier[i]) == rewrites[i]);
        lemma_rewritten_unknown(properties, referents, earlier, id, name);
        assert(rewrites.last() == rewrites[rewrites.len() - 1]);
    }
}

/// A property for which references were recorded comes to refer to the instance
/// that the referent of the last of them stands for, of those whose referent
/// stands for any.
pub proof fn law_known_references_are_made(state: StateView, at: int)
    requires
        0 <= at < state.rewrites.len(),
        can_rewrite(state.tree, state.referents, state.rewrites),
        state.referents.contains_key(state.rewrites[at].referent_value),
        forall|i: int|
            at < i < state.rewrites.len() && concerns(
                #[trigger] state.rewrites[i],
                state.rewrites[at].id,
                state.rewrites[at].property_name,
            ) ==> !state.referents.contains_key(state.rewrites[i].referent_value),
    ensures
        ({
            let rewrite = state.rewrites[at];
            let properties = resolved(state).tree[rewrite.id.index as int].properties;
            &&& properties.contains_key(rewrite.property_name)
            &&& properties[rewrite.property_name] == ValueView::Ref(
                Some(state.referents[rewrite.referent_value]),
            )
        }),
{
    let rewrite = state.rewrites[at];
    lemma_rewritten(state.tree, state.referents, state.rewrites, rewrite.id);
    lemma_rewritten_known(
        state.tree[rewrite.id.index as int].properties,
        state.referents,
        state.rewrites,
        at,
    );
}

/// A property for which no reference to a known referent was recorded stays as
/// it is; so does all else of an instance.
pub proof fn law_unknown_references_are_left(state: StateView, id: RbxId, name: Seq<char>)
    requires
        has_instance(state.tree, id),
        can_rewrite(state.tree, state.referents, state.rewrites),
        forall|i: int|
            0 <= i < state.rewrites.len() && concerns(#[trigger] state.rewrites[i], id, name)
                ==> !state.referents.contains_key(state.rewrites[i].referent_value),
    ensures
        ({
            let before = state.tree[id.index as int];
            let after = resolved(state).tree[id.index as int];
            &&& after.properties.contains_key(name) == before.properties.contains_key(name)
            &&& after.properties[name] == before.properties[name]
            &&& after == (InstanceView { properties: after.properties, ..before })
        }),
{
    lemma_rewritten(state.tree, state.referents, state.rewrites, id);
    lemma_rewritten_unknown(
        state.tree[id.index as int].properties,
        state.referents,
        state.rewrites,
        id,
        name,
    );
}


/// References lay the values that they give over those that are there.
proof fn lemma_rewritten_over(
    properties: PropertiesView,
    referents: Map<Seq<char>, RbxId>,
    rewrites: Seq<RewriteView>,
    id: RbxId,
)
    ensures
        rewritten(properties, referents, rewrites, id) == properties.union_prefer_right(
            rewritten(Map::empty(), referents, rewrites, id),
        ),
    decreases rewrites.len(),
{
    if rewrites.len() == 0 {
        assert(properties.union_prefer_right(Map::empty()) =~= properties);
    } else {
        lemma_rewritten_over(properties, referents, rewrites.drop_last(), id);
        assert(rewritten(properties, referents, rewrites, id) =~= properties.union_prefer_right(
            rewritten(Map::empty(), referents, rewrites, id),
        ));
    }
}

/// Making all references once more changes nothing.
pub proof fn law_references_are_made_once(state: StateView)
    requires
        can_rewrite(state.tree, state.referents, state.rewrites),
    ensures
        resolved(resolved(state)) == resolved(state),
{
    let once = resolved(state);
    let twice = resolved(once);
    lemma_rewrites_len(state.tree, state.referents, state.rewrites);
    lemma_rewrites_len(once.tree, state.referents, state.rewrites);
    assert forall|i: int| 0 <= i < once.tree.len() implies twice.tree[i] == (
    #[trigger] once.tree[i]) by {
        if i <= usize::MAX {
            let id = RbxId { index: i as usize };
            lemma_rewritten(state.tree, state.referents, state.rewrites, id);
            lemma_rewritten(once.tree, state.referents, state.rewrites, id);
            let before = state.tree[i].properties;
            let given = rewritten(Map::empty(), state.referents, state.rewrites, id);
            lemma_rewritten_over(before, state.referents, state.rewrites, id);
            lemma_rewritten_over(once.tree[i].properties, state.referents, state.rewrites, id);
            assert(before.union_prefer_right(given).union_prefer_right(given)
                =~= before.union_prefer_right(given));
        } else {
            lemma_rewrites_beyond(state.tree, state.referents, state.rewrites, i);
            lemma_rewrites_beyond(once.tree, state.referents, state.rewrites, i);
        }
    }
    assert(twice.tree =~= once.tree);
}

/// References leave alone what no ID can name.
proof fn lemma_rewrites_beyond(
    tree: TreeView,
    referents: Map<Seq<char>, RbxId>,
    rewrites: Seq<RewriteView>,
    i: int,
)
    requires
        can_rewrite(tree, referents, rewrites),
        usize::MAX < i < tree.len(),
    ensures
        apply_rewrites(tree, referents, rewrites)[i] == tree[i],
    decreases rewrites.len(),
{
    if rewrites.len() > 0 {
        let earlier = rewrites.drop_last();
        assert(forall|k: int| 0 <= k < earlier.len() ==> (#[trigger] earlier[k]) == rewrites[k]);
        lemma_rewrites_beyond(tree, referents, earlier, i);
        lemma_rewrites_len(tree, referents, earlier);
        assert(rewrites.last() == rewrites[rewrites.len() - 1]);
    }
}

/// The instance of the document that a referent stands for once edits have been
/// made: the last that was opened with it.
pub open spec fn stands_for(edits: Seq<Edit>, referent: Seq<char>) -> Option<nat>
    decreases edits.len(),
{
    if edits.len() == 0 {
        None
    } else {
        match edits.last() {
            Edit::Open { referent: Some(known), .. } if known == referent => Some(
                opened_by(edits.drop_last()),
            ),
            _ => stands_for(edits.drop_last(), referent),
        }
    }
}

/// A referent stands for the last instance of the document that was opened with
/// it, and for none where there is no such instance.
pub proof fn law_referents_stand_for_the_last(
    stream: Stream,
    tree: TreeView,
    parent: RbxId,
    referent: Seq<char>,
)
    requires
        document(stream).opened > 0 ==> has_instance(tree, parent),
        tree.len() + document(stream).opened <= usize::MAX,
    ensures
        ({
            let edits = document(stream).edits;
            let base = Base { parent, first: tree.len() };
            let referents = apply_edits(base, fresh_state(tree), edits).referents;
            match stands_for(edits, referent) {
                Some(instance) => {
                    &&& referents.contains_key(referent)
                    &&& referents[referent] == instance_id(base, instance)
                },
                None => !referents.contains_key(referent),
            }
        }),
{
    law_documents_speak_of_their_own(stream);
    lemma_referents(Base { parent, first: tree.len() }, tree, document(stream).edits, referent);
}

pub proof fn lemma_referents(base: Base, tree: TreeView, edits: Seq<Edit>, referent: Seq<char>)
    requires
        base.first == tree.len(),
        opened_by(edits) > 0 ==> has_instance(tree, base.parent),
        are_edits(edits, 0),
        tree.len() + opened_by(edits) <= usize::MAX,
    ensures
        ({
            let referents = apply_edits(base, fresh_state(tree), edits).referents;
            match stands_for(edits, referent) {
                Some(instance) => {
                    &&& referents.contains_key(referent)
                    &&& referents[referent] == instance_id(base, instance)
                },
                None => !referents.contains_key(referent),
            }
        }),
    decreases edits.len(),
{
    if edits.len() > 0 {
        lemma_referents(base, tree, edits.drop_last(), referent);
        lemma_edits_decoding(base, tree, edits.drop_last());
    }
}

/// A document asks that a property refer to an instance by its last link of
/// that property; once the document has been decoded it does, where the
/// referent stands for an instance at all. It is of no matter whether the
/// instance comes before or behind the property.
pub proof fn law_links_are_made(stream: Stream, tree: TreeView, parent: RbxId, at: int)
    requires
        document(stream).opened > 0 ==> has_instance(tree, parent),
        tree.len() + document(stream).opened <= usize::MAX,
        document(stream).outcome is Ok,
        0 <= at < document(stream).edits.len(),
        document(stream).edits[at] is Link,
        forall|i: int|
            at < i < document(stream).edits.len() && (#[trigger] document(
                stream,
            ).edits[i]) is Link ==> {
                ||| document(stream).edits[i]->Link_instance != document(
                    stream,
                ).edits[at]->Link_instance
                ||| document(stream).edits[i]->Link_property != document(
                    stream,
                ).edits[at]->Link_property
            },
    ensures
        ({
            let edits = document(stream).edits;
            let base = Base { parent, first: tree.len() };
            let id = instance_id(base, edits[at]->Link_instance);
            let property = edits[at]->Link_property;
            let properties = decoded(stream, tree, parent).1[id.index as int].properties;
            stands_for(edits, edits[at]->Link_referent) matches Some(instance) ==> {
                &&& properties.contains_key(property)
                &&& properties[property] == ValueView::Ref(Some(instance_id(base, instance)))
            }
        }),
{
    let edits = document(stream).edits;
    let base = Base { parent, first: tree.len() };
    let referent = edits[at]->Link_referent;
    let state = apply_edits(base, fresh_state(tree), edits);
    law_documents_speak_of_their_own(stream);
    lemma_edits_decoding(base, tree, edits);
    lemma_referents(base, tree, edits, referent);
    if stands_for(edits, referent) is Some {
        let k = lemma_link_recorded(base, tree, edits, at);
        law_known_references_are_made(state, k);
    }
}

/// A link is recorded, and later ones are recorded behind it.
proof fn lemma_link_recorded(base: Base, tree: TreeView, edits: Seq<Edit>, at: int) -> (k: int)
    requires
        base.first == tree.len(),
        are_edits(edits, 0),
        tree.len() + opened_by(edits) <= usize::MAX,
        0 <= at < edits.len(),
        edits[at] is Link,
        forall|i: int|
            at < i < edits.len() && (#[trigger] edits[i]) is Link ==> {
                ||| edits[i]->Link_instance != edits[at]->Link_instance
                ||| edits[i]->Link_property != edits[at]->Link_property
            },
    ensures
        ({
            let rewrites = apply_edits(base, fresh_state(tree), edits).rewrites;
            let id = instance_id(base, edits[at]->Link_instance);
            &&& 0 <= k < rewrites.len()
            &&& rewrites[k] == (RewriteView {
                id,
                property_name: edits[at]->Link_property,
                referent_value: edits[at]->Link_referent,
            })
            &&& forall|i: int|
                k < i < rewrites.len() ==> !concerns(
                    #[trigger] rewrites[i],
                    id,
                    edits[at]->Link_property,
                )
        }),
    decreases edits.len(),
{
    let earlier = edits.drop_last();
    let before = apply_edits(base, fresh_state(tree), earlier).rewrites;
    let after = apply_edits(base, fresh_state(tree), edits).rewrites;
    if at == edits.len() - 1 {
        before.len() as int
    } else {
        assert(forall|i: int| 0 <= i < earlier.len() ==> (#[trigger] earlier[i]) == edits[i]);
        let k = lemma_link_recorded(base, tree, earlier, at);
        lemma_link_instance(edits, at, 0);
        if edits.last() is Link {
            assert(edits[edits.len() - 1] is Link);
        }
        k
    }
}

/// A link is one of an instance that is open by then.
proof fn lemma_link_instance(edits: Seq<Edit>, at: int, opened: nat)
    requires
        are_edits(edits, opened),
        0 <= at < edits.len(),
        edits[at] is Link,
    ensures
        edits[at]->Link_instance < opened + opened_by(edits),
    decreases edits.len(),
{
    if at < edits.len() - 1 {
        assert(edits.drop_last()[at] == edits[at]);
        lemma_link_instance(edits.drop_last(), at, opened);
    }
}


/// Properties refer to instances from `low` on and below `high` only.
pub open spec fn refers_within(properties: PropertiesView, low: nat, high: nat) -> bool {
    forall|name: Seq<char>|
        #![trigger properties.contains_key(name)]
        properties.contains_key(name) && properties[name] is Ref ==> {
            properties[name]->Ref_0 matches Some(id) ==> low <= id.index < high
        }
}

/// What instances are equipped with refers to nothing yet.
pub open spec fn fills_are_open(edits: Seq<Edit>) -> bool {
    forall|i: int|
        0 <= i < edits.len() && (#[trigger] edits[i]) is Fill ==> refers_within(
            edits[i]->Fill_properties,
            0,
            0,
        )
}

proof fn lemma_property_list_open(stream: Stream, me: nat, properties: PropertiesView)
    requires
        refers_within(properties, 0, 0),
    ensures
        refers_within(property_list(stream, me, properties).properties, 0, 0),
        forall|i: int|
            0 <= i < property_list(stream, me, properties).edits.len() ==> (
            #[trigger] property_list(stream, me, properties).edits[i]) is Link,
    decreases stream.len(),
{
    if stream.len() > 0 {
        if let Ok(EventView::StartElement { name: xml_type, attributes }) = stream[0] {
            lemma_property_progress(stream, xml_type);
            let read = property(stream, xml_type);
            if let Some(xml_name) = first_attribute(attributes, "name"@) {
                if let Ok(value) = read.value {
                    let name = canonical(xml_name);
                    let more = properties.insert(name, value);
                    assert(value is Ref ==> value->Ref_0 is None);
                    assert(refers_within(more, 0, 0)) by {
                        assert forall|other: Seq<char>|
                            #![trigger more.contains_key(other)]
                            more.contains_key(other) && more[other] is Ref implies more[other]->Ref_0 is None by {
                            if other != name {
                                assert(properties.contains_key(other));
                            }
                        }
                    }
                    lemma_property_list_open(read.rest, me, more);
                    let first = links(me, name, read.referent);
                    let others = property_list(read.rest, me, more).edits;
                    assert(property_list(stream, me, properties).edits == first + others);
                }
            }
        }
    }
}

proof fn lemma_instance_open(stream: Stream, parent: Place, opened: nat)
    requires
        opens(stream, "Item"@),
    ensures
        fills_are_open(instance(stream, parent, opened).edits),
    decreases stream.len(), 0nat,
{
    let attributes = stream[0]->Ok_0->StartElement_attributes;
    let inside = stream.drop_first();
    if let Some(class_name) = last_attribute(attributes, "class"@) {
        let body = instance_body(inside, opened, opened + 1, Map::empty());
        lemma_instance_body_open(inside, opened, opened + 1, Map::empty());
        assert forall|name: Seq<char>|
            #![trigger body.properties.remove("Name"@).contains_key(name)]
            body.properties.remove("Name"@).contains_key(name)
            implies body.properties.contains_key(name) by {}
    }
}

proof fn lemma_instance_body_open(
    stream: Stream,
    me: nat,
    opened: nat,
    properties: PropertiesView,
)
    requires
        refers_within(properties, 0, 0),
    ensures
        refers_within(instance_body(stream, me, opened, properties).properties, 0, 0),
        fills_are_open(instance_body(stream, me, opened, properties).edits),
    decreases stream.len(), 1nat,
{
    if stream.len() > 0 {
        if opens(stream, "Properties"@) {
            let inside = stream.drop_first();
            lemma_property_list_progress(inside, me, properties);
            lemma_property_list_open(inside, me, properties);
            let list = property_list(inside, me, properties);
            if list.outcome is Ok {
                lemma_instance_body_open(list.rest, me, opened, list.properties);
            }
        } else if opens(stream, "Item"@) {
            lemma_instance_progress(stream, Place::Opened(me), opened);
            lemma_instance_open(stream, Place::Opened(me), opened);
            let child = instance(stream, Place::Opened(me), opened);
            if child.outcome is Ok {
                lemma_instance_body_open(child.rest, me, child.opened, properties);
            }
        }
    }
}

proof fn lemma_top_level_open(stream: Stream, opened: nat)
    ensures
        fills_are_open(top_level(stream, opened).edits),
    decreases stream.len(),
{
    if stream.len() > 0 {
        if let Ok(EventView::StartElement { name, .. }) = stream[0] {
            let item = top_level_item(stream, name, opened);
            lemma_top_level_item_progress(stream, name, opened);
            if name == "Item"@ {
                lemma_instance_open(stream, Place::Given, opened);
            }
            if item.outcome is Ok {
                lemma_top_level_open(item.rest, item.opened);
            }
        }
    }
}

proof fn lemma_edits_refer_within(base: Base, tree: TreeView, edits: Seq<Edit>)
    requires
        base.first == tree.len(),
        opened_by(edits) > 0 ==> has_instance(tree, base.parent),
        are_edits(edits, 0),
        fills_are_open(edits),
        tree.len() + opened_by(edits) <= usize::MAX,
    ensures
        ({
            let after = apply_edits(base, fresh_state(tree), edits).tree;
            forall|i: int|
                tree.len() <= i < after.len() ==> refers_within(
                    (#[trigger] after[i]).properties,
                    0,
                    0,
                )
        }),
    decreases edits.len(),
{
    if edits.len() > 0 {
        let earlier = edits.drop_last();
        assert(forall|i: int| 0 <= i < earlier.len() ==> (#[trigger] earlier[i]) == edits[i]);
        lemma_edits_refer_within(base, tree, earlier);
        lemma_edits_decoding(base, tree, earlier);
        assert(edits.last() == edits[edits.len() - 1]);
        let before = apply_edits(base, fresh_state(tree), earlier).tree;
        let after = apply_edits(base, fresh_state(tree), edits).tree;
        assert forall|i: int| tree.len() <= i < after.len() implies refers_within(
            (#[trigger] after[i]).properties,
            0,
            0,
        ) by {
            if i < before.len() {
                assert(refers_within(before[i].properties, 0, 0));
            }
        }
    }
}

proof fn lemma_rewritten_refers_within(
    properties: PropertiesView,
    referents: Map<Seq<char>, RbxId>,
    rewrites: Seq<RewriteView>,
    id: RbxId,
    low: nat,
    high: nat,
)
    requires
        refers_within(properties, 0, 0),
        forall|referent: Seq<char>| #[trigger]
            referents.contains_key(referent) ==> low <= referents[referent].index < high,
    ensures
        refers_within(rewritten(properties, referents, rewrites, id), low, high),
    decreases rewrites.len(),
{
    if rewrites.len() > 0 {
        lemma_rewritten_refers_within(properties, referents, rewrites.drop_last(), id, low, high);
        let earlier = rewritten(properties, referents, rewrites.drop_last(), id);
        let after = rewritten(properties, referents, rewrites, id);
        assert forall|name: Seq<char>|
            #![trigger after.contains_key(name)]
            after.contains_key(name) && after[name] is Ref implies {
            after[name]->Ref_0 matches Some(id) ==> low <= id.index < high
        } by {
            if name != rewrites.last().property_name {
                assert(earlier.contains_key(name));
            }
        }
    }
}

/// The instances that a document puts into a tree refer to instances of the
/// same document, if to any; and where the document is refused, to none.
pub proof fn law_references_stay_inside(stream: Stream, tree: TreeView, parent: RbxId)
    requires
        document(stream).opened > 0 ==> has_instance(tree, parent),
        is_decodable(stream),
        tree.len() + document(stream).opened <= usize::MAX,
    ensures
        ({
            let (outcome, after) = decoded(stream, tree, parent);
            forall|i: int|
                tree.len() <= i < after.len() ==> match outcome {
                    Ok(_) => refers_within(
                        (#[trigger] after[i]).properties,
                        tree.len(),
                        after.len(),
                    ),
                    Err(_) => refers_within(after[i].properties, 0, 0),
                }
        }),
{
    let base = Base { parent, first: tree.len() };
    let edits = document(stream).edits;
    let state = apply_edits(base, fresh_state(tree), edits);
    law_documents_speak_of_their_own(stream);
    lemma_top_level_open(stream.drop_first().drop_first(), 0);
    lemma_edits_decoding(base, tree, edits);
    lemma_edits_refer_within(base, tree, edits);
    let (outcome, after) = decoded(stream, tree, parent);
    if outcome is Ok {
        lemma_rewrites_decoding(base, tree, state, document(stream).opened, state.rewrites);
        assert forall|i: int| tree.len() <= i < after.len() implies refers_within(
            (#[trigger] after[i]).properties,
            tree.len(),
            after.len(),
        ) by {
            let id = RbxId { index: i as usize };
            lemma_rewritten(state.tree, state.referents, state.rewrites, id);
            assert(refers_within(state.tree[i].properties, 0, 0));
            lemma_rewritten_refers_within(
                state.tree[i].properties,
                state.referents,
                state.rewrites,
                id,
                tree.len(),
                after.len(),
            );
        }
    }
}

}
