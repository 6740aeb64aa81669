//! How whole models are written down, and what reading them back yields.

use vstd::prelude::*;

use crate::document::{
    document, first_attribute, instance, instance_body, instance_name, lemma_instance_progress,
    lemma_property_list_progress, lemma_property_progress, links, opens, property, property_list,
    top_level, top_level_item, version_fault, Edit, Parsed, ParsedBody, ParsedProperties,
    ParsedProperty, Place,
};
use crate::dom::{PropertiesView, RbxId, ValueView};
use crate::event::{AttributeView, EventView, ItemView, Stream};
use crate::laws::reading::{end, is_balanced, law_skipping_takes_one_element, start};
use crate::laws::rendering::{
    element, held_referent, held_value, is_property, is_silent, last_says, law_names_are_kept,
    law_properties_read_back, law_the_first_attribute_counts, law_the_last_attribute_counts,
    property_events, stored_name, xml_type, BodyModel, InstanceModel, PropertyModel,
};
use crate::reflection::canonical;

verus! {

/// Properties, written down one after another.
pub open spec fn properties_events(models: Seq<PropertyModel>) -> Stream
    decreases models.len(),
{
    if models.len() == 0 {
        Seq::empty()
    } else {
        property_events(models[0]) + properties_events(models.drop_first())
    }
}

/// The fewest attributes that an instance is written with.
pub open spec fn instance_attributes(model: InstanceModel) -> Seq<AttributeView> {
    let class = AttributeView { name: "class"@, value: model.class_name };
    match model.referent {
        Some(referent) => seq![class, AttributeView { name: "referent"@, value: referent }],
        None => seq![class],
    }
}

/// The attributes of an instance say its class, and its referent where it has
/// one, behind all else that they say of these.
pub open spec fn says_instance(model: InstanceModel) -> bool {
    &&& last_says(model.attributes, "class"@, model.class_name)
    &&& match model.referent {
        Some(referent) => last_says(model.attributes, "referent"@, referent),
        None => is_silent(model.attributes, "referent"@),
    }
}

/// An instance, written down.
pub open spec fn instance_events(model: InstanceModel) -> Stream
    decreases model, 1nat,
{
    element("Item"@, model.attributes, body_events(model.body))
}

/// The inside of an instance, written down: lists of properties and instances in
/// any order.
pub open spec fn body_events(body: Seq<BodyModel>) -> Stream
    decreases body, 0nat,
{
    if body.len() == 0 {
        Seq::empty()
    } else {
        (match body[0] {
            BodyModel::Properties { attributes, properties } => element(
                "Properties"@,
                attributes,
                properties_events(properties),
            ),
            BodyModel::Item(model) => instance_events(model),
        }) + body_events(body.drop_first())
    }
}

/// All properties of an instance, from all of its lists.
pub open spec fn all_properties(body: Seq<BodyModel>) -> Seq<PropertyModel>
    decreases body.len(),
{
    if body.len() == 0 {
        Seq::empty()
    } else {
        let others = all_properties(body.drop_first());
        match body[0] {
            BodyModel::Properties { properties, .. } => properties + others,
            BodyModel::Item(_) => others,
        }
    }
}

/// The instances right below an instance.
pub open spec fn items_of(body: Seq<BodyModel>) -> Seq<InstanceModel>
    decreases body,
{
    if body.len() == 0 {
        Seq::empty()
    } else {
        let others = items_of(body.drop_first());
        match body[0] {
            BodyModel::Properties { .. } => others,
            BodyModel::Item(model) => seq![model] + others,
        }
    }
}

/// The properties that an instance comes to have, given what referents stand
/// for, on top of those that it has: of properties with the same name the last
/// one stays.
pub open spec fn gathered(
    properties: PropertiesView,
    models: Seq<PropertyModel>,
    known: Map<Seq<char>, RbxId>,
) -> PropertiesView
    decreases models.len(),
{
    if models.len() == 0 {
        properties
    } else {
        gathered(
            properties.insert(stored_name(models[0].name), held_value(models[0].held, known)),
            models.drop_first(),
            known,
        )
    }
}

/// The name of an instance: the text of the last property that is called so, or
/// else its class.
pub open spec fn model_name(models: Seq<PropertyModel>, class_name: Seq<char>) -> Seq<char>
    decreases models.len(),
{
    if models.len() == 0 {
        class_name
    } else if models.last().name == "Name"@ {
        models.last().held->Value_0->String_0
    } else {
        model_name(models.drop_last(), class_name)
    }
}

/// Properties that are written down.
pub open spec fn are_properties(models: Seq<PropertyModel>) -> bool {
    forall|i: int| 0 <= i < models.len() ==> is_property(#[trigger] models[i])
}

/// No two properties have the same name.
pub open spec fn are_distinct(models: Seq<PropertyModel>) -> bool {
    forall|i: int, k: int|
        0 <= i < k < models.len() ==> stored_name((#[trigger] models[i]).name) != stored_name(
            (#[trigger] models[k]).name,
        )
}

/// Whether an instance, with all below it, is written down.
pub open spec fn is_model(model: InstanceModel) -> bool
    decreases model, 1nat,
{
    says_instance(model) && is_body(model.body)
}

/// Whether the inside of an instance is written down.
pub open spec fn is_body(body: Seq<BodyModel>) -> bool
    decreases body, 0nat,
{
    body.len() == 0 || {
        &&& match body[0] {
            BodyModel::Properties { properties, .. } => are_properties(properties),
            BodyModel::Item(model) => is_model(model),
        }
        &&& is_body(body.drop_first())
    }
}

/// Whether instances are written down.
pub open spec fn are_models(models: Seq<InstanceModel>) -> bool
    decreases models.len(),
{
    models.len() == 0 || is_model(models[0]) && are_models(models.drop_first())
}

/// How many instances there are, with all below them.
pub open spec fn size(model: InstanceModel) -> nat
    decreases model, 1nat,
{
    1 + body_size(model.body)
}

/// How many instances stand inside an instance.
pub open spec fn body_size(body: Seq<BodyModel>) -> nat
    decreases body, 0nat,
{
    if body.len() == 0 {
        0
    } else {
        (match body[0] {
            BodyModel::Properties { .. } => 0,
            BodyModel::Item(model) => size(model),
        }) + body_size(body.drop_first())
    }
}

/// How many instances there are, with all below them.
pub open spec fn sizes(models: Seq<InstanceModel>) -> nat
    decreases models.len(),
{
    if models.len() == 0 {
        0
    } else {
        size(models[0]) + sizes(models.drop_first())
    }
}

/// What properties ask to be linked.
pub open spec fn links_of(models: Seq<PropertyModel>, me: nat) -> Seq<Edit>
    decreases models.len(),
{
    if models.len() == 0 {
        Seq::empty()
    } else {
        (match held_referent(models[0].held) {
            Some(referent) => seq![
                Edit::Link { instance: me, property: stored_name(models[0].name), referent },
            ],
            None => Seq::empty(),
        }) + links_of(models.drop_first(), me)
    }
}

/// What an instance does to a tree.
pub open spec fn edits_of(model: InstanceModel, parent: Place, opened: nat) -> Seq<Edit>
    decreases model, 1nat,
{
    (seq![Edit::Open { parent, referent: model.referent }] + edits_of_body(
        model.body,
        opened,
        opened + 1,
    )).push(
        Edit::Fill {
            instance: opened,
            name: model_name(all_properties(model.body), model.class_name),
            class_name: model.class_name,
            properties: gathered(Map::empty(), all_properties(model.body), Map::empty()).remove(
                "Name"@,
            ),
        },
    )
}

/// What stands inside an instance does to a tree.
pub open spec fn edits_of_body(body: Seq<BodyModel>, me: nat, opened: nat) -> Seq<Edit>
    decreases body, 0nat,
{
    if body.len() == 0 {
        Seq::empty()
    } else {
        match body[0] {
            BodyModel::Properties { properties, .. } => links_of(properties, me) + edits_of_body(
                body.drop_first(),
                me,
                opened,
            ),
            BodyModel::Item(model) => edits_of(model, Place::Opened(me), opened) + edits_of_body(
                body.drop_first(),
                me,
                opened + size(model),
            ),
        }
    }
}

/// What instances do to a tree.
pub open spec fn edits_of_all(models: Seq<InstanceModel>, parent: Place, opened: nat) -> Seq<Edit>
    decreases models.len(),
{
    if models.len() == 0 {
        Seq::empty()
    } else {
        edits_of(models[0], parent, opened) + edits_of_all(
            models.drop_first(),
            parent,
            opened + size(models[0]),
        )
    }
}

/// `Name` is stored under its own name, and nothing else is.
pub proof fn lemma_name_is_stored(name: Seq<char>)
    ensures
        stored_name(name) == "Name"@ <==> name == "Name"@,
        canonical(name) == stored_name(name),
{
    reveal_strlit("Size");
    reveal_strlit("size");
    reveal_strlit("Name");
    assert("Size"@[0] != "Name"@[0]);
    assert("size"@[0] != "Name"@[0]);
    law_names_are_kept(name);
}

/// Properties without the first one.
pub proof fn lemma_are_properties_tail(models: Seq<PropertyModel>)
    requires
        are_properties(models),
        models.len() > 0,
    ensures
        is_property(models[0]),
        are_properties(models.drop_first()),
        are_distinct(models) ==> are_distinct(models.drop_first()),
        are_distinct(models) ==> forall|i: int|
            0 <= i < models.drop_first().len() ==> stored_name(
                (#[trigger] models.drop_first()[i]).name,
            ) != stored_name(models[0].name),
{
    let others = models.drop_first();
    assert(forall|i: int| 0 <= i < others.len() ==> (#[trigger] others[i]) == models[i + 1]);
}

/// What [`property_list`] yields, to be reasoned with as a whole.
#[verifier::opaque]
spec fn list_at(stream: Stream, me: nat, properties: PropertiesView) -> ParsedProperties {
    property_list(stream, me, properties)
}

/// What [`instance_body`] yields, to be reasoned with as a whole.
#[verifier::opaque]
spec fn body_at(
    stream: Stream,
    me: nat,
    opened: nat,
    properties: PropertiesView,
) -> ParsedBody {
    instance_body(stream, me, opened, properties)
}

/// A list goes on behind a property.
proof fn lemma_list_step(
    stream: Stream,
    me: nat,
    properties: PropertiesView,
    attributes: Seq<AttributeView>,
    xml_type: Seq<char>,
    xml_name: Seq<char>,
    value: ValueView,
    referent: Option<Seq<char>>,
    others: Stream,
)
    requires
        stream.len() > 0,
        stream[0] == start(xml_type, attributes),
        first_attribute(attributes, "name"@) == Some(xml_name),
        property(stream, xml_type) == (ParsedProperty { value: Ok(value), referent, rest: others }),
    ensures
        ({
            let name = canonical(xml_name);
            let later = list_at(others, me, properties.insert(name, value));
            list_at(stream, me, properties) == (ParsedProperties {
                edits: links(me, name, referent) + later.edits,
                ..later
            })
        }),
{
    reveal(list_at);
    lemma_property_progress(stream, xml_type);
}

/// An instance goes on behind a list of properties.
proof fn lemma_body_list_step(
    stream: Stream,
    me: nat,
    opened: nat,
    properties: PropertiesView,
    first: Seq<Edit>,
    more: PropertiesView,
    later: Stream,
)
    requires
        opens(stream, "Properties"@),
        property_list(stream.drop_first(), me, properties) == (ParsedProperties {
            outcome: Ok(()),
            edits: first,
            properties: more,
            rest: later,
        }),
    ensures
        ({
            let after = body_at(later, me, opened, more);
            body_at(stream, me, opened, properties) == (ParsedBody {
                edits: first + after.edits,
                ..after
            })
        }),
{
    reveal(body_at);
    lemma_property_list_progress(stream.drop_first(), me, properties);
}

/// An instance goes on behind another one that stands in it.
proof fn lemma_body_item_step(
    stream: Stream,
    me: nat,
    opened: nat,
    properties: PropertiesView,
    first: Seq<Edit>,
    next: nat,
    later: Stream,
)
    requires
        opens(stream, "Item"@),
        instance(stream, Place::Opened(me), opened) == (Parsed {
            outcome: Ok(()),
            edits: first,
            opened: next,
            rest: later,
        }),
    ensures
        ({
            let after = body_at(later, me, next, properties);
            body_at(stream, me, opened, properties) == (ParsedBody {
                edits: first + after.edits,
                ..after
            })
        }),
{
    reveal(body_at);
    lemma_instance_progress(stream, Place::Opened(me), opened);
    reveal_strlit("Item");
    reveal_strlit("Properties");
    assert("Item"@.len() != "Properties"@.len());
}

/// Properties are read one after another, each as it was written, up to what
/// stands behind them.
pub proof fn law_properties_are_read_in_turn(
    models: Seq<PropertyModel>,
    me: nat,
    properties: PropertiesView,
    behind: Stream,
)
    requires
        are_properties(models),
    ensures
        ({
            let rest = property_list(behind, me, gathered(properties, models, Map::empty()));
            property_list(properties_events(models) + behind, me, properties) == (
            ParsedProperties { edits: links_of(models, me) + rest.edits, ..rest })
        }),
{
    lemma_properties_in_turn(models, me, properties, behind);
    reveal(list_at);
}

#[verifier::spinoff_prover]
proof fn lemma_properties_in_turn(
    models: Seq<PropertyModel>,
    me: nat,
    properties: PropertiesView,
    behind: Stream,
)
    requires
        are_properties(models),
    ensures
        ({
            let rest = list_at(behind, me, gathered(properties, models, Map::empty()));
            list_at(properties_events(models) + behind, me, properties) == (
            ParsedProperties { edits: links_of(models, me) + rest.edits, ..rest })
        }),
    decreases models.len(),
{
    let stream = properties_events(models) + behind;
    let rest = list_at(behind, me, gathered(properties, models, Map::empty()));
    if models.len() == 0 {
        assert(stream =~= behind);
        assert(Seq::<Edit>::empty() + rest.edits =~= rest.edits);
    } else {
        let model = models[0];
        let others = properties_events(models.drop_first()) + behind;
        lemma_are_properties_tail(models);
        assert(stream =~= property_events(model) + others);
        assert(stream[0] == start(xml_type(model.held), model.attributes));
        law_the_first_attribute_counts(model.attributes, "name"@, model.name);
        lemma_name_is_stored(model.name);
        law_properties_read_back(model, others);
        let value = held_value(model.held, Map::empty());
        let more = properties.insert(stored_name(model.name), value);
        lemma_properties_in_turn(models.drop_first(), me, more, behind);
        let later = list_at(others, me, more);
        let first = links(me, stored_name(model.name), held_referent(model.held));
        lemma_list_step(
            stream,
            me,
            properties,
            model.attributes,
            xml_type(model.held),
            model.name,
            value,
            held_referent(model.held),
            others,
        );
        assert(first + (links_of(models.drop_first(), me) + rest.edits) =~= links_of(models, me)
            + rest.edits);
    }
}

proof fn lemma_list_reads(
    models: Seq<PropertyModel>,
    me: nat,
    properties: PropertiesView,
    rest: Stream,
)
    requires
        are_properties(models),
    ensures
        property_list(
            properties_events(models) + (seq![end("Properties"@)] + rest),
            me,
            properties,
        ) == (ParsedProperties {
            outcome: Ok(()),
            edits: links_of(models, me),
            properties: gathered(properties, models, Map::empty()),
            rest,
        }),
{
    let closed = seq![end("Properties"@)] + rest;
    law_properties_are_read_in_turn(models, me, properties, closed);
    assert(closed.drop_first() =~= rest);
    assert(links_of(models, me) + Seq::<Edit>::empty() =~= links_of(models, me));
}

/// Properties in two parts are gathered as they are as a whole.
pub proof fn lemma_gathered_concat(
    properties: PropertiesView,
    a: Seq<PropertyModel>,
    b: Seq<PropertyModel>,
    known: Map<Seq<char>, RbxId>,
)
    ensures
        gathered(properties, a + b, known) == gathered(gathered(properties, a, known), b, known),
    decreases a.len(),
{
    if a.len() == 0 {
        assert(a + b =~= b);
    } else {
        assert((a + b).drop_first() =~= a.drop_first() + b);
        lemma_gathered_concat(
            properties.insert(stored_name(a[0].name), held_value(a[0].held, known)),
            a.drop_first(),
            b,
            known,
        );
    }
}

/// The last property is gathered last.
proof fn lemma_gathered_last(
    properties: PropertiesView,
    models: Seq<PropertyModel>,
    known: Map<Seq<char>, RbxId>,
)
    requires
        models.len() > 0,
    ensures
        gathered(properties, models, known) == gathered(
            properties,
            models.drop_last(),
            known,
        ).insert(stored_name(models.last().name), held_value(models.last().held, known)),
{
    let one = seq![models.last()];
    assert(models =~= models.drop_last() + one);
    lemma_gathered_concat(properties, models.drop_last(), one, known);
    let earlier = gathered(properties, models.drop_last(), known);
    let more = earlier.insert(
        stored_name(models.last().name),
        held_value(models.last().held, known),
    );
    assert(one.drop_first() =~= Seq::empty());
    assert(gathered(more, one.drop_first(), known) == more);
}

proof fn lemma_model_name(
    properties: PropertiesView,
    models: Seq<PropertyModel>,
    class_name: Seq<char>,
)
    requires
        are_properties(models),
        !properties.contains_key("Name"@),
    ensures
        instance_name(gathered(properties, models, Map::empty()), class_name) == Some(
            model_name(models, class_name),
        ),
    decreases models.len(),
{
    if models.len() > 0 {
        let earlier = models.drop_last();
        let last = models.last();
        assert(forall|i: int| 0 <= i < earlier.len() ==> (#[trigger] earlier[i]) == models[i]);
        assert(is_property(models[models.len() - 1]));
        lemma_gathered_last(properties, models, Map::empty());
        lemma_name_is_stored(last.name);
        lemma_model_name(properties, earlier, class_name);
    }
}

/// The fewest attributes say what an instance is.
pub proof fn law_few_attributes_say_the_instance(model: InstanceModel)
    requires
        model.attributes == instance_attributes(model),
    ensures
        says_instance(model),
{
    reveal_strlit("class");
    reveal_strlit("referent");
    assert("class"@.len() != "referent"@.len());
    let attributes = instance_attributes(model);
    assert(attributes[0].name == "class"@);
    if model.referent is Some {
        assert(attributes[1].name == "referent"@);
    }
}

/// An instance reads back as it was written: it is opened at its place, with its
/// referent; what stands inside it is read in turn; and it is named, classed and
/// equipped at its end.
#[verifier::spinoff_prover]
#[verifier::rlimit(30)]
pub proof fn law_instances_read_back(
    model: InstanceModel,
    parent: Place,
    opened: nat,
    rest: Stream,
)
    requires
        is_model(model),
    ensures
        opens(instance_events(model) + rest, "Item"@),
        instance(instance_events(model) + rest, parent, opened) == (Parsed {
            outcome: Ok(()),
            edits: edits_of(model, parent, opened),
            opened: opened + size(model),
            rest,
        }),
    decreases model, 1nat,
{
    let stream = instance_events(model) + rest;
    let behind = seq![end("Item"@)] + rest;
    let inside = stream.drop_first();
    assert(stream[0] == start("Item"@, model.attributes));
    law_the_last_attribute_counts(model.attributes, "class"@, model.class_name);
    if let Some(referent) = model.referent {
        law_the_last_attribute_counts(model.attributes, "referent"@, referent);
    } else {
        law_the_last_attribute_counts(model.attributes, "referent"@, Seq::empty());
    }
    assert(inside =~= body_events(model.body) + behind);
    lemma_bodies_in_turn(model.body, opened, opened + 1, Map::empty(), behind);
    reveal(body_at);
    let properties = gathered(Map::empty(), all_properties(model.body), Map::empty());
    let body = instance_body(inside, opened, opened + 1, Map::empty());
    assert(behind.drop_first() =~= rest);
    assert(instance_body(behind, opened, opened + size(model), properties) == (ParsedBody {
        outcome: Ok(()),
        edits: Seq::empty(),
        opened: opened + size(model),
        properties,
        rest,
    }));
    assert(edits_of_body(model.body, opened, opened + 1) + Seq::<Edit>::empty() =~= edits_of_body(
        model.body,
        opened,
        opened + 1,
    ));
    assert(body == (ParsedBody {
        outcome: Ok(()),
        edits: edits_of_body(model.body, opened, opened + 1),
        opened: opened + size(model),
        properties,
        rest,
    }));
    lemma_body_properties(model.body);
    lemma_model_name(Map::empty(), all_properties(model.body), model.class_name);
}

/// All properties of an instance that is written down are.
pub proof fn lemma_body_properties(body: Seq<BodyModel>)
    requires
        is_body(body),
    ensures
        are_properties(all_properties(body)),
    decreases body.len(),
{
    if body.len() > 0 {
        lemma_body_properties(body.drop_first());
    }
}

/// What stands inside an instance is read in turn, lists of properties and
/// instances in any order, up to what stands behind.
pub proof fn law_bodies_are_read_in_turn(
    body: Seq<BodyModel>,
    me: nat,
    opened: nat,
    properties: PropertiesView,
    behind: Stream,
)
    requires
        is_body(body),
    ensures
        ({
            let rest = instance_body(
                behind,
                me,
                opened + body_size(body),
                gathered(properties, all_properties(body), Map::empty()),
            );
            instance_body(body_events(body) + behind, me, opened, properties) == (ParsedBody {
                edits: edits_of_body(body, me, opened) + rest.edits,
                ..rest
            })
        }),
{
    lemma_bodies_in_turn(body, me, opened, properties, behind);
    reveal(body_at);
}

#[verifier::spinoff_prover]
proof fn lemma_bodies_in_turn(
    body: Seq<BodyModel>,
    me: nat,
    opened: nat,
    properties: PropertiesView,
    behind: Stream,
)
    requires
        is_body(body),
    ensures
        ({
            let rest = body_at(
                behind,
                me,
                opened + body_size(body),
                gathered(properties, all_properties(body), Map::empty()),
            );
            body_at(body_events(body) + behind, me, opened, properties) == (ParsedBody {
                edits: edits_of_body(body, me, opened) + rest.edits,
                ..rest
            })
        }),
    decreases body, 0nat,
{
    let stream = body_events(body) + behind;
    let all = gathered(properties, all_properties(body), Map::empty());
    let rest = body_at(behind, me, opened + body_size(body), all);
    if body.len() == 0 {
        assert(stream =~= behind);
        assert(Seq::<Edit>::empty() + rest.edits =~= rest.edits);
    } else {
        let others = body.drop_first();
        let later = body_events(others) + behind;
        match body[0] {
            BodyModel::Properties { attributes, properties: listed } => {
                let more = gathered(properties, listed, Map::empty());
                let first = links_of(listed, me);
                assert(stream =~= element("Properties"@, attributes, properties_events(listed))
                    + later);
                lemma_body_with_list(attributes, listed, me, opened, properties, later);
                lemma_bodies_in_turn(others, me, opened, more, behind);
                lemma_gathered_concat(properties, listed, all_properties(others), Map::empty());
                assert(first + (edits_of_body(others, me, opened) + rest.edits) =~= edits_of_body(
                    body,
                    me,
                    opened,
                ) + rest.edits);
            },
            BodyModel::Item(model) => {
                let next = opened + size(model);
                let first = edits_of(model, Place::Opened(me), opened);
                assert(stream =~= instance_events(model) + later);
                lemma_body_with_item(model, me, opened, properties, later);
                lemma_bodies_in_turn(others, me, next, properties, behind);
                assert(first + (edits_of_body(others, me, next) + rest.edits) =~= edits_of_body(
                    body,
                    me,
                    opened,
                ) + rest.edits);
            },
        }
    }
}

proof fn lemma_body_with_list(
    attributes: Seq<AttributeView>,
    listed: Seq<PropertyModel>,
    me: nat,
    opened: nat,
    properties: PropertiesView,
    later: Stream,
)
    requires
        are_properties(listed),
    ensures
        ({
            let after = body_at(later, me, opened, gathered(properties, listed, Map::empty()));
            let list = element("Properties"@, attributes, properties_events(listed));
            body_at(list + later, me, opened, properties) == (ParsedBody {
                edits: links_of(listed, me) + after.edits,
                ..after
            })
        }),
{
    let stream = element("Properties"@, attributes, properties_events(listed)) + later;
    assert(stream[0] == start("Properties"@, attributes));
    assert(stream.drop_first() =~= properties_events(listed) + (seq![end("Properties"@)] + later));
    lemma_list_reads(listed, me, properties, later);
    lemma_body_list_step(
        stream,
        me,
        opened,
        properties,
        links_of(listed, me),
        gathered(properties, listed, Map::empty()),
        later,
    );
}

proof fn lemma_body_with_item(
    model: InstanceModel,
    me: nat,
    opened: nat,
    properties: PropertiesView,
    later: Stream,
)
    requires
        is_model(model),
    ensures
        ({
            let after = body_at(later, me, opened + size(model), properties);
            body_at(instance_events(model) + later, me, opened, properties) == (ParsedBody {
                edits: edits_of(model, Place::Opened(me), opened) + after.edits,
                ..after
            })
        }),
    decreases model, 2nat,
{
    law_instances_read_back(model, Place::Opened(me), opened, later);
    lemma_body_item_step(
        instance_events(model) + later,
        me,
        opened,
        properties,
        edits_of(model, Place::Opened(me), opened),
        opened + size(model),
        later,
    );
}

/// What may stand at the top level of a document: an instance, a piece of
/// metadata, or a note on something outside the document, which is passed over
/// whatever it holds.
#[allow(inconsistent_fields)]
pub enum PartModel {
    Instance(InstanceModel),
    Meta { attributes: Seq<AttributeView>, name: Seq<char>, value: Seq<char> },
    External { attributes: Seq<AttributeView>, inside: Stream },
}

/// A part of a document, written down.
pub open spec fn part_events(part: PartModel) -> Stream {
    match part {
        PartModel::Instance(model) => instance_events(model),
        PartModel::Meta { attributes, value, .. } => element(
            "Meta"@,
            attributes,
            seq![Ok(EventView::Characters(value))],
        ),
        PartModel::External { attributes, inside } => element("External"@, attributes, inside),
    }
}

/// Parts of a document, written down one after another.
pub open spec fn parts_events(parts: Seq<PartModel>) -> Stream
    decreases parts.len(),
{
    if parts.len() == 0 {
        Seq::empty()
    } else {
        part_events(parts[0]) + parts_events(parts.drop_first())
    }
}

/// The outermost tag of a document.
pub open spec fn outermost(attributes: Seq<AttributeView>) -> ItemView {
    start("roblox"@, attributes)
}

/// Some attribute says the version, and all that do say that it is four,
/// whatever other attributes there are.
pub open spec fn says_version_four(attributes: Seq<AttributeView>) -> bool {
    &&& !is_silent(attributes, "version"@)
    &&& forall|i: int|
        0 <= i < attributes.len() && (#[trigger] attributes[i]).name == "version"@
            ==> attributes[i].value == "4"@
}

/// A document, written down up to the tag that closes it.
pub open spec fn document_events(
    attributes: Seq<AttributeView>,
    parts: Seq<PartModel>,
) -> Stream {
    seq![Ok(EventView::StartDocument), outermost(attributes)] + parts_events(parts) + seq![
        end("roblox"@),
    ]
}

/// Whether a part of a document is written down.
pub open spec fn is_part(part: PartModel) -> bool {
    match part {
        PartModel::Instance(model) => is_model(model),
        PartModel::Meta { attributes, name, .. } => last_says(attributes, "name"@, name),
        PartModel::External { inside, .. } => is_balanced(inside),
    }
}

/// Whether parts of a document are written down.
pub open spec fn are_parts(parts: Seq<PartModel>) -> bool {
    forall|i: int| 0 <= i < parts.len() ==> is_part(#[trigger] parts[i])
}

/// The instances at the top level of a document.
pub open spec fn instances_of(parts: Seq<PartModel>) -> Seq<InstanceModel>
    decreases parts.len(),
{
    if parts.len() == 0 {
        Seq::empty()
    } else {
        let others = instances_of(parts.drop_first());
        match parts[0] {
            PartModel::Instance(model) => seq![model] + others,
            _ => others,
        }
    }
}

/// What a part of a document does.
pub open spec fn edits_of_part(part: PartModel, opened: nat) -> Seq<Edit> {
    match part {
        PartModel::Instance(model) => edits_of(model, Place::Given, opened),
        PartModel::Meta { name, value, .. } => seq![Edit::Describe { name, value }],
        PartModel::External { .. } => Seq::empty(),
    }
}

/// How many instances a part of a document holds.
pub open spec fn part_size(part: PartModel) -> nat {
    match part {
        PartModel::Instance(model) => size(model),
        _ => 0,
    }
}

/// What parts of a document do.
pub open spec fn edits_of_parts(parts: Seq<PartModel>, opened: nat) -> Seq<Edit>
    decreases parts.len(),
{
    if parts.len() == 0 {
        Seq::empty()
    } else {
        edits_of_part(parts[0], opened) + edits_of_parts(
            parts.drop_first(),
            opened + part_size(parts[0]),
        )
    }
}

/// The names of the tags at the top level differ.
pub proof fn lemma_parts_differ()
    ensures
        "Item"@ != "Meta"@,
        "External"@ != "Item"@,
        "External"@ != "Meta"@,
{
    reveal_strlit("Item");
    reveal_strlit("Meta");
    reveal_strlit("External");
    assert("Item"@[0] != "Meta"@[0]);
    assert("Item"@.len() == 4);
    assert("Meta"@.len() == 4);
    assert("External"@.len() == 8);
}

proof fn lemma_part_reads(part: PartModel, opened: nat, rest: Stream)
    requires
        is_part(part),
    ensures
        ({
            let stream = part_events(part) + rest;
            &&& rest.len() < stream.len()
            &&& stream[0] is Ok
            &&& stream[0]->Ok_0 is StartElement
            &&& top_level_item(stream, stream[0]->Ok_0->StartElement_name, opened) == (Parsed {
                outcome: Ok(()),
                edits: edits_of_part(part, opened),
                opened: opened + part_size(part),
                rest,
            })
        }),
{
    let stream = part_events(part) + rest;
    lemma_parts_differ();
    match part {
        PartModel::Instance(model) => {
            law_instances_read_back(model, Place::Given, opened, rest);
            lemma_instance_progress(stream, Place::Given, opened);
        },
        PartModel::Meta { attributes, name, value } => {
            let inside = stream.drop_first();
            let behind = inside.drop_first();
            assert(stream[0] == start("Meta"@, attributes));
            law_the_last_attribute_counts(attributes, "name"@, name);
            assert(inside[0] == Ok::<_, Seq<char>>(EventView::Characters(value)));
            assert(behind[0] == end("Meta"@));
            assert(behind.drop_first() =~= rest);
        },
        PartModel::External { attributes, inside } => {
            assert(stream[0] == start("External"@, attributes));
            assert(stream =~= seq![start("External"@, attributes)] + inside + seq![
                end("External"@),
            ] + rest);
            law_skipping_takes_one_element("External"@, attributes, inside, "External"@, rest);
        },
    }
}

/// The top level of a document from a place on.
#[verifier::opaque]
spec fn top_level_at(stream: Stream, opened: nat) -> Parsed {
    top_level(stream, opened)
}

/// A part of a document is read before the others.
#[verifier::spinoff_prover]
proof fn lemma_part_is_read_first(part: PartModel, opened: nat, later: Stream)
    requires
        is_part(part),
    ensures
        ({
            let others = top_level_at(later, opened + part_size(part));
            top_level_at(part_events(part) + later, opened) == (Parsed {
                edits: edits_of_part(part, opened) + others.edits,
                ..others
            })
        }),
{
    reveal(top_level_at);
    lemma_part_reads(part, opened, later);
}

/// The parts of a document are read one after another.
#[verifier::spinoff_prover]
proof fn lemma_parts_are_read(parts: Seq<PartModel>, opened: nat, behind: Stream)
    requires
        are_parts(parts),
    ensures
        ({
            let rest = top_level_at(behind, opened + sizes(instances_of(parts)));
            top_level_at(parts_events(parts) + behind, opened) == (Parsed {
                edits: edits_of_parts(parts, opened) + rest.edits,
                ..rest
            })
        }),
    decreases parts.len(),
{
    let stream = parts_events(parts) + behind;
    let rest = top_level_at(behind, opened + sizes(instances_of(parts)));
    if parts.len() == 0 {
        assert(stream =~= behind);
        assert(Seq::<Edit>::empty() + rest.edits =~= rest.edits);
    } else {
        let others = parts.drop_first();
        let later = parts_events(others) + behind;
        assert(is_part(parts[0]));
        assert(forall|i: int| 0 <= i < others.len() ==> (#[trigger] others[i]) == parts[i + 1]);
        assert(stream =~= part_events(parts[0]) + later);
        lemma_part_is_read_first(parts[0], opened, later);
        let next = opened + part_size(parts[0]);
        lemma_parts_are_read(others, next, behind);
        let first = edits_of_part(parts[0], opened);
        assert(sizes(instances_of(parts)) == part_size(parts[0]) + sizes(instances_of(others))) by {
            if let PartModel::Instance(model) = parts[0] {
                assert((seq![model] + instances_of(others)).drop_first() =~= instances_of(others));
            }
        }
        assert(first + (edits_of_parts(others, next) + rest.edits) =~= edits_of_parts(
            parts,
            opened,
        ) + rest.edits);
    }
}

/// The parts of a document are read one after another, each as it was written,
/// up to what stands behind them.
pub proof fn law_parts_are_read_in_turn(parts: Seq<PartModel>, opened: nat, behind: Stream)
    requires
        are_parts(parts),
    ensures
        ({
            let rest = top_level(behind, opened + sizes(instances_of(parts)));
            top_level(parts_events(parts) + behind, opened) == (Parsed {
                edits: edits_of_parts(parts, opened) + rest.edits,
                ..rest
            })
        }),
{
    reveal(top_level_at);
    lemma_parts_are_read(parts, opened, behind);
}

/// Instances, written down one after another.
pub open spec fn instances_events(models: Seq<InstanceModel>) -> Stream
    decreases models.len(),
{
    if models.len() == 0 {
        Seq::empty()
    } else {
        instance_events(models[0]) + instances_events(models.drop_first())
    }
}

/// A document that holds instances and nothing else is written as they are.
pub proof fn law_instances_alone_make_a_document(parts: Seq<PartModel>)
    requires
        forall|i: int| 0 <= i < parts.len() ==> (#[trigger] parts[i]) is Instance,
    ensures
        parts_events(parts) == instances_events(instances_of(parts)),
    decreases parts.len(),
{
    if parts.len() > 0 {
        let others = parts.drop_first();
        assert(forall|i: int| 0 <= i < others.len() ==> (#[trigger] others[i]) == parts[i + 1]);
        assert(parts[0] is Instance);
        assert(instances_of(parts).drop_first() =~= instances_of(others));
        law_instances_alone_make_a_document(others);
    }
}

/// A document that says that it has version four is read on behind its
/// outermost tag, whatever else that tag says.
pub proof fn law_version_four_is_read(attributes: Seq<AttributeView>, inside: Stream)
    requires
        says_version_four(attributes),
    ensures
        document(
            seq![Ok::<_, Seq<char>>(EventView::StartDocument), outermost(attributes)] + inside,
        ) == top_level(inside, 0),
{
    let stream = seq![Ok::<_, Seq<char>>(EventView::StartDocument), outermost(attributes)] + inside;
    assert(stream[0] == Ok::<_, Seq<char>>(EventView::StartDocument));
    assert(stream.drop_first()[0] == outermost(attributes));
    assert(stream.drop_first().drop_first() =~= inside);
    let i = choose|i: int| 0 <= i < attributes.len() && (#[trigger] attributes[i]).name
        == "version"@;
    assert(attributes[i].name == "version"@);
    assert(version_fault(attributes) is None);
}

/// A document reads back as it was written, whatever follows it.
pub proof fn law_documents_read_back(
    attributes: Seq<AttributeView>,
    parts: Seq<PartModel>,
    rest: Stream,
)
    requires
        says_version_four(attributes),
        are_parts(parts),
    ensures
        document(document_events(attributes, parts) + rest) == (Parsed {
            outcome: Ok(()),
            edits: edits_of_parts(parts, 0),
            opened: sizes(instances_of(parts)),
            rest: seq![end("roblox"@)] + rest,
        }),
{
    let stream = document_events(attributes, parts) + rest;
    let behind = seq![end("roblox"@)] + rest;
    let inside = parts_events(parts) + behind;
    assert(stream =~= seq![Ok::<_, Seq<char>>(EventView::StartDocument), outermost(attributes)]
        + inside);
    law_version_four_is_read(attributes, inside);
    law_parts_are_read_in_turn(parts, 0, behind);
    assert(edits_of_parts(parts, 0) + Seq::<Edit>::empty() =~= edits_of_parts(parts, 0));
}

}
