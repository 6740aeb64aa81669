//! Decoding what was written down puts it into the tree.

use vstd::prelude::*;

use crate::deserializer::{decoded, decodes_to, has_answer};
use crate::document::{is_decodable, links, Edit, Place};
use crate::dom::{has_instance, next_id, InstanceView, PropertiesView, RbxId, TreeView, ValueView};
use crate::error::{DecodeError, ErrorView};
use crate::event::{xml_events, AttributeView, EventView, ItemView, Stream};
use crate::laws::models::{
    all_properties, are_distinct, are_models, are_parts, are_properties, body_events, body_size,
    document_events, edits_of, edits_of_all, edits_of_body, edits_of_part, edits_of_parts, gathered,
    instance_events, instances_of, is_body, is_model, is_part, items_of, law_documents_read_back,
    lemma_are_properties_tail, lemma_body_properties, lemma_name_is_stored, links_of, model_name,
    part_size, parts_events, properties_events, says_version_four, size, sizes, PartModel,
};
use crate::laws::reading::law_only_whitespace_is_left_out;
use crate::laws::references::{lemma_rewritten, rewritten};
use crate::laws::rendering::{
    color_parts, element, frame_parts, held_events, held_referent, held_value, piece_event,
    scalar_elements, stored_name, text_events, three_axes, two_axes, xml_type, BodyModel,
    InstanceModel, Piece, PropertyModel, ScalarModel,
};
use crate::laws::scope::is_place;
use crate::laws::trees::law_nothing_opened_changes_nothing;
use crate::reader::{is_significant, significant, unit_view};
use crate::state::{
    apply_edit, apply_edits, fresh_state, instance_id, lemma_apply_edits_concat, lemma_apply_one,
    place_id, resolved, Base, RewriteView, StateView,
};

verus! {

/// The ID of the instance at an index.
pub open spec fn id_at(index: nat) -> RbxId {
    RbxId { index: index as usize }
}

/// The IDs that instances get, where the next one is `next`: each is followed
/// by all that stands below it.
pub open spec fn ids_of(models: Seq<InstanceModel>, next: nat) -> Seq<RbxId>
    decreases models.len(),
{
    if models.len() == 0 {
        Seq::empty()
    } else {
        seq![id_at(next)] + ids_of(models.drop_first(), next + size(models[0]))
    }
}

/// An instance and all that stands below it, in a tree, from the index `at` on.
pub open spec fn placed(
    model: InstanceModel,
    parent: RbxId,
    at: nat,
    known: Map<Seq<char>, RbxId>,
) -> Seq<InstanceView>
    decreases model, 1nat,
{
    seq![
        InstanceView {
            name: model_name(all_properties(model.body), model.class_name),
            class_name: model.class_name,
            properties: gathered(Map::empty(), all_properties(model.body), known).remove("Name"@),
            parent: Some(parent),
            children: ids_of(items_of(model.body), at + 1),
        },
    ] + placed_body(model.body, id_at(at), at + 1, known)
}

/// What stands inside an instance, in a tree, from the index `at` on.
pub open spec fn placed_body(
    body: Seq<BodyModel>,
    parent: RbxId,
    at: nat,
    known: Map<Seq<char>, RbxId>,
) -> Seq<InstanceView>
    decreases body, 0nat,
{
    if body.len() == 0 {
        Seq::empty()
    } else {
        match body[0] {
            BodyModel::Properties { .. } => placed_body(body.drop_first(), parent, at, known),
            BodyModel::Item(model) => placed(model, parent, at, known) + placed_body(
                body.drop_first(),
                parent,
                at + size(model),
                known,
            ),
        }
    }
}

/// Instances and all that stands below them, in a tree, from the index `at` on.
pub open spec fn placed_all(
    models: Seq<InstanceModel>,
    parent: RbxId,
    at: nat,
    known: Map<Seq<char>, RbxId>,
) -> Seq<InstanceView>
    decreases models.len(),
{
    if models.len() == 0 {
        Seq::empty()
    } else {
        placed(models[0], parent, at, known) + placed_all(
            models.drop_first(),
            parent,
            at + size(models[0]),
            known,
        )
    }
}

/// What referents stand for once an instance stands at the index `at`.
pub open spec fn referents_with(
    known: Map<Seq<char>, RbxId>,
    model: InstanceModel,
    at: nat,
) -> Map<Seq<char>, RbxId>
    decreases model, 1nat,
{
    let more = match model.referent {
        Some(referent) => known.insert(referent, id_at(at)),
        None => known,
    };
    referents_with_body(more, model.body, at + 1)
}

/// What referents stand for once what stands inside an instance stands from the
/// index `at` on.
pub open spec fn referents_with_body(
    known: Map<Seq<char>, RbxId>,
    body: Seq<BodyModel>,
    at: nat,
) -> Map<Seq<char>, RbxId>
    decreases body, 0nat,
{
    if body.len() == 0 {
        known
    } else {
        match body[0] {
            BodyModel::Properties { .. } => referents_with_body(known, body.drop_first(), at),
            BodyModel::Item(model) => referents_with_body(
                referents_with(known, model, at),
                body.drop_first(),
                at + size(model),
            ),
        }
    }
}

/// What referents stand for once instances stand from the index `at` on.
pub open spec fn referents_with_all(
    known: Map<Seq<char>, RbxId>,
    models: Seq<InstanceModel>,
    at: nat,
) -> Map<Seq<char>, RbxId>
    decreases models.len(),
{
    if models.len() == 0 {
        known
    } else {
        referents_with_all(
            referents_with(known, models[0], at),
            models.drop_first(),
            at + size(models[0]),
        )
    }
}

/// The references that properties of an instance ask for.
pub open spec fn property_rewrites(models: Seq<PropertyModel>, id: RbxId) -> Seq<RewriteView>
    decreases models.len(),
{
    if models.len() == 0 {
        Seq::empty()
    } else {
        let others = property_rewrites(models.drop_first(), id);
        match held_referent(models[0].held) {
            Some(referent) => seq![
                RewriteView {
                    id,
                    property_name: stored_name(models[0].name),
                    referent_value: referent,
                },
            ] + others,
            None => others,
        }
    }
}

/// The references that an instance, and all that stands below it, asks for.
pub open spec fn rewrites_of(model: InstanceModel, at: nat) -> Seq<RewriteView>
    decreases model, 1nat,
{
    rewrites_of_body(model.body, id_at(at), at + 1)
}

/// The references that what stands inside the instance `id` asks for.
pub open spec fn rewrites_of_body(body: Seq<BodyModel>, id: RbxId, at: nat) -> Seq<RewriteView>
    decreases body, 0nat,
{
    if body.len() == 0 {
        Seq::empty()
    } else {
        match body[0] {
            BodyModel::Properties { properties, .. } => property_rewrites(properties, id)
                + rewrites_of_body(body.drop_first(), id, at),
            BodyModel::Item(model) => rewrites_of(model, at) + rewrites_of_body(
                body.drop_first(),
                id,
                at + size(model),
            ),
        }
    }
}

/// The references that instances, and all that stands below them, ask for.
pub open spec fn rewrites_of_all(models: Seq<InstanceModel>, at: nat) -> Seq<RewriteView>
    decreases models.len(),
{
    if models.len() == 0 {
        Seq::empty()
    } else {
        rewrites_of(models[0], at) + rewrites_of_all(models.drop_first(), at + size(models[0]))
    }
}

/// The tree with more children of `parent`.
pub open spec fn with_children(tree: TreeView, parent: RbxId, ids: Seq<RbxId>) -> TreeView {
    let above = tree[parent.index as int];
    tree.update(
        parent.index as int,
        InstanceView { children: above.children + ids, ..above },
    )
}

proof fn lemma_placed_len(
    model: InstanceModel,
    parent: RbxId,
    at: nat,
    known: Map<Seq<char>, RbxId>,
)
    ensures
        placed(model, parent, at, known).len() == size(model),
    decreases model, 1nat,
{
    lemma_placed_body_len(model.body, id_at(at), at + 1, known);
}

proof fn lemma_placed_body_len(
    body: Seq<BodyModel>,
    parent: RbxId,
    at: nat,
    known: Map<Seq<char>, RbxId>,
)
    ensures
        placed_body(body, parent, at, known).len() == body_size(body),
    decreases body, 0nat,
{
    if body.len() > 0 {
        match body[0] {
            BodyModel::Properties { .. } => {
                lemma_placed_body_len(body.drop_first(), parent, at, known);
            },
            BodyModel::Item(model) => {
                lemma_placed_len(model, parent, at, known);
                lemma_placed_body_len(body.drop_first(), parent, at + size(model), known);
            },
        }
    }
}

proof fn lemma_placed_all_len(
    models: Seq<InstanceModel>,
    parent: RbxId,
    at: nat,
    known: Map<Seq<char>, RbxId>,
)
    ensures
        placed_all(models, parent, at, known).len() == sizes(models),
    decreases models.len(),
{
    if models.len() > 0 {
        lemma_placed_len(models[0], parent, at, known);
        lemma_placed_all_len(models.drop_first(), parent, at + size(models[0]), known);
    }
}

/// What stands inside an instance is placed as the instances in it are.
proof fn lemma_bodies_are_items(
    body: Seq<BodyModel>,
    parent: RbxId,
    at: nat,
    known: Map<Seq<char>, RbxId>,
    referents: Map<Seq<char>, RbxId>,
)
    ensures
        body_size(body) == sizes(items_of(body)),
        placed_body(body, parent, at, known) == placed_all(items_of(body), parent, at, known),
        referents_with_body(referents, body, at) == referents_with_all(
            referents,
            items_of(body),
            at,
        ),
    decreases body.len(),
{
    if body.len() > 0 {
        let others = body.drop_first();
        match body[0] {
            BodyModel::Properties { .. } => {
                lemma_bodies_are_items(others, parent, at, known, referents);
            },
            BodyModel::Item(model) => {
                let items = items_of(body);
                assert(items.drop_first() =~= items_of(others));
                assert(items[0] == model);
                lemma_bodies_are_items(
                    others,
                    parent,
                    at + size(model),
                    known,
                    referents_with(referents, model, at),
                );
            },
        }
    }
}

proof fn lemma_links_apply(base: Base, state: StateView, models: Seq<PropertyModel>, me: nat)
    ensures
        apply_edits(base, state, links_of(models, me)) == (StateView {
            rewrites: state.rewrites + property_rewrites(models, instance_id(base, me)),
            ..state
        }),
    decreases models.len(),
{
    if models.len() == 0 {
        assert(state.rewrites + Seq::<RewriteView>::empty() =~= state.rewrites);
    } else {
        let name = stored_name(models[0].name);
        let first = links(me, name, held_referent(models[0].held));
        let others = models.drop_first();
        let id = instance_id(base, me);
        let between = apply_edits(base, state, first);
        lemma_apply_edits_concat(base, state, first, links_of(others, me));
        lemma_links_apply(base, between, others, me);
        if let Some(referent) = held_referent(models[0].held) {
            lemma_apply_one(base, state, Edit::Link { instance: me, property: name, referent });
            let rewrite = RewriteView { id, property_name: name, referent_value: referent };
            assert(state.rewrites.push(rewrite) + property_rewrites(others, id) =~= state.rewrites
                + (seq![rewrite] + property_rewrites(others, id)));
        }
    }
}


/// The state once instances have been put into the tree, with no reference made
/// yet.
pub open spec fn state_with(
    state: StateView,
    models: Seq<InstanceModel>,
    parent: RbxId,
) -> StateView {
    let at = state.tree.len();
    StateView {
        tree: with_children(state.tree, parent, ids_of(models, at)) + placed_all(
            models,
            parent,
            at,
            Map::empty(),
        ),
        referents: referents_with_all(state.referents, models, at),
        metadata: state.metadata,
        rewrites: state.rewrites + rewrites_of_all(models, at),
    }
}

/// Putting an instance into the tree, and others behind it, is putting all of
/// them into it.
proof fn lemma_state_with_concat(
    state: StateView,
    model: InstanceModel,
    others: Seq<InstanceModel>,
    parent: RbxId,
)
    requires
        has_instance(state.tree, parent),
    ensures
        state_with(state_with(state, seq![model], parent), others, parent) == state_with(
            state,
            seq![model] + others,
            parent,
        ),
        state_with(state, seq![model], parent).tree.len() == state.tree.len() + size(model),
{
    let all = seq![model] + others;
    let at = state.tree.len();
    let next = at + size(model);
    let between = state_with(state, seq![model], parent);
    let empty = Map::<Seq<char>, RbxId>::empty();
    assert(all.drop_first() =~= others);
    assert(all[0] == model);
    lemma_state_with_one(state, model, parent);
    lemma_placed_len(model, parent, at, empty);
    assert(between.tree.len() == next);
    let left = state_with(between, others, parent);
    let right = state_with(state, all, parent);
    assert(left.tree =~= right.tree) by {
        let above = parent.index as int;
        assert((state.tree[above].children + seq![id_at(at)]) + ids_of(others, next)
            =~= state.tree[above].children + ids_of(all, at));
        assert(left.tree[above] == right.tree[above]);
    }
    assert(left.rewrites =~= right.rewrites);
}

/// The edits of an instance put it into the tree.
#[verifier::spinoff_prover]
proof fn lemma_instance_placed(
    base: Base,
    state: StateView,
    model: InstanceModel,
    place: Place,
    opened: nat,
)
    requires
        is_place(place, opened),
        has_instance(state.tree, base.parent),
        state.tree.len() == base.first + opened,
        base.first + opened + size(model) <= usize::MAX,
    ensures
        apply_edits(base, state, edits_of(model, place, opened)) == state_with(
            state,
            seq![model],
            place_id(base, place),
        ),
    decreases model, 1nat,
{
    let at = base.first + opened;
    let parent = place_id(base, place);
    let me = instance_id(base, opened);
    let all = all_properties(model.body);
    let properties = gathered(Map::empty(), all, Map::empty()).remove("Name"@);
    let name = model_name(all, model.class_name);
    let open = Edit::Open { parent: place, referent: model.referent };
    let below = edits_of_body(model.body, opened, opened + 1);
    let fill = Edit::Fill { instance: opened, name, class_name: model.class_name, properties };
    let edits = edits_of(model, place, opened);
    let most = seq![open] + below;
    assert(edits == most.push(fill));
    assert(edits.drop_last() =~= most);
    let first = apply_edit(base, state, open);
    lemma_apply_edits_concat(base, state, seq![open], below);
    lemma_apply_one(base, state, open);
    assert(first.tree.len() == at + 1);
    lemma_body_placed(base, first, model.body, opened, opened + 1);
    let third = apply_edits(base, first, below);
    assert(apply_edits(base, state, most) == third);
    let last = apply_edit(base, third, fill);
    assert(apply_edits(base, state, edits) == last);
    let expected = state_with(state, seq![model], parent);
    lemma_state_with_one(state, model, parent);
    lemma_bodies_are_items(model.body, me, at + 1, Map::empty(), first.referents);
    lemma_placed_body_len(model.body, me, at + 1, Map::empty());
    let items = items_of(model.body);
    assert(last.tree =~= expected.tree) by {
        assert(Seq::<RbxId>::empty() + ids_of(items, at + 1) =~= ids_of(items, at + 1));
        let above = parent.index as int;
        assert(state.tree[above].children.push(next_id(state.tree)) =~= state.tree[above].children
            + seq![id_at(at)]);
        assert(last.tree[above] == expected.tree[above]);
        assert(last.tree[at as int] == expected.tree[at as int]);
    }
    assert(last.rewrites =~= expected.rewrites);
    assert(last.referents == expected.referents);
}

/// The edits of what stands inside an instance put it into the tree.
#[verifier::spinoff_prover]
proof fn lemma_body_placed(
    base: Base,
    state: StateView,
    body: Seq<BodyModel>,
    me: nat,
    opened: nat,
)
    requires
        me < opened,
        has_instance(state.tree, base.parent),
        state.tree.len() == base.first + opened,
        base.first + opened + body_size(body) <= usize::MAX,
    ensures
        apply_edits(base, state, edits_of_body(body, me, opened)) == (StateView {
            rewrites: state.rewrites + rewrites_of_body(
                body,
                instance_id(base, me),
                state.tree.len(),
            ),
            ..state_with(state, items_of(body), instance_id(base, me))
        }),
    decreases body, 0nat,
{
    let id = instance_id(base, me);
    let at = state.tree.len();
    if body.len() == 0 {
        lemma_state_with_none(state, id);
        assert(state.rewrites + Seq::<RewriteView>::empty() =~= state.rewrites);
    } else {
        let others = body.drop_first();
        match body[0] {
            BodyModel::Properties { properties, .. } => {
                let first = links_of(properties, me);
                let between = apply_edits(base, state, first);
                lemma_links_apply(base, state, properties, me);
                lemma_body_placed(base, between, others, me, opened);
                lemma_apply_edits_concat(base, state, first, edits_of_body(others, me, opened));
                assert((state.rewrites + property_rewrites(properties, id)) + rewrites_of_body(
                    others,
                    id,
                    at,
                ) =~= state.rewrites + rewrites_of_body(body, id, at));
            },
            BodyModel::Item(model) => {
                let next = opened + size(model);
                let first = edits_of(model, Place::Opened(me), opened);
                let between = state_with(state, seq![model], id);
                lemma_instance_placed(base, state, model, Place::Opened(me), opened);
                lemma_state_with_concat(state, model, items_of(others), id);
                lemma_state_with_one(state, model, id);
                lemma_body_placed(base, between, others, me, next);
                lemma_apply_edits_concat(base, state, first, edits_of_body(others, me, next));
                assert((state.rewrites + rewrites_of(model, at)) + rewrites_of_body(
                    others,
                    id,
                    at + size(model),
                ) =~= state.rewrites + rewrites_of_body(body, id, at));
            },
        }
    }
}

/// No instances, put into the tree.
proof fn lemma_state_with_none(state: StateView, parent: RbxId)
    requires
        has_instance(state.tree, parent),
    ensures
        state_with(state, Seq::empty(), parent) == state,
{
    let same = state_with(state, Seq::empty(), parent);
    let above = parent.index as int;
    assert(state.tree[above].children + Seq::<RbxId>::empty() =~= state.tree[above].children);
    assert(same.tree =~= state.tree);
    assert(same.rewrites =~= state.rewrites);
}

/// The edits of instances put them into the tree.
#[verifier::spinoff_prover]
proof fn lemma_instances_placed(
    base: Base,
    state: StateView,
    models: Seq<InstanceModel>,
    place: Place,
    opened: nat,
)
    requires
        is_place(place, opened),
        has_instance(state.tree, base.parent),
        state.tree.len() == base.first + opened,
        base.first + opened + sizes(models) <= usize::MAX,
    ensures
        apply_edits(base, state, edits_of_all(models, place, opened)) == state_with(
            state,
            models,
            place_id(base, place),
        ),
    decreases models.len(),
{
    let parent = place_id(base, place);
    if models.len() == 0 {
        assert(models =~= Seq::empty());
        lemma_state_with_none(state, parent);
    } else {
        let others = models.drop_first();
        let next = opened + size(models[0]);
        let between = state_with(state, seq![models[0]], parent);
        lemma_instance_placed(base, state, models[0], place, opened);
        lemma_state_with_concat(state, models[0], others, parent);
        lemma_instances_placed(base, between, others, place, next);
        lemma_apply_edits_concat(
            base,
            state,
            edits_of(models[0], place, opened),
            edits_of_all(others, place, next),
        );
        assert(seq![models[0]] + others =~= models);
    }
}

/// One instance, put into the tree.
proof fn lemma_state_with_one(state: StateView, model: InstanceModel, parent: RbxId)
    ensures
        state_with(state, seq![model], parent) == (StateView {
            tree: with_children(state.tree, parent, seq![id_at(state.tree.len())]) + placed(
                model,
                parent,
                state.tree.len(),
                Map::empty(),
            ),
            referents: referents_with(state.referents, model, state.tree.len()),
            metadata: state.metadata,
            rewrites: state.rewrites + rewrites_of(model, state.tree.len()),
        }),
{
    let one = seq![model];
    let at = state.tree.len();
    let next = at + size(model);
    let empty = Map::<Seq<char>, RbxId>::empty();
    assert(one.drop_first() =~= Seq::empty());
    assert(ids_of(one.drop_first(), next) =~= Seq::empty());
    assert(ids_of(one, at) =~= seq![id_at(at)]);
    assert(placed_all(one.drop_first(), parent, next, empty) =~= Seq::empty());
    assert(placed_all(one, parent, at, empty) =~= placed(model, parent, at, empty));
    assert(rewrites_of_all(one.drop_first(), next) =~= Seq::empty());
    assert(rewrites_of_all(one, at) =~= rewrites_of(model, at));
    assert(referents_with_all(
        referents_with(state.referents, model, at),
        one.drop_first(),
        next,
    ) == referents_with(state.referents, model, at));
}

/// References in two parts do what they do as a whole.
proof fn lemma_rewritten_concat(
    properties: PropertiesView,
    referents: Map<Seq<char>, RbxId>,
    a: Seq<RewriteView>,
    b: Seq<RewriteView>,
    id: RbxId,
)
    ensures
        rewritten(properties, referents, a + b, id) == rewritten(
            rewritten(properties, referents, a, id),
            referents,
            b,
            id,
        ),
    decreases b.len(),
{
    if b.len() == 0 {
        assert(a + b =~= a);
    } else {
        assert((a + b).drop_last() =~= a + b.drop_last());
        lemma_rewritten_concat(properties, referents, a, b.drop_last(), id);
    }
}

/// References made from other instances change nothing about an instance.
proof fn lemma_rewritten_elsewhere(
    properties: PropertiesView,
    referents: Map<Seq<char>, RbxId>,
    rewrites: Seq<RewriteView>,
    id: RbxId,
)
    requires
        forall|i: int| 0 <= i < rewrites.len() ==> (#[trigger] rewrites[i]).id != id,
    ensures
        rewritten(properties, referents, rewrites, id) == properties,
    decreases rewrites.len(),
{
    if rewrites.len() > 0 {
        let earlier = rewrites.drop_last();
        assert(forall|i: int| 0 <= i < earlier.len() ==> (#[trigger] earlier[i]) == rewrites[i]);
        assert(rewrites.last() == rewrites[rewrites.len() - 1]);
        lemma_rewritten_elsewhere(properties, referents, earlier, id);
    }
}

/// References that leave a property alone are made as well without it.
proof fn lemma_rewritten_without(
    properties: PropertiesView,
    referents: Map<Seq<char>, RbxId>,
    rewrites: Seq<RewriteView>,
    id: RbxId,
    name: Seq<char>,
)
    requires
        forall|i: int| 0 <= i < rewrites.len() ==> (#[trigger] rewrites[i]).property_name != name,
    ensures
        rewritten(properties.remove(name), referents, rewrites, id) == rewritten(
            properties,
            referents,
            rewrites,
            id,
        ).remove(name),
    decreases rewrites.len(),
{
    if rewrites.len() > 0 {
        let earlier = rewrites.drop_last();
        assert(forall|i: int| 0 <= i < earlier.len() ==> (#[trigger] earlier[i]) == rewrites[i]);
        assert(rewrites.last() == rewrites[rewrites.len() - 1]);
        lemma_rewritten_without(properties, referents, earlier, id, name);
        assert(rewritten(properties.remove(name), referents, rewrites, id) =~= rewritten(
            properties,
            referents,
            rewrites,
            id,
        ).remove(name));
    }
}

/// A property that others do not name may as well be set before them.
proof fn lemma_gathered_insert(
    properties: PropertiesView,
    models: Seq<PropertyModel>,
    known: Map<Seq<char>, RbxId>,
    name: Seq<char>,
    value: ValueView,
)
    requires
        forall|i: int| 0 <= i < models.len() ==> stored_name((#[trigger] models[i]).name) != name,
    ensures
        gathered(properties, models, known).insert(name, value) == gathered(
            properties.insert(name, value),
            models,
            known,
        ),
    decreases models.len(),
{
    if models.len() > 0 {
        let others = models.drop_first();
        let first = stored_name(models[0].name);
        let held = held_value(models[0].held, known);
        assert(forall|i: int| 0 <= i < others.len() ==> (#[trigger] others[i]) == models[i + 1]);
        lemma_gathered_insert(properties.insert(first, held), others, known, name, value);
        assert(properties.insert(first, held).insert(name, value) =~= properties.insert(
            name,
            value,
        ).insert(first, held));
    }
}

/// Making the references that properties ask for gives them the values that
/// they would have had, had all referents been known.
proof fn lemma_properties_rewritten(
    properties: PropertiesView,
    models: Seq<PropertyModel>,
    known: Map<Seq<char>, RbxId>,
    id: RbxId,
)
    requires
        are_properties(models),
        are_distinct(models),
    ensures
        rewritten(
            gathered(properties, models, Map::empty()),
            known,
            property_rewrites(models, id),
            id,
        ) == gathered(properties, models, known),
        forall|i: int|
            0 <= i < property_rewrites(models, id).len() ==> {
                &&& (#[trigger] property_rewrites(models, id)[i]).id == id
                &&& property_rewrites(models, id)[i].property_name != "Name"@
            },
    decreases models.len(),
{
    if models.len() > 0 {
        let others = models.drop_first();
        let name = stored_name(models[0].name);
        let held = models[0].held;
        let open = held_value(held, Map::empty());
        let made = held_value(held, known);
        lemma_are_properties_tail(models);
        lemma_name_is_stored(models[0].name);
        lemma_properties_rewritten(properties.insert(name, made), others, known, id);
        let before = gathered(properties.insert(name, open), others, Map::empty());
        match held_referent(held) {
            Some(referent) => {
                let rewrite = RewriteView { id, property_name: name, referent_value: referent };
                let later = property_rewrites(others, id);
                lemma_rewritten_concat(before, known, seq![rewrite], later, id);
                let one = rewritten(before, known, seq![rewrite], id);
                assert(seq![rewrite].drop_last() =~= Seq::empty());
                assert(rewritten(before, known, seq![rewrite].drop_last(), id) == before);
                if known.contains_key(referent) {
                    assert(one == before.insert(name, made));
                    lemma_gathered_insert(
                        properties.insert(name, open),
                        others,
                        Map::empty(),
                        name,
                        made,
                    );
                    assert(properties.insert(name, open).insert(name, made) =~= properties.insert(
                        name,
                        made,
                    ));
                } else {
                    assert(open == made);
                }
                assert(one == gathered(properties.insert(name, made), others, Map::empty()));
            },
            None => {
                assert(open == made);
            },
        }
    }
}

/// No two properties of an instance, or of one below it, have the same name.
pub open spec fn has_distinct_names(model: InstanceModel) -> bool
    decreases model, 1nat,
{
    are_distinct(all_properties(model.body)) && bodies_are_distinct(model.body)
}

/// No two properties of an instance inside have the same name.
pub open spec fn bodies_are_distinct(body: Seq<BodyModel>) -> bool
    decreases body, 0nat,
{
    body.len() == 0 || {
        &&& body[0] matches BodyModel::Item(model) ==> has_distinct_names(model)
        &&& bodies_are_distinct(body.drop_first())
    }
}

/// Properties ask for references from their own instance.
proof fn lemma_property_rewrites(models: Seq<PropertyModel>, id: RbxId)
    ensures
        forall|i: int|
            0 <= i < property_rewrites(models, id).len() ==> (#[trigger] property_rewrites(
                models,
                id,
            )[i]).id == id,
    decreases models.len(),
{
    if models.len() > 0 {
        let others = property_rewrites(models.drop_first(), id);
        lemma_property_rewrites(models.drop_first(), id);
        assert forall|i: int| 0 <= i < property_rewrites(models, id).len() implies (
        #[trigger] property_rewrites(models, id)[i]).id == id by {
            if held_referent(models[0].held) is Some {
                if i > 0 {
                    assert(property_rewrites(models, id)[i] == others[i - 1]);
                }
            } else {
                assert(property_rewrites(models, id)[i] == others[i]);
            }
        }
    }
}

/// The references of properties in two parts.
proof fn lemma_property_rewrites_concat(a: Seq<PropertyModel>, b: Seq<PropertyModel>, id: RbxId)
    ensures
        property_rewrites(a + b, id) == property_rewrites(a, id) + property_rewrites(b, id),
    decreases a.len(),
{
    if a.len() == 0 {
        assert(a + b =~= b);
        assert(property_rewrites(a, id) + property_rewrites(b, id) =~= property_rewrites(b, id));
    } else {
        assert((a + b).drop_first() =~= a.drop_first() + b);
        lemma_property_rewrites_concat(a.drop_first(), b, id);
        assert(property_rewrites(a + b, id) =~= property_rewrites(a, id) + property_rewrites(b, id));
    }
}

/// An instance asks for references from itself and what stands below it.
proof fn lemma_rewrites_range(model: InstanceModel, at: nat)
    requires
        at + size(model) <= usize::MAX,
    ensures
        forall|i: int|
            0 <= i < rewrites_of(model, at).len() ==> at <= (#[trigger] rewrites_of(
                model,
                at,
            )[i]).id.index < at + size(model),
    decreases model, 1nat,
{
    let rewrites = rewrites_of_body(model.body, id_at(at), at + 1);
    lemma_rewrites_body_range(model.body, id_at(at), at + 1);
    assert forall|i: int| 0 <= i < rewrites_of(model, at).len() implies at <= (
    #[trigger] rewrites_of(model, at)[i]).id.index < at + size(model) by {
        assert(rewrites_of(model, at)[i] == rewrites[i]);
    }
}

proof fn lemma_rewrites_body_range(body: Seq<BodyModel>, id: RbxId, at: nat)
    requires
        at + body_size(body) <= usize::MAX,
    ensures
        forall|i: int|
            0 <= i < rewrites_of_body(body, id, at).len() ==> {
                let from = (#[trigger] rewrites_of_body(body, id, at)[i]).id;
                from == id || at <= from.index < at + body_size(body)
            },
    decreases body, 0nat,
{
    if body.len() > 0 {
        let others = body.drop_first();
        let (first, next) = match body[0] {
            BodyModel::Properties { properties, .. } => (property_rewrites(properties, id), at),
            BodyModel::Item(model) => (rewrites_of(model, at), at + size(model)),
        };
        match body[0] {
            BodyModel::Properties { properties, .. } => {
                lemma_property_rewrites(properties, id);
            },
            BodyModel::Item(model) => {
                lemma_rewrites_range(model, at);
            },
        }
        let later = rewrites_of_body(others, id, next);
        lemma_rewrites_body_range(others, id, next);
        assert forall|i: int| 0 <= i < rewrites_of_body(body, id, at).len() implies {
            let from = (#[trigger] rewrites_of_body(body, id, at)[i]).id;
            from == id || at <= from.index < at + body_size(body)
        } by {
            if i < first.len() {
                assert(rewrites_of_body(body, id, at)[i] == first[i]);
            } else {
                assert(rewrites_of_body(body, id, at)[i] == later[i - first.len()]);
            }
        }
    }
}

proof fn lemma_rewrites_all_range(models: Seq<InstanceModel>, at: nat)
    requires
        at + sizes(models) <= usize::MAX,
    ensures
        forall|i: int|
            0 <= i < rewrites_of_all(models, at).len() ==> at <= (#[trigger] rewrites_of_all(
                models,
                at,
            )[i]).id.index < at + sizes(models),
    decreases models.len(),
{
    if models.len() > 0 {
        let first = rewrites_of(models[0], at);
        let later = rewrites_of_all(models.drop_first(), at + size(models[0]));
        lemma_rewrites_range(models[0], at);
        lemma_rewrites_all_range(models.drop_first(), at + size(models[0]));
        assert forall|i: int| 0 <= i < rewrites_of_all(models, at).len() implies at <= (
        #[trigger] rewrites_of_all(models, at)[i]).id.index < at + sizes(models) by {
            if i < first.len() {
                assert(rewrites_of_all(models, at)[i] == first[i]);
            } else {
                assert(rewrites_of_all(models, at)[i] == later[i - first.len()]);
            }
        }
    }
}

/// Of what stands inside an instance, its properties alone change it.
proof fn lemma_own_rewrites(
    properties: PropertiesView,
    known: Map<Seq<char>, RbxId>,
    body: Seq<BodyModel>,
    id: RbxId,
    at: nat,
)
    requires
        id.index < at,
        at + body_size(body) <= usize::MAX,
    ensures
        rewritten(properties, known, rewrites_of_body(body, id, at), id) == rewritten(
            properties,
            known,
            property_rewrites(all_properties(body), id),
            id,
        ),
    decreases body.len(),
{
    if body.len() > 0 {
        let others = body.drop_first();
        match body[0] {
            BodyModel::Properties { properties: listed, .. } => {
                let first = property_rewrites(listed, id);
                let made = rewritten(properties, known, first, id);
                let later = rewrites_of_body(others, id, at);
                let rest = property_rewrites(all_properties(others), id);
                lemma_rewritten_concat(properties, known, first, later, id);
                lemma_rewritten_concat(properties, known, first, rest, id);
                lemma_property_rewrites_concat(listed, all_properties(others), id);
                lemma_own_rewrites(made, known, others, id, at);
            },
            BodyModel::Item(model) => {
                let first = rewrites_of(model, at);
                let later = rewrites_of_body(others, id, at + size(model));
                lemma_rewritten_concat(properties, known, first, later, id);
                lemma_rewrites_range(model, at);
                assert(forall|k: int| 0 <= k < first.len() ==> (#[trigger] first[k]).id != id);
                lemma_rewritten_elsewhere(properties, known, first, id);
                lemma_own_rewrites(properties, known, others, id, at + size(model));
            },
        }
    }
}

/// Making the references that an instance asks for gives each instance from it
/// on the properties that it would have had, had all referents been known.
proof fn lemma_placed_rewritten(
    model: InstanceModel,
    parent: RbxId,
    at: nat,
    known: Map<Seq<char>, RbxId>,
    i: int,
)
    requires
        is_model(model),
        has_distinct_names(model),
        at + size(model) <= usize::MAX,
        0 <= i < size(model),
    ensures
        ({
            let before = placed(model, parent, at, Map::empty())[i];
            placed(model, parent, at, known)[i] == (InstanceView {
                properties: rewritten(
                    before.properties,
                    known,
                    rewrites_of(model, at),
                    id_at((at + i) as nat),
                ),
                ..before
            })
        }),
    decreases model, 1nat,
{
    let empty = Map::<Seq<char>, RbxId>::empty();
    let before = placed(model, parent, at, empty)[i];
    let id = id_at((at + i) as nat);
    let all = all_properties(model.body);
    if i == 0 {
        let own = property_rewrites(all, id);
        lemma_own_rewrites(before.properties, known, model.body, id, at + 1);
        lemma_body_properties(model.body);
        lemma_properties_rewritten(Map::empty(), all, known, id);
        lemma_rewritten_without(gathered(Map::empty(), all, empty), known, own, id, "Name"@);
    } else {
        lemma_placed_body_rewritten(model.body, id_at(at), at + 1, known, i - 1);
        lemma_placed_body_len(model.body, id_at(at), at + 1, known);
        lemma_placed_body_len(model.body, id_at(at), at + 1, empty);
        assert(before == placed_body(model.body, id_at(at), at + 1, empty)[i - 1]);
    }
}

proof fn lemma_placed_body_rewritten(
    body: Seq<BodyModel>,
    parent: RbxId,
    at: nat,
    known: Map<Seq<char>, RbxId>,
    i: int,
)
    requires
        is_body(body),
        bodies_are_distinct(body),
        parent.index < at,
        at + body_size(body) <= usize::MAX,
        0 <= i < body_size(body),
    ensures
        ({
            let before = placed_body(body, parent, at, Map::empty())[i];
            placed_body(body, parent, at, known)[i] == (InstanceView {
                properties: rewritten(
                    before.properties,
                    known,
                    rewrites_of_body(body, parent, at),
                    id_at((at + i) as nat),
                ),
                ..before
            })
        }),
    decreases body, 0nat,
{
    let empty = Map::<Seq<char>, RbxId>::empty();
    let before = placed_body(body, parent, at, empty)[i];
    let id = id_at((at + i) as nat);
    let others = body.drop_first();
    match body[0] {
        BodyModel::Properties { properties, .. } => {
            let first = property_rewrites(properties, parent);
            let later = rewrites_of_body(others, parent, at);
            lemma_rewritten_concat(before.properties, known, first, later, id);
            lemma_property_rewrites(properties, parent);
            lemma_rewritten_elsewhere(before.properties, known, first, id);
            lemma_placed_body_rewritten(others, parent, at, known, i);
        },
        BodyModel::Item(model) => {
            let next = at + size(model);
            let first = rewrites_of(model, at);
            let later = rewrites_of_body(others, parent, next);
            lemma_placed_len(model, parent, at, known);
            lemma_placed_len(model, parent, at, empty);
            lemma_rewrites_range(model, at);
            lemma_rewrites_body_range(others, parent, next);
            lemma_rewritten_concat(before.properties, known, first, later, id);
            if i < size(model) {
                lemma_placed_rewritten(model, parent, at, known, i);
                let made = rewritten(before.properties, known, first, id);
                assert(forall|k: int| 0 <= k < later.len() ==> (#[trigger] later[k]).id != id);
                lemma_rewritten_elsewhere(made, known, later, id);
            } else {
                assert(forall|k: int| 0 <= k < first.len() ==> (#[trigger] first[k]).id != id);
                lemma_rewritten_elsewhere(before.properties, known, first, id);
                lemma_placed_body_rewritten(others, parent, next, known, i - size(model));
                lemma_placed_body_len(others, parent, next, known);
                lemma_placed_body_len(others, parent, next, empty);
            }
        },
    }
}

/// No two properties of one of the instances, or of one below them, have the
/// same name.
pub open spec fn have_distinct_names(models: Seq<InstanceModel>) -> bool
    decreases models.len(),
{
    models.len() == 0 || has_distinct_names(models[0]) && have_distinct_names(models.drop_first())
}

proof fn lemma_placed_all_rewritten(
    models: Seq<InstanceModel>,
    parent: RbxId,
    at: nat,
    known: Map<Seq<char>, RbxId>,
    i: int,
)
    requires
        are_models(models),
        have_distinct_names(models),
        at + sizes(models) <= usize::MAX,
        0 <= i < sizes(models),
    ensures
        ({
            let before = placed_all(models, parent, at, Map::empty())[i];
            placed_all(models, parent, at, known)[i] == (InstanceView {
                properties: rewritten(
                    before.properties,
                    known,
                    rewrites_of_all(models, at),
                    id_at((at + i) as nat),
                ),
                ..before
            })
        }),
    decreases models.len(),
{
    let empty = Map::<Seq<char>, RbxId>::empty();
    let before = placed_all(models, parent, at, empty)[i];
    let id = id_at((at + i) as nat);
    let others = models.drop_first();
    let next = at + size(models[0]);
    let first = rewrites_of(models[0], at);
    let later = rewrites_of_all(others, next);
    lemma_placed_len(models[0], parent, at, known);
    lemma_placed_len(models[0], parent, at, empty);
    lemma_rewrites_range(models[0], at);
    lemma_rewrites_all_range(others, next);
    lemma_rewritten_concat(before.properties, known, first, later, id);
    if i < size(models[0]) {
        lemma_placed_rewritten(models[0], parent, at, known, i);
        let made = rewritten(before.properties, known, first, id);
        assert(forall|k: int| 0 <= k < later.len() ==> (#[trigger] later[k]).id != id);
        lemma_rewritten_elsewhere(made, known, later, id);
    } else {
        assert(forall|k: int| 0 <= k < first.len() ==> (#[trigger] first[k]).id != id);
        lemma_rewritten_elsewhere(before.properties, known, first, id);
        lemma_placed_all_rewritten(others, parent, next, known, i - size(models[0]));
        lemma_placed_all_len(others, parent, next, known);
        lemma_placed_all_len(others, parent, next, empty);
    }
}


/// The metadata once parts of a document have been read.
pub open spec fn metadata_with(
    metadata: Map<Seq<char>, Seq<char>>,
    parts: Seq<PartModel>,
) -> Map<Seq<char>, Seq<char>>
    decreases parts.len(),
{
    if parts.len() == 0 {
        metadata
    } else {
        metadata_with(
            match parts[0] {
                PartModel::Meta { name, value, .. } => metadata.insert(name, value),
                _ => metadata,
            },
            parts.drop_first(),
        )
    }
}

/// The edits of a document put its instances into the tree and record its
/// metadata.
#[verifier::spinoff_prover]
pub proof fn lemma_parts_placed(base: Base, state: StateView, parts: Seq<PartModel>, opened: nat)
    requires
        has_instance(state.tree, base.parent),
        state.tree.len() == base.first + opened,
        base.first + opened + sizes(instances_of(parts)) <= usize::MAX,
    ensures
        apply_edits(base, state, edits_of_parts(parts, opened)) == (StateView {
            metadata: metadata_with(state.metadata, parts),
            ..state_with(state, instances_of(parts), base.parent)
        }),
    decreases parts.len(),
{
    if parts.len() == 0 {
        lemma_instances_placed(base, state, Seq::empty(), Place::Given, opened);
        assert(state_with(state, Seq::empty(), base.parent) == state);
    } else {
        let others = parts.drop_first();
        let next = opened + part_size(parts[0]);
        let first = edits_of_part(parts[0], opened);
        let between = apply_edits(base, state, first);
        lemma_apply_edits_concat(base, state, first, edits_of_parts(others, next));
        match parts[0] {
            PartModel::Instance(model) => {
                assert((seq![model] + instances_of(others)).drop_first() =~= instances_of(others));
                lemma_instance_placed(base, state, model, Place::Given, opened);
                lemma_state_with_concat(state, model, instances_of(others), base.parent);
                lemma_parts_placed(base, between, others, next);
            },
            PartModel::Meta { name, value, .. } => {
                lemma_apply_one(base, state, Edit::Describe { name, value });
                lemma_parts_placed(base, between, others, next);
            },
            PartModel::External { .. } => {
                lemma_parts_placed(base, between, others, next);
            },
        }
    }
}

/// The tree once instances, if there are any, have been put under `parent` and
/// all references between them have been made.
pub open spec fn tree_with(tree: TreeView, models: Seq<InstanceModel>, parent: RbxId) -> TreeView {
    if models.len() == 0 {
        tree
    } else {
        with_children(tree, parent, ids_of(models, tree.len())) + placed_all(
            models,
            parent,
            tree.len(),
            referents_with_all(Map::empty(), models, tree.len()),
        )
    }
}

proof fn lemma_resolved(tree: TreeView, models: Seq<InstanceModel>, parent: RbxId)
    requires
        has_instance(tree, parent),
        models.len() > 0,
        are_models(models),
        have_distinct_names(models),
        tree.len() + sizes(models) <= usize::MAX,
    ensures
        resolved(state_with(fresh_state(tree), models, parent)).tree == tree_with(
            tree,
            models,
            parent,
        ),
{
    let at = tree.len();
    let state = state_with(fresh_state(tree), models, parent);
    let known = referents_with_all(Map::empty(), models, at);
    let empty = Map::<Seq<char>, RbxId>::empty();
    let rewrites = rewrites_of_all(models, at);
    assert(state.rewrites =~= rewrites);
    lemma_rewrites_all_range(models, at);
    lemma_placed_all_len(models, parent, at, empty);
    lemma_placed_all_len(models, parent, at, known);
    let after = resolved(state).tree;
    let expected = tree_with(tree, models, parent);
    lemma_rewritten(state.tree, known, rewrites, parent);
    assert forall|i: int| 0 <= i < expected.len() implies after[i] == (#[trigger] expected[i]) by {
        let id = id_at(i as nat);
        lemma_rewritten(state.tree, known, rewrites, id);
        if i < at {
            assert(forall|k: int| 0 <= k < rewrites.len() ==> (#[trigger] rewrites[k]).id != id);
            lemma_rewritten_elsewhere(state.tree[i].properties, known, rewrites, id);
        } else {
            lemma_placed_all_rewritten(models, parent, at, known, i - at);
        }
    }
    assert(after =~= expected);
}

/// Decoding a document that was written down puts its instances, as they were
/// written, under the given instance, in order and behind the children that it
/// has: each with its class, with its name or else the name of its class, with
/// its properties under their canonical names, and with its own children below
/// it. A reference refers to the instance that its referent stands for,
/// wherever in the document that instance is; where the referent stands for
/// none, and where the reference is null, it refers to nothing. Nothing else in
/// the tree changes.
pub proof fn law_decoding_gives_back_what_was_written(
    attributes: Seq<AttributeView>,
    parts: Seq<PartModel>,
    rest: Stream,
    tree: TreeView,
    parent: RbxId,
)
    requires
        says_version_four(attributes),
        are_parts(parts),
        have_distinct_names(instances_of(parts)),
        instances_of(parts).len() > 0 ==> has_instance(tree, parent),
        tree.len() + sizes(instances_of(parts)) <= usize::MAX,
    ensures
        is_decodable(document_events(attributes, parts) + rest),
        decoded(document_events(attributes, parts) + rest, tree, parent) == (
            Ok::<(), ErrorView>(()),
            tree_with(tree, instances_of(parts), parent),
        ),
{
    let base = Base { parent, first: tree.len() };
    let models = instances_of(parts);
    let stream = document_events(attributes, parts) + rest;
    law_documents_read_back(attributes, parts, rest);
    if models.len() == 0 {
        law_nothing_opened_changes_nothing(stream, tree, parent);
    } else {
        lemma_parts_placed(base, fresh_state(tree), parts, 0);
        lemma_instances_of(parts);
        lemma_resolved(tree, models, parent);
    }
}

/// No event is standalone whitespace.
pub open spec fn is_tight(stream: Stream) -> bool {
    forall|i: int|
        0 <= i < stream.len() ==> (#[trigger] stream[i]) != Ok::<_, Seq<char>>(
            EventView::Whitespace,
        )
}

proof fn lemma_tight_element(name: Seq<char>, attributes: Seq<AttributeView>, inside: Stream)
    requires
        is_tight(inside),
    ensures
        is_tight(element(name, attributes, inside)),
{
}

proof fn lemma_tight_text(pieces: Seq<Piece>)
    ensures
        is_tight(text_events(pieces)),
{
    let events = text_events(pieces);
    assert forall|i: int| 0 <= i < events.len() implies (#[trigger] events[i]) != Ok::<_, Seq<char>>(
        EventView::Whitespace,
    ) by {
        assert(events[i] == piece_event(pieces[i]));
    }
}

proof fn lemma_tight_scalars(tags: Seq<Seq<char>>, parts: Seq<ScalarModel>)
    ensures
        is_tight(scalar_elements(tags, parts)),
    decreases tags.len(),
{
    if tags.len() > 0 {
        lemma_tight_text(parts[0].pieces);
        lemma_tight_element(tags[0], parts[0].attributes, text_events(parts[0].pieces));
        lemma_tight_scalars(tags.drop_first(), parts.drop_first());
    }
}

proof fn lemma_tight_properties(models: Seq<PropertyModel>)
    ensures
        is_tight(properties_events(models)),
    decreases models.len(),
{
    if models.len() > 0 {
        let model = models[0];
        lemma_tight_text(model.pieces);
        lemma_tight_scalars(two_axes(), model.parts);
        lemma_tight_scalars(three_axes(), model.parts);
        lemma_tight_scalars(color_parts(), model.parts);
        lemma_tight_scalars(frame_parts(), model.parts);
        lemma_tight_element(xml_type(model.held), model.attributes, held_events(model));
        lemma_tight_properties(models.drop_first());
    }
}

proof fn lemma_tight_instance(model: InstanceModel)
    ensures
        is_tight(instance_events(model)),
    decreases model, 1nat,
{
    lemma_tight_body(model.body);
    lemma_tight_element("Item"@, model.attributes, body_events(model.body));
}

proof fn lemma_tight_body(body: Seq<BodyModel>)
    ensures
        is_tight(body_events(body)),
    decreases body, 0nat,
{
    if body.len() > 0 {
        match body[0] {
            BodyModel::Properties { attributes, properties } => {
                lemma_tight_properties(properties);
                lemma_tight_element("Properties"@, attributes, properties_events(properties));
            },
            BodyModel::Item(model) => {
                lemma_tight_instance(model);
            },
        }
        lemma_tight_body(body.drop_first());
    }
}

proof fn lemma_tight_parts(parts: Seq<PartModel>)
    requires
        forall|i: int|
            0 <= i < parts.len() && (#[trigger] parts[i]) is External ==> is_tight(
                parts[i]->External_inside,
            ),
    ensures
        is_tight(parts_events(parts)),
    decreases parts.len(),
{
    if parts.len() > 0 {
        let others = parts.drop_first();
        assert(forall|i: int| 0 <= i < others.len() ==> (#[trigger] others[i]) == parts[i + 1]);
        match parts[0] {
            PartModel::Instance(model) => {
                lemma_tight_instance(model);
            },
            PartModel::Meta { attributes, value, .. } => {
                lemma_tight_element("Meta"@, attributes, seq![Ok(EventView::Characters(value))]);
            },
            PartModel::External { attributes, inside } => {
                assert(is_tight(parts[0]->External_inside));
                lemma_tight_element("External"@, attributes, inside);
            },
        }
        lemma_tight_parts(others);
    }
}

/// Nothing of a document that was written down is left out, but for whitespace
/// in what is passed over: neither texts of any kind nor tags.
pub proof fn law_written_documents_are_significant(
    attributes: Seq<AttributeView>,
    parts: Seq<PartModel>,
)
    requires
        forall|i: int|
            0 <= i < parts.len() && (#[trigger] parts[i]) is External ==> is_tight(
                parts[i]->External_inside,
            ),
    ensures
        significant(document_events(attributes, parts)) == document_events(attributes, parts),
{
    lemma_tight_parts(parts);
    law_only_whitespace_is_left_out(document_events(attributes, parts));
}

/// A source whose events are those of a document that was written down, with
/// standalone whitespace wherever it may be, has an answer: it succeeds, and the
/// tree holds what was written.
pub proof fn law_sources_give_back_what_was_written(
    source: Seq<u8>,
    attributes: Seq<AttributeView>,
    parts: Seq<PartModel>,
    rest: Stream,
    tree: TreeView,
    parent: RbxId,
)
    requires
        significant(xml_events(source)) == significant(document_events(attributes, parts) + rest),
        forall|i: int|
            0 <= i < parts.len() && (#[trigger] parts[i]) is External ==> is_tight(
                parts[i]->External_inside,
            ),
        says_version_four(attributes),
        are_parts(parts),
        have_distinct_names(instances_of(parts)),
        instances_of(parts).len() > 0 ==> has_instance(tree, parent),
        tree.len() + sizes(instances_of(parts)) <= usize::MAX,
    ensures
        has_answer(source, tree, parent),
        forall|result: Result<(), DecodeError>, after: TreeView| #[trigger]
            decodes_to(source, tree, parent, result, after) ==> {
                &&& unit_view(result) == Ok::<(), ErrorView>(())
                &&& after == tree_with(tree, instances_of(parts), parent)
            },
{
    let written = document_events(attributes, parts);
    let behind = significant(rest);
    law_written_documents_are_significant(attributes, parts);
    Seq::filter_distributes_over_add(written, rest, |item: ItemView| is_significant(item));
    assert(significant(xml_events(source)) == written + behind);
    law_decoding_gives_back_what_was_written(attributes, parts, behind, tree, parent);
    law_documents_read_back(attributes, parts, behind);
}

/// The instances of a document that can be written down can be written down.
proof fn lemma_instances_of(parts: Seq<PartModel>)
    requires
        are_parts(parts),
    ensures
        are_models(instances_of(parts)),
    decreases parts.len(),
{
    if parts.len() > 0 {
        let others = parts.drop_first();
        assert(is_part(parts[0]));
        assert(forall|i: int| 0 <= i < others.len() ==> (#[trigger] others[i]) == parts[i + 1]);
        lemma_instances_of(others);
        if let PartModel::Instance(model) = parts[0] {
            assert((seq![model] + instances_of(others)).drop_first() =~= instances_of(others));
        }
    }
}

}
