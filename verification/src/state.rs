//! What decoding keeps track of, and what each edit of a document does to it.

use vstd::hash_map::StringHashMap;
use vstd::prelude::*;

use crate::document::{Edit, Place};
use crate::dom::{
    has_instance, next_id, with_contents, with_instance, with_property, RbxId, RbxTree, RbxValue,
    TreeView, ValueView,
};

verus! {

/// A property that is to refer to an instance, which is known by its referent.
pub struct IdPropertyRewrite {
    pub id: RbxId,
    pub property_name: String,
    pub referent_value: String,
}

/// An [`IdPropertyRewrite`] without the representation of its texts.
pub struct RewriteView {
    pub id: RbxId,
    pub property_name: Seq<char>,
    pub referent_value: Seq<char>,
}

impl View for IdPropertyRewrite {
    type V = RewriteView;

    open spec fn view(&self) -> RewriteView {
        RewriteView {
            id: self.id,
            property_name: self.property_name@,
            referent_value: self.referent_value@,
        }
    }
}

/// The state needed to deserialize an XML model into a tree.
pub struct ParseState<'a> {
    /// The instance that each referent stands for.
    pub referents: StringHashMap<RbxId>,
    /// The metadata of the document.
    pub metadata: StringHashMap<String>,
    /// The references that are yet to be made.
    pub rewrite_ids: Vec<IdPropertyRewrite>,
    /// The tree that the document is decoded into.
    pub tree: &'a mut RbxTree,
}

/// A [`ParseState`] without the representation of its parts: the tree as it is
/// now, the instance that each referent stands for, the metadata, and the
/// references that are yet to be made, in order.
#[verifier::ext_equal]
pub struct StateView {
    pub tree: TreeView,
    pub referents: Map<Seq<char>, RbxId>,
    pub metadata: Map<Seq<char>, Seq<char>>,
    pub rewrites: Seq<RewriteView>,
}

impl<'a> View for ParseState<'a> {
    type V = StateView;

    open spec fn view(&self) -> StateView {
        StateView {
            tree: self.tree@,
            referents: self.referents@,
            metadata: self.metadata@.map_values(|value: String| value@),
            rewrites: self.rewrite_ids@.map_values(|rewrite: IdPropertyRewrite| rewrite@),
        }
    }
}

/// Nothing is known yet but the tree.
pub open spec fn fresh_state(tree: TreeView) -> StateView {
    StateView { tree, referents: Map::empty(), metadata: Map::empty(), rewrites: Seq::empty() }
}

/// Every reference is to be made from an instance of the tree, and every
/// referent stands for one.
pub open spec fn is_state(state: StateView) -> bool {
    &&& forall|i: int|
        0 <= i < state.rewrites.len() ==> has_instance(
            state.tree,
            (#[trigger] state.rewrites[i]).id,
        )
    &&& forall|referent: Seq<char>| #[trigger]
        state.referents.contains_key(referent) ==> has_instance(
            state.tree,
            state.referents[referent],
        )
}

/// Where a document is decoded into a tree: the instance that its top level
/// stands under, and how many instances there were before.
pub struct Base {
    pub parent: RbxId,
    pub first: nat,
}

/// The ID of an instance of the document.
pub open spec fn instance_id(base: Base, instance: nat) -> RbxId {
    RbxId { index: (base.first + instance) as usize }
}

/// The ID of the instance at a place.
pub open spec fn place_id(base: Base, place: Place) -> RbxId {
    match place {
        Place::Given => base.parent,
        Place::Opened(instance) => instance_id(base, instance),
    }
}

/// What an edit does.
pub open spec fn apply_edit(base: Base, state: StateView, edit: Edit) -> StateView {
    match edit {
        Edit::Open { parent, referent } => StateView {
            tree: with_instance(
                state.tree,
                Seq::empty(),
                Seq::empty(),
                Map::empty(),
                place_id(base, parent),
            ),
            referents: match referent {
                Some(referent) => state.referents.insert(referent, next_id(state.tree)),
                None => state.referents,
            },
            ..state
        },
        Edit::Fill { instance, name, class_name, properties } => StateView {
            tree: with_contents(
                state.tree,
                instance_id(base, instance),
                name,
                class_name,
                properties,
            ),
            ..state
        },
        Edit::Describe { name, value } => StateView {
            metadata: state.metadata.insert(name, value),
            ..state
        },
        Edit::Link { instance, property, referent } => StateView {
            rewrites: state.rewrites.push(
                RewriteView {
                    id: instance_id(base, instance),
                    property_name: property,
                    referent_value: referent,
                },
            ),
            ..state
        },
    }
}

/// What edits do, one after another.
pub open spec fn apply_edits(base: Base, state: StateView, edits: Seq<Edit>) -> StateView
    decreases edits.len(),
{
    if edits.len() == 0 {
        state
    } else {
        apply_edit(base, apply_edits(base, state, edits.drop_last()), edits.last())
    }
}

/// What a reference does to the tree, now that all referents are known: nothing
/// where its referent stands for no instance.
pub open spec fn apply_rewrite(
    tree: TreeView,
    referents: Map<Seq<char>, RbxId>,
    rewrite: RewriteView,
) -> TreeView {
    if referents.contains_key(rewrite.referent_value) {
        with_property(
            tree,
            rewrite.id,
            rewrite.property_name,
            ValueView::Ref(Some(referents[rewrite.referent_value])),
        )
    } else {
        tree
    }
}

/// What references do to the tree, one after another.
pub open spec fn apply_rewrites(
    tree: TreeView,
    referents: Map<Seq<char>, RbxId>,
    rewrites: Seq<RewriteView>,
) -> TreeView
    decreases rewrites.len(),
{
    if rewrites.len() == 0 {
        tree
    } else {
        apply_rewrite(
            apply_rewrites(tree, referents, rewrites.drop_last()),
            referents,
            rewrites.last(),
        )
    }
}

/// Every reference whose referent stands for an instance is to be made from an
/// instance of the tree.
pub open spec fn can_rewrite(
    tree: TreeView,
    referents: Map<Seq<char>, RbxId>,
    rewrites: Seq<RewriteView>,
) -> bool {
    forall|i: int|
        0 <= i < rewrites.len() && referents.contains_key(
            (#[trigger] rewrites[i]).referent_value,
        ) ==> has_instance(tree, rewrites[i].id)
}

/// The state once all references have been made.
pub open spec fn resolved(state: StateView) -> StateView {
    StateView { tree: apply_rewrites(state.tree, state.referents, state.rewrites), ..state }
}

/// Edits in two parts do what they do as a whole.
pub proof fn lemma_apply_edits_concat(base: Base, state: StateView, a: Seq<Edit>, b: Seq<Edit>)
    ensures
        apply_edits(base, state, a + b) == apply_edits(base, apply_edits(base, state, a), b),
    decreases b.len(),
{
    if b.len() == 0 {
        assert(a + b =~= a);
    } else {
        assert((a + b).drop_last() =~= a + b.drop_last());
        lemma_apply_edits_concat(base, state, a, b.drop_last());
    }
}

/// One edit by itself.
pub proof fn lemma_apply_one(base: Base, state: StateView, edit: Edit)
    ensures
        apply_edits(base, state, seq![edit]) == apply_edit(base, state, edit),
{
    assert(seq![edit].drop_last() =~= Seq::<Edit>::empty());
    assert(apply_edits(base, state, seq![edit].drop_last()) == state);
}

/// References add no instance.
pub proof fn lemma_rewrites_len(
    tree: TreeView,
    referents: Map<Seq<char>, RbxId>,
    rewrites: Seq<RewriteView>,
)
    requires
        can_rewrite(tree, referents, rewrites),
    ensures
        apply_rewrites(tree, referents, rewrites).len() == tree.len(),
    decreases rewrites.len(),
{
    if rewrites.len() > 0 {
        let earlier = rewrites.drop_last();
        assert(forall|i: int| 0 <= i < earlier.len() ==> (#[trigger] earlier[i]) == rewrites[i]);
        lemma_rewrites_len(tree, referents, earlier);
    }
}

impl<'a> ParseState<'a> {
    /// A state in which nothing is known yet but the tree.
    pub fn new(tree: &'a mut RbxTree) -> (state: ParseState<'a>)
        ensures
            state@ == fresh_state(old(tree)@),
            *final(tree) == *final(state.tree),
    {
        let state = ParseState {
            referents: StringHashMap::new(),
            metadata: StringHashMap::new(),
            rewrite_ids: Vec::new(),
            tree,
        };
        assert(state@ =~= fresh_state(old(tree)@));
        state
    }

    /// Marks that a property on this instance needs to be rewritten once we
    /// have a complete view of how referents map to RbxId values.
    ///
    /// This is used to deserialize non-null Ref values correctly.
    pub fn add_id_rewrite(&mut self, id: RbxId, property_name: String, referent_value: String)
        ensures
            final(self)@ == (StateView {
                rewrites: old(self)@.rewrites.push(
                    RewriteView {
                        id,
                        property_name: property_name@,
                        referent_value: referent_value@,
                    },
                ),
                ..old(self)@
            }),
            *final(final(self).tree) == *final(old(self).tree),
    {
        self.rewrite_ids.push(IdPropertyRewrite { id, property_name, referent_value });
        assert(self@.rewrites =~= old(self)@.rewrites.push(
            RewriteView { id, property_name: property_name@, referent_value: referent_value@ },
        ));
    }

    /// Records a piece of metadata.
    pub(crate) fn describe(&mut self, name: String, value: String)
        ensures
            final(self)@ == (StateView {
                metadata: old(self)@.metadata.insert(name@, value@),
                ..old(self)@
            }),
            *final(final(self).tree) == *final(old(self).tree),
    {
        self.metadata.insert(name, value);
        assert(self@.metadata =~= old(self)@.metadata.insert(name@, value@));
    }

    /// Opens a blank instance under the given one, and makes the referent stand
    /// for it.
    pub(crate) fn open_instance(&mut self, parent_id: RbxId, referent: Option<String>) -> (id:
        RbxId)
        requires
            has_instance(old(self)@.tree, parent_id),
        ensures
            id == next_id(old(self)@.tree),
            has_instance(final(self)@.tree, id),
            final(self)@ == (StateView {
                tree: with_instance(
                    old(self)@.tree,
                    Seq::empty(),
                    Seq::empty(),
                    Map::empty(),
                    parent_id,
                ),
                referents: match referent {
                    Some(referent) => old(self)@.referents.insert(
                        referent@,
                        next_id(old(self)@.tree),
                    ),
                    None => old(self)@.referents,
                },
                ..old(self)@
            }),
            *final(final(self).tree) == *final(old(self).tree),
    {
        let blank = crate::dom::RbxInstanceProperties {
            name: String::new(),
            class_name: String::new(),
            properties: crate::dom::Properties::new(),
        };
        let id = self.tree.insert_instance(blank, parent_id);
        if let Some(referent) = referent {
            self.referents.insert(referent, id);
        }
        id
    }
}

/// Makes every reference whose referent stands for an instance.
pub fn apply_id_rewrites(state: &mut ParseState)
    requires
        can_rewrite(old(state)@.tree, old(state)@.referents, old(state)@.rewrites),
    ensures
        final(state)@ == resolved(old(state)@),
        *final(final(state).tree) == *final(old(state).tree),
{
    let ghost all = state@.rewrites;
    let ghost before = state@;
    let mut i: usize = 0;
    assert(all.take(0) =~= Seq::empty());
    while i < state.rewrite_ids.len()
        invariant
            before == old(state)@,
            all == before.rewrites,
            i <= all.len(),
            state@ == (StateView {
                tree: apply_rewrites(before.tree, before.referents, all.take(i as int)),
                ..before
            }),
            can_rewrite(before.tree, before.referents, all),
            *final(state.tree) == *final(old(state).tree),
        decreases all.len() - i,
    {
        proof {
            let earlier = all.take(i as int);
            assert(forall|k: int| 0 <= k < earlier.len() ==> (#[trigger] earlier[k]) == all[k]);
            lemma_rewrites_len(before.tree, before.referents, earlier);
            assert(all.take(i + 1).drop_last() =~= all.take(i as int));
            assert(state@.rewrites == all);
            assert(all[i as int] == state.rewrite_ids@[i as int]@);
        }
        let id = state.rewrite_ids[i].id;
        let new_value = match state.referents.get(state.rewrite_ids[i].referent_value.as_str()) {
            Some(id) => Some(*id),
            None => None,
        };
        if let Some(new_value) = new_value {
            let name = state.rewrite_ids[i].property_name.clone();
            state.tree.set_property(id, name, RbxValue::Ref { value: Some(new_value) });
        }
        i += 1;
    }
    assert(all.take(all.len() as int) =~= all);
}

}
