//! What decoding does to the tree that it is given.

use vstd::prelude::*;

use crate::deserializer::decoded;
use crate::document::{document, is_decodable, Edit, Place};
use crate::dom::{
    has_instance, is_attached, is_child_of, is_tree, next_id, with_instance, InstanceView, RbxId,
    TreeView,
};
use crate::event::Stream;
use crate::laws::scope::{are_edits, is_edit, law_documents_speak_of_their_own, opened_by};
use crate::state::{
    apply_edit, apply_edits, apply_rewrite, apply_rewrites, fresh_state, place_id, resolved, Base,
    RewriteView, StateView,
};

verus! {

/// Two instances stand in the same place, under the same parent and with the
/// same children.
pub open spec fn same_place(a: InstanceView, b: InstanceView) -> bool {
    a.parent == b.parent && a.children == b.children
}

/// Two trees have the same shape.
pub open spec fn same_shape(a: TreeView, b: TreeView) -> bool {
    &&& a.len() == b.len()
    &&& forall|i: int| 0 <= i < a.len() ==> same_place(#[trigger] a[i], b[i])
}

/// An instance gained children and nothing else.
pub open spec fn gained_children(before: InstanceView, after: InstanceView) -> bool {
    &&& after.name == before.name
    &&& after.class_name == before.class_name
    &&& after.properties == before.properties
    &&& after.parent == before.parent
    &&& before.children.is_prefix_of(after.children)
}

/// A tree gained instances, some of them behind the children of `parent`, and
/// nothing else.
pub open spec fn gained_under(before: TreeView, after: TreeView, parent: RbxId) -> bool {
    &&& before.len() <= after.len()
    &&& forall|i: int|
        0 <= i < before.len() && i != parent.index ==> (#[trigger] after[i]) == before[i]
    &&& gained_children(before[parent.index as int], after[parent.index as int])
    &&& forall|k: int|
        before[parent.index as int].children.len() <= k
            < after[parent.index as int].children.len() ==> before.len() <= (
        #[trigger] after[parent.index as int].children[k]).index < after.len()
}

/// Whether a tree is one depends on its shape alone.
proof fn lemma_same_shape(a: TreeView, b: TreeView)
    requires
        is_tree(a),
        same_shape(a, b),
    ensures
        is_tree(b),
{
    assert(same_place(a[0], b[0]));
    assert forall|i: int| #[trigger] is_attached(b, i) by {
        if 0 < i < b.len() {
            assert(is_attached(a, i));
            assert(same_place(a[i], b[i]));
            let above = a[i].parent->0.index as int;
            assert(same_place(a[above], b[above]));
        }
    }
    assert forall|i: int, k: int| #[trigger] is_child_of(b, i, k) by {
        if 0 <= i < b.len() && 0 <= k < b[i].children.len() {
            assert(same_place(a[i], b[i]));
            assert(is_child_of(a, i, k));
            let child = a[i].children[k].index as int;
            assert(same_place(a[child], b[child]));
            assert forall|j: int| 0 <= j < k implies (#[trigger] b[i].children[j]).index
                < b[i].children[k].index by {
                assert(a[i].children[j].index < a[i].children[k].index);
            }
        }
    }
}

/// A tree with one more instance is a tree.
pub proof fn law_inserting_keeps_the_tree(
    tree: TreeView,
    name: Seq<char>,
    class_name: Seq<char>,
    properties: crate::dom::PropertiesView,
    parent: RbxId,
)
    requires
        is_tree(tree),
        has_instance(tree, parent),
        tree.len() < usize::MAX,
    ensures
        is_tree(with_instance(tree, name, class_name, properties, parent)),
        gained_under(tree, with_instance(tree, name, class_name, properties, parent), parent),
{
    let grown = with_instance(tree, name, class_name, properties, parent);
    let at = parent.index as int;
    let last = tree.len() as int;
    assert(grown[at].children == tree[at].children.push(next_id(tree)));
    assert forall|i: int| #[trigger] is_attached(grown, i) by {
        if 0 < i < grown.len() {
            if i == last {
                let children = grown[at].children;
                assert(children[children.len() - 1] == next_id(tree));
            } else {
                assert(is_attached(tree, i));
                let above = tree[i].parent->0.index as int;
                let me = RbxId { index: i as usize };
                let k = choose|k: int|
                    0 <= k < tree[above].children.len() && tree[above].children[k] == me;
                assert(grown[above].children[k] == me);
            }
        }
    }
    assert forall|i: int, k: int| #[trigger] is_child_of(grown, i, k) by {
        if 0 <= i < grown.len() && 0 <= k < grown[i].children.len() {
            assert(i < last);
            if k < tree[i].children.len() {
                assert(is_child_of(tree, i, k));
            }
            assert forall|j: int| 0 <= j < tree[i].children.len() implies (
            #[trigger] tree[i].children[j]).index < last by {
                assert(is_child_of(tree, i, j));
            }
            assert forall|j: int| 0 <= j < k implies (#[trigger] grown[i].children[j]).index
                < grown[i].children[k].index by {
                assert(grown[i].children[j] == tree[i].children[j]);
                if k < tree[i].children.len() {
                    assert(tree[i].children[j].index < tree[i].children[k].index);
                }
            }
        }
    }
}


/// The parent of the instance at `i` is `top`, or an instance from `low` on that
/// was there before it.
pub open spec fn goes_under(parent: Option<RbxId>, top: RbxId, low: nat, i: int) -> bool {
    &&& parent is Some
    &&& parent->0 == top || low <= parent->0.index < i
}

/// The instance at `i` stands below `top`: under it, or under an instance that
/// does and was there before.
pub open spec fn is_below(tree: TreeView, i: int, top: RbxId) -> bool
    decreases i,
{
    &&& 0 <= i < tree.len()
    &&& tree[i].parent is Some
    &&& tree[i].parent->0 == top || tree[i].parent->0.index < i && is_below(
        tree,
        tree[i].parent->0.index as int,
        top,
    )
}

/// An inserted instance is as it was given, the last of the tree and the last
/// child of its parent, and nothing else changes.
pub proof fn law_inserted_instances_are_as_given(
    tree: TreeView,
    name: Seq<char>,
    class_name: Seq<char>,
    properties: crate::dom::PropertiesView,
    parent: RbxId,
)
    requires
        has_instance(tree, parent),
        tree.len() <= usize::MAX,
    ensures
        ({
            let at = tree.len() as int;
            let above = parent.index as int;
            let grown = with_instance(tree, name, class_name, properties, parent);
            &&& next_id(tree).index == at
            &&& grown.len() == at + 1
            &&& grown[at] == (InstanceView {
                name,
                class_name,
                properties,
                parent: Some(parent),
                children: Seq::empty(),
            })
            &&& grown[above] == (InstanceView {
                children: tree[above].children.push(RbxId { index: at as usize }),
                ..tree[above]
            })
            &&& forall|i: int| 0 <= i < at && i != above ==> (#[trigger] grown[i]) == tree[i]
        }),
{
}

/// What holds throughout the decoding of a document into `tree`, with `opened`
/// instances opened so far: the tree gained as many instances, below the given
/// place, and nothing else; and referents and references are those of the
/// instances that it gained.
pub open spec fn is_decoding(base: Base, tree: TreeView, state: StateView, opened: nat) -> bool {
    &&& state.tree.len() == tree.len() + opened
    &&& gained_under(tree, state.tree, base.parent)
    &&& is_tree(tree) ==> is_tree(state.tree)
    &&& forall|i: int|
        0 <= i < state.rewrites.len() ==> tree.len() <= (#[trigger] state.rewrites[i]).id.index
            < state.tree.len()
    &&& forall|referent: Seq<char>| #[trigger]
        state.referents.contains_key(referent) ==> tree.len() <= state.referents[referent].index
            < state.tree.len()
    &&& forall|i: int|
        tree.len() <= i < state.tree.len() ==> goes_under(
            (#[trigger] state.tree[i]).parent,
            base.parent,
            tree.len(),
            i,
        )
}

proof fn lemma_edit_step(base: Base, tree: TreeView, state: StateView, opened: nat, edit: Edit)
    requires
        base.first == tree.len(),
        opened > 0 || edit is Open ==> has_instance(tree, base.parent),
        is_decoding(base, tree, state, opened),
        is_edit(edit, opened),
        tree.len() + opened + 1 <= usize::MAX || (tree.len() + opened <= usize::MAX
            && !(edit is Open)),
    ensures
        is_decoding(
            base,
            tree,
            apply_edit(base, state, edit),
            if edit is Open {
                opened + 1
            } else {
                opened
            },
        ),
{
    let next = apply_edit(base, state, edit);
    let at = base.parent.index as int;
    match edit {
        Edit::Open { parent, referent } => {
            let place = place_id(base, parent);
            assert(has_instance(state.tree, place));
            if is_tree(tree) {
                law_inserting_keeps_the_tree(
                    state.tree,
                    Seq::empty(),
                    Seq::empty(),
                    Map::empty(),
                    place,
                );
            }
            match parent {
                Place::Given => {
                    assert(next.tree[at].children == state.tree[at].children.push(
                        next_id(state.tree),
                    ));
                },
                Place::Opened(_) => {
                    assert(next.tree[at] == state.tree[at]);
                },
            }
            assert(gained_under(tree, next.tree, base.parent));
        },
        Edit::Fill { .. } => {
            if is_tree(tree) {
                lemma_same_shape(state.tree, next.tree);
            }
        },
        Edit::Describe { .. } => {
            assert(next.tree == state.tree);
        },
        Edit::Link { .. } => {
            assert(next.tree == state.tree);
        },
    }
}

pub proof fn lemma_edits_decoding(base: Base, tree: TreeView, edits: Seq<Edit>)
    requires
        base.first == tree.len(),
        opened_by(edits) > 0 ==> has_instance(tree, base.parent),
        are_edits(edits, 0),
        tree.len() + opened_by(edits) <= usize::MAX,
    ensures
        is_decoding(base, tree, apply_edits(base, fresh_state(tree), edits), opened_by(edits)),
    decreases edits.len(),
{
    if edits.len() > 0 {
        let earlier = edits.drop_last();
        lemma_edits_decoding(base, tree, earlier);
        lemma_edit_step(
            base,
            tree,
            apply_edits(base, fresh_state(tree), earlier),
            opened_by(earlier),
            edits.last(),
        );
    }
}

pub proof fn lemma_rewrites_decoding(
    base: Base,
    tree: TreeView,
    state: StateView,
    opened: nat,
    rewrites: Seq<RewriteView>,
)
    requires
        base.first == tree.len(),
        opened > 0 ==> has_instance(tree, base.parent),
        is_decoding(base, tree, state, opened),
        forall|i: int|
            0 <= i < rewrites.len() ==> tree.len() <= (#[trigger] rewrites[i]).id.index
                < state.tree.len(),
    ensures
        is_decoding(
            base,
            tree,
            (StateView { tree: apply_rewrites(state.tree, state.referents, rewrites), ..state }),
            opened,
        ),
    decreases rewrites.len(),
{
    if rewrites.len() > 0 {
        let earlier = rewrites.drop_last();
        assert(forall|i: int| 0 <= i < earlier.len() ==> (#[trigger] earlier[i]) == rewrites[i]);
        lemma_rewrites_decoding(base, tree, state, opened, earlier);
        let before = apply_rewrites(state.tree, state.referents, earlier);
        let after = apply_rewrite(before, state.referents, rewrites.last());
        if is_tree(tree) {
            lemma_same_shape(before, after);
        }
        assert(gained_under(tree, after, base.parent));
    }
}

/// Decoding a document, whether it succeeds or not, leaves every instance that
/// the tree had as it was, but that the one decoded into gains children behind
/// those that it had. The tree gains the instances that the document opened,
/// all of which stand below that one, and stays a tree.
pub proof fn law_decoding_only_adds(stream: Stream, tree: TreeView, parent: RbxId)
    requires
        document(stream).opened > 0 ==> has_instance(tree, parent),
        is_decodable(stream),
        tree.len() + document(stream).opened <= usize::MAX,
    ensures
        ({
            let (_, after) = decoded(stream, tree, parent);
            &&& after.len() == tree.len() + document(stream).opened
            &&& gained_under(tree, after, parent)
            &&& is_tree(tree) ==> is_tree(after)
            &&& forall|i: int| tree.len() <= i < after.len() ==> #[trigger] is_below(after, i, parent)
        }),
{
    let base = Base { parent, first: tree.len() };
    let read = document(stream);
    let state = apply_edits(base, fresh_state(tree), read.edits);
    law_documents_speak_of_their_own(stream);
    lemma_edits_decoding(base, tree, read.edits);
    lemma_rewrites_decoding(base, tree, state, read.opened, state.rewrites);
    assert(resolved(state).tree == apply_rewrites(state.tree, state.referents, state.rewrites));
    let (_, after) = decoded(stream, tree, parent);
    assert forall|i: int| tree.len() <= i < after.len() implies #[trigger] is_below(
        after,
        i,
        parent,
    ) by {
        lemma_below(after, tree.len(), parent, i);
    }
}

proof fn lemma_below(tree: TreeView, low: nat, top: RbxId, i: int)
    requires
        low <= i < tree.len(),
        forall|k: int|
            low <= k < tree.len() ==> goes_under((#[trigger] tree[k]).parent, top, low, k),
    ensures
        is_below(tree, i, top),
    decreases i,
{
    assert(goes_under(tree[i].parent, top, low, i));
    if tree[i].parent->0 != top {
        lemma_below(tree, low, top, tree[i].parent->0.index as int);
    }
}


/// A document that opens no instance leaves the tree as it was, and asks for no
/// instance to be decoded into.
pub proof fn law_nothing_opened_changes_nothing(stream: Stream, tree: TreeView, parent: RbxId)
    requires
        is_decodable(stream),
        document(stream).opened == 0,
    ensures
        decoded(stream, tree, parent).1 == tree,
{
    let base = Base { parent, first: tree.len() };
    let edits = document(stream).edits;
    law_documents_speak_of_their_own(stream);
    lemma_nothing_opened(base, tree, edits);
}

proof fn lemma_nothing_opened(base: Base, tree: TreeView, edits: Seq<Edit>)
    requires
        are_edits(edits, 0),
        opened_by(edits) == 0,
    ensures
        apply_edits(base, fresh_state(tree), edits).tree == tree,
        apply_edits(base, fresh_state(tree), edits).rewrites == Seq::<RewriteView>::empty(),
    decreases edits.len(),
{
    if edits.len() > 0 {
        lemma_nothing_opened(base, tree, edits.drop_last());
    }
}


/// An instance is opened blank, as the last child at its place, and its referent
/// stands for it from then on; nothing else changes.
pub proof fn law_instances_are_opened_blank(
    base: Base,
    state: StateView,
    place: Place,
    referent: Option<Seq<char>>,
)
    requires
        has_instance(state.tree, place_id(base, place)),
        state.tree.len() < usize::MAX,
    ensures
        ({
            let at = state.tree.len() as int;
            let above = place_id(base, place);
            let me = RbxId { index: at as usize };
            let next = apply_edit(base, state, Edit::Open { parent: place, referent });
            &&& next.tree.len() == at + 1
            &&& next.tree[at] == (InstanceView {
                name: Seq::empty(),
                class_name: Seq::empty(),
                properties: Map::empty(),
                parent: Some(above),
                children: Seq::empty(),
            })
            &&& next.tree[above.index as int] == (InstanceView {
                children: state.tree[above.index as int].children.push(me),
                ..state.tree[above.index as int]
            })
            &&& forall|i: int|
                0 <= i < at && i != above.index ==> (#[trigger] next.tree[i]) == state.tree[i]
            &&& next.metadata == state.metadata
            &&& next.rewrites == state.rewrites
            &&& match referent {
                Some(referent) => next.referents == state.referents.insert(referent, me),
                None => next.referents == state.referents,
            }
        }),
{
}

}
