//! Handing decoded instances over to a tree of the `rbx_dom_weak` crate.

use rbx_dom_weak::{
    RbxId as WeakId, RbxInstanceProperties as WeakInstanceProperties, RbxTree as WeakTree,
};
use vstd::prelude::*;

use crate::deserializer::{decoded, try_decode};
use crate::document::{document, is_decodable};
use crate::dom::{
    is_attached, is_tree, InstanceView, Properties, RbxId, RbxInstanceProperties, RbxTree, TreeView,
};
use crate::error::DecodeError;
use crate::event::xml_events;
use crate::laws::references::{law_references_stay_inside, refers_within};
use crate::laws::trees::law_decoding_only_adds;
use crate::reader::{significant, unit_view};

verus! {

/// A tree of instances that carry numbers.
#[verifier::external_type_specification]
#[verifier::external_body]
pub struct ExWeakTree(WeakTree);

/// Names an instance within such a tree.
#[verifier::external_type_specification]
#[verifier::external_body]
pub struct ExWeakId(WeakId);

/// What a [`WeakTree`] holds of an instance, but for its properties.
pub struct WeakNode {
    pub name: Seq<char>,
    pub class_name: Seq<char>,
    pub parent: Option<WeakId>,
    pub children: Seq<WeakId>,
}

/// The instances of a tree, by ID.
pub uninterp spec fn weak_nodes(tree: WeakTree) -> Map<WeakId, WeakNode>;

/// The instances with one more, the last child of `parent`.
pub open spec fn with_node(
    nodes: Map<WeakId, WeakNode>,
    id: WeakId,
    name: Seq<char>,
    class_name: Seq<char>,
    parent: WeakId,
) -> Map<WeakId, WeakNode> {
    let node = WeakNode { name, class_name, parent: Some(parent), children: Seq::empty() };
    let more = nodes.insert(id, node);
    let above = more[parent];
    more.insert(parent, WeakNode { children: above.children.push(id), ..above })
}

/// `rbx_dom_weak::RbxTree::get_instance`, asked only whether there is an
/// instance with the given ID.
#[verifier::external_body]
fn has_node(tree: &WeakTree, id: WeakId) -> (answer: bool)
    ensures
        answer == weak_nodes(*tree).contains_key(id),
{
    tree.get_instance(id).is_some()
}

/// `rbx_dom_weak::RbxTree::insert_instance`, which panics where there is no
/// parent: it puts an instance without properties into the tree under an ID
/// drawn at random, in place of one that has the same ID, and appends the ID to
/// the children of the parent. Nothing is said of which ID is drawn.
#[verifier::external_body]
fn insert_node(tree: &mut WeakTree, name: String, class_name: String, parent: WeakId) -> (id:
    WeakId)
    requires
        weak_nodes(*old(tree)).contains_key(parent),
    ensures
        weak_nodes(*final(tree)) == with_node(
            weak_nodes(*old(tree)),
            id,
            name@,
            class_name@,
            parent,
        ),
{
    let properties = WeakInstanceProperties { name, class_name, properties: Default::default() };
    tree.insert_instance(properties, parent)
}

/// The ID under which the parent of the instance at `i` goes, where the root
/// goes under `parent` and the instance at each other `k` under `ids[k - 1]`.
pub open spec fn grafted_parent(
    tree: TreeView,
    ids: Seq<WeakId>,
    parent: WeakId,
    i: int,
) -> WeakId {
    let above = tree[i].parent->0.index;
    if above == 0 {
        parent
    } else {
        ids[above - 1]
    }
}

/// The instances once as many instances of a tree, from behind its root on, have
/// been put among them as there are IDs.
pub open spec fn grafted(
    nodes: Map<WeakId, WeakNode>,
    tree: TreeView,
    ids: Seq<WeakId>,
    parent: WeakId,
) -> Map<WeakId, WeakNode>
    decreases ids.len(),
{
    if ids.len() == 0 {
        nodes
    } else {
        let instance = tree[ids.len() as int];
        with_node(
            grafted(nodes, tree, ids.drop_last(), parent),
            ids.last(),
            instance.name,
            instance.class_name,
            grafted_parent(tree, ids, parent, ids.len() as int),
        )
    }
}

/// Puts everything below the root of a tree under an instance of another one,
/// but for the properties, and hands back the IDs that it got there, in order.
/// Where there is something to put but no such instance, it does nothing.
pub fn graft(tree: &RbxTree, target: &mut WeakTree, parent: WeakId) -> (ids: Option<Vec<WeakId>>)
    requires
        is_tree(tree@),
    ensures
        match ids {
            Some(ids) => {
                &&& tree@.len() > 1 ==> weak_nodes(*old(target)).contains_key(parent)
                &&& ids@.len() == tree@.len() - 1
                &&& weak_nodes(*final(target)) == grafted(
                    weak_nodes(*old(target)),
                    tree@,
                    ids@,
                    parent,
                )
            },
            None => {
                &&& tree@.len() > 1
                &&& !weak_nodes(*old(target)).contains_key(parent)
                &&& *final(target) == *old(target)
            },
        },
{
    if tree.get_instance(RbxId { index: 1 }).is_some() && !has_node(target, parent) {
        return None;
    }
    let mut ids: Vec<WeakId> = Vec::new();
    let mut i: usize = 1;
    loop
        invariant
            is_tree(tree@),
            1 <= i <= tree@.len(),
            ids@.len() == i - 1,
            weak_nodes(*target) == grafted(weak_nodes(*old(target)), tree@, ids@, parent),
            tree@.len() > 1 ==> weak_nodes(*old(target)).contains_key(parent),
            tree@.len() > 1 ==> weak_nodes(*target).contains_key(parent),
            forall|k: int|
                0 <= k < ids@.len() ==> weak_nodes(*target).contains_key(#[trigger] ids@[k]),
        decreases tree@.len() - i,
    {
        match tree.get_instance(RbxId { index: i }) {
            None => {
                return Some(ids);
            },
            Some(instance) => {
                assert(is_attached(tree@, i as int));
                let above = match instance.get_parent_id() {
                    Some(id) if id.index > 0 => ids[id.index - 1],
                    _ => parent,
                };
                let name = instance.name.clone();
                let class_name = instance.class_name.clone();
                let ghost earlier = ids@;
                let id = insert_node(target, name, class_name, above);
                ids.push(id);
                assert(ids@.drop_last() =~= earlier);
            },
        }
        i += 1;
    }
}


/// The outside ID that a decoded reference refers to, where the instance at each
/// `k` from behind the root on goes under `ids[k - 1]`.
pub fn weak_reference(value: Option<RbxId>, ids: &Vec<WeakId>) -> (reference: Option<WeakId>)
    requires
        value matches Some(id) ==> 1 <= id.index <= ids@.len(),
    ensures
        reference == (match value {
            Some(id) => Some(ids@[id.index - 1]),
            None => None,
        }),
{
    match value {
        Some(id) => Some(ids[id.index - 1]),
        None => None,
    }
}

/// A tree that holds a blank root and nothing else.
pub open spec fn blank_tree() -> TreeView {
    seq![
        InstanceView {
            name: Seq::empty(),
            class_name: Seq::empty(),
            properties: Map::empty(),
            parent: None,
            children: Seq::empty(),
        },
    ]
}

/// What was decoded into a [`WeakTree`].
pub struct Decoded {
    /// How decoding ended.
    pub result: Result<(), DecodeError>,
    /// The instances of the document, with their properties, below a blank
    /// root.
    pub tree: RbxTree,
    /// The IDs that these instances have got, in order, from behind the root
    /// on.
    pub ids: Vec<WeakId>,
}

/// Decodes source from the given bytes and puts the instances, but for their
/// properties, under the instance in the given tree. It does nothing where the
/// document opens an instance and there is no such instance, and where an
/// instance of the document holds something else than tags.
pub fn decode_into(target: &mut WeakTree, parent: WeakId, source: &[u8]) -> (outcome: Option<
    Decoded,
>)
    ensures
        ({
            let stream = significant(xml_events(source@));
            match outcome {
                Some(found) => {
                    &&& is_decodable(stream)
                    &&& document(stream).opened > 0 ==> weak_nodes(*old(target)).contains_key(
                        parent,
                    )
                    &&& (unit_view(found.result), found.tree@) == decoded(
                        stream,
                        blank_tree(),
                        RbxId { index: 0 },
                    )
                    &&& is_tree(found.tree@)
                    &&& found.ids@.len() == found.tree@.len() - 1
                    &&& forall|i: int|
                        1 <= i < found.tree@.len() ==> refers_within(
                            (#[trigger] found.tree@[i]).properties,
                            1,
                            found.tree@.len(),
                        )
                    &&& weak_nodes(*final(target)) == grafted(
                        weak_nodes(*old(target)),
                        found.tree@,
                        found.ids@,
                        parent,
                    )
                },
                None => {
                    &&& !is_decodable(stream) || document(stream).opened > 0 && !weak_nodes(
                        *old(target),
                    ).contains_key(parent)
                    &&& *final(target) == *old(target)
                },
            }
        }),
{
    let mut tree = RbxTree::new(
        RbxInstanceProperties {
            name: String::new(),
            class_name: String::new(),
            properties: Properties::new(),
        },
    );
    let root_id = tree.get_root_id();
    assert(tree@ =~= blank_tree());
    match try_decode(&mut tree, root_id, source) {
        None => None,
        Some(result) => {
            proof {
                let stream = significant(xml_events(source@));
                law_decoding_only_adds(stream, blank_tree(), root_id);
                law_references_stay_inside(stream, blank_tree(), root_id);
                assert forall|i: int| 1 <= i < tree@.len() implies refers_within(
                    (#[trigger] tree@[i]).properties,
                    1,
                    tree@.len(),
                ) by {
                    assert(refers_within(tree@[i].properties, 0, 0) || refers_within(
                        tree@[i].properties,
                        1,
                        tree@.len(),
                    ));
                }
            }
            match graft(&tree, target, parent) {
                None => None,
                Some(ids) => Some(Decoded { result, tree, ids }),
            }
        },
    }
}

}
