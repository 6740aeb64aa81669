//! What handing decoded instances over does to the tree that gets them.

use vstd::prelude::*;

use rbx_dom_weak::RbxId as WeakId;

use crate::deserializer::decoded;
use crate::document::{document, is_decodable};
use crate::dom::{is_attached, is_child_of, is_tree, RbxId, TreeView};
use crate::event::Stream;
use crate::laws::references::refers_within;
use crate::laws::trees::{gained_under, law_decoding_only_adds};
use crate::weak::{blank_tree, grafted, grafted_parent, with_node, WeakNode};

verus! {

/// The children of the instance at `i` among the instances up to `n`.
spec fn listed(tree: TreeView, i: int, n: nat) -> Seq<RbxId>
    decreases n,
{
    if n == 0 {
        Seq::empty()
    } else {
        let earlier = listed(tree, i, (n - 1) as nat);
        if tree[n as int].parent == Some(RbxId { index: i as usize }) {
            earlier.push(RbxId { index: n as usize })
        } else {
            earlier
        }
    }
}

/// The children of an instance that have come by `n` are its first ones.
proof fn lemma_listed(tree: TreeView, i: int, n: nat) -> (m: int)
    requires
        is_tree(tree),
        0 <= i < tree.len(),
        n < tree.len(),
    ensures
        0 <= m <= tree[i].children.len(),
        listed(tree, i, n) == tree[i].children.take(m),
        forall|k: int| 0 <= k < m ==> (#[trigger] tree[i].children[k]).index <= n,
        forall|k: int| m <= k < tree[i].children.len() ==> (#[trigger] tree[i].children[k]).index > n,
    decreases n,
{
    let children = tree[i].children;
    if n == 0 {
        assert(children.take(0) =~= Seq::empty());
        assert forall|k: int| 0 <= k < children.len() implies (#[trigger] children[k]).index > 0 by {
            assert(is_child_of(tree, i, k));
        }
        0
    } else {
        let m = lemma_listed(tree, i, (n - 1) as nat);
        let me = RbxId { index: n as usize };
        if tree[n as int].parent == Some(RbxId { index: i as usize }) {
            assert(is_attached(tree, n as int));
            assert(children.contains(me));
            let k = choose|k: int| 0 <= k < children.len() && children[k] == me;
            assert(is_child_of(tree, i, k));
            assert(m <= k);
            if m < k {
                assert(children[m].index < children[k].index);
            }
            assert(children.take(m).push(me) =~= children.take(m + 1));
            assert forall|j: int| m + 1 <= j < children.len() implies (#[trigger] children[j]).index
                > n by {
                assert(is_child_of(tree, i, j));
                assert(children[m].index < children[j].index);
            }
            m + 1
        } else {
            assert forall|j: int| m <= j < children.len() implies (#[trigger] children[j]).index > n by {
                assert(is_child_of(tree, i, j));
            }
            m
        }
    }
}


/// A child under the ID that it goes by.
pub open spec fn grafted_children(children: Seq<RbxId>, ids: Seq<WeakId>) -> Seq<WeakId> {
    children.map_values(|child: RbxId| ids[child.index - 1])
}

/// No ID is drawn twice, and none was in use.
pub open spec fn are_fresh(nodes: Map<WeakId, WeakNode>, ids: Seq<WeakId>) -> bool {
    &&& ids.no_duplicates()
    &&& forall|k: int| 0 <= k < ids.len() ==> !nodes.contains_key(#[trigger] ids[k])
}

/// What has become of the tree when the instances up to `n` have been handed
/// over.
spec fn is_grafted(
    nodes: Map<WeakId, WeakNode>,
    tree: TreeView,
    ids: Seq<WeakId>,
    parent: WeakId,
    after: Map<WeakId, WeakNode>,
    n: nat,
) -> bool {
    &&& forall|id: WeakId| #[trigger]
        after.contains_key(id) <==> nodes.contains_key(id) || ids.take(n as int).contains(id)
    &&& forall|id: WeakId| #[trigger]
        nodes.contains_key(id) && id != parent ==> after[id] == nodes[id]
    &&& after[parent] == (WeakNode {
        children: nodes[parent].children + grafted_children(listed(tree, 0, n), ids),
        ..nodes[parent]
    })
    &&& forall|k: int|
        0 <= k < n ==> after[#[trigger] ids[k]] == (WeakNode {
            name: tree[k + 1].name,
            class_name: tree[k + 1].class_name,
            parent: Some(grafted_parent(tree, ids, parent, k + 1)),
            children: grafted_children(listed(tree, k + 1, n), ids),
        })
}

/// No child comes before its parent.
proof fn lemma_listed_before(tree: TreeView, i: int, n: nat)
    requires
        is_tree(tree),
        n <= i < tree.len(),
    ensures
        listed(tree, i, n) == Seq::<RbxId>::empty(),
    decreases n,
{
    if n > 0 {
        lemma_listed_before(tree, i, (n - 1) as nat);
        assert(is_attached(tree, n as int));
    }
}

proof fn lemma_is_grafted(
    nodes: Map<WeakId, WeakNode>,
    tree: TreeView,
    ids: Seq<WeakId>,
    parent: WeakId,
    n: nat,
)
    requires
        is_tree(tree),
        nodes.contains_key(parent),
        ids.len() == tree.len() - 1,
        are_fresh(nodes, ids),
        n <= ids.len(),
    ensures
        is_grafted(nodes, tree, ids, parent, grafted(nodes, tree, ids.take(n as int), parent), n),
    decreases n,
{
    let taken = ids.take(n as int);
    let after = grafted(nodes, tree, taken, parent);
    if n == 0 {
        assert(nodes[parent].children + grafted_children(listed(tree, 0, 0), ids)
            =~= nodes[parent].children);
        assert(taken =~= Seq::empty());
    } else {
        let m = (n - 1) as nat;
        let fewer = ids.take(m as int);
        let before = grafted(nodes, tree, fewer, parent);
        let id = ids[m as int];
        lemma_is_grafted(nodes, tree, ids, parent, m);
        assert(taken.drop_last() =~= fewer);
        assert(taken.last() == id);
        assert(is_attached(tree, n as int));
        let above = grafted_parent(tree, ids, parent, n as int);
        assert(above == grafted_parent(tree, taken, parent, n as int));
        let at = tree[n as int].parent->0.index as int;
        assert(before.contains_key(above)) by {
            if at > 0 {
                assert(fewer[at - 1] == above);
            }
        }
        assert(!fewer.contains(id));
        assert(!before.contains_key(id));
        assert(after == with_node(
            before,
            id,
            tree[n as int].name,
            tree[n as int].class_name,
            above,
        ));
        assert forall|other: WeakId| #[trigger] after.contains_key(other) <==> nodes.contains_key(
            other,
        ) || taken.contains(other) by {
            if taken.contains(other) {
                let k = choose|k: int| 0 <= k < taken.len() && taken[k] == other;
                if k < m {
                    assert(fewer[k] == other);
                }
            }
            if fewer.contains(other) {
                let k = choose|k: int| 0 <= k < fewer.len() && fewer[k] == other;
                assert(taken[k] == other);
            }
            assert(taken[m as int] == id);
        }
        assert forall|i: int| 0 <= i < tree.len() implies grafted_children(
            #[trigger] listed(tree, i, n),
            ids,
        ) == if i == at {
            grafted_children(listed(tree, i, m), ids).push(id)
        } else {
            grafted_children(listed(tree, i, m), ids)
        } by {
            if i == at {
                let child = RbxId { index: n as usize };
                assert(listed(tree, i, n) == listed(tree, i, m).push(child));
                assert(grafted_children(listed(tree, i, n), ids) =~= grafted_children(
                    listed(tree, i, m),
                    ids,
                ).push(id));
            }
        }
        assert(after[parent] == (WeakNode {
            children: nodes[parent].children + grafted_children(listed(tree, 0, n), ids),
            ..nodes[parent]
        })) by {
            assert((nodes[parent].children + grafted_children(listed(tree, 0, m), ids)).push(id)
                =~= nodes[parent].children + grafted_children(listed(tree, 0, m), ids).push(id));
            assert(grafted_children(listed(tree, 0, n), ids) == if 0 == at {
                grafted_children(listed(tree, 0, m), ids).push(id)
            } else {
                grafted_children(listed(tree, 0, m), ids)
            });
            if at > 0 {
                assert(!nodes.contains_key(ids[at - 1]));
            }
        }
        assert forall|k: int| 0 <= k < n implies after[#[trigger] ids[k]] == (WeakNode {
            name: tree[k + 1].name,
            class_name: tree[k + 1].class_name,
            parent: Some(grafted_parent(tree, ids, parent, k + 1)),
            children: grafted_children(listed(tree, k + 1, n), ids),
        }) by {
            assert(ids[k] != parent);
            assert(grafted_children(listed(tree, k + 1, n), ids) == if k + 1 == at {
                grafted_children(listed(tree, k + 1, m), ids).push(id)
            } else {
                grafted_children(listed(tree, k + 1, m), ids)
            });
            if k == m {
                lemma_listed_before(tree, k + 1, n);
                assert(grafted_children(listed(tree, k + 1, n), ids) =~= Seq::empty());
            }
        }
    }
}

/// Where the IDs that are drawn are fresh, the tree that decoded instances are
/// handed to keeps all that it had, but that the given instance gains their top
/// level behind the children that it had; and each of them stands in it with
/// its name and its class, under its parent and above its children.
pub proof fn law_grafting_keeps_the_shape(
    nodes: Map<WeakId, WeakNode>,
    tree: TreeView,
    ids: Seq<WeakId>,
    parent: WeakId,
)
    requires
        is_tree(tree),
        nodes.contains_key(parent),
        ids.len() == tree.len() - 1,
        are_fresh(nodes, ids),
    ensures
        ({
            let after = grafted(nodes, tree, ids, parent);
            &&& forall|id: WeakId| #[trigger]
                after.contains_key(id) <==> nodes.contains_key(id) || ids.contains(id)
            &&& forall|id: WeakId| #[trigger]
                nodes.contains_key(id) && id != parent ==> after[id] == nodes[id]
            &&& after[parent] == (WeakNode {
                children: nodes[parent].children + grafted_children(tree[0].children, ids),
                ..nodes[parent]
            })
            &&& forall|k: int|
                0 <= k < ids.len() ==> after[#[trigger] ids[k]] == (WeakNode {
                    name: tree[k + 1].name,
                    class_name: tree[k + 1].class_name,
                    parent: Some(grafted_parent(tree, ids, parent, k + 1)),
                    children: grafted_children(tree[k + 1].children, ids),
                })
        }),
{
    let n = ids.len();
    lemma_is_grafted(nodes, tree, ids, parent, n);
    assert(ids.take(n as int) =~= ids);
    assert forall|i: int| 0 <= i < tree.len() implies #[trigger] listed(tree, i, n)
        == tree[i].children by {
        let m = lemma_listed(tree, i, n);
        if m < tree[i].children.len() {
            assert(is_child_of(tree, i, m));
        }
        assert(tree[i].children.take(m) =~= tree[i].children);
    }
    assert(listed(tree, 0, n) == tree[0].children);
    let after = grafted(nodes, tree, ids, parent);
    assert forall|k: int| 0 <= k < ids.len() implies after[#[trigger] ids[k]] == (WeakNode {
        name: tree[k + 1].name,
        class_name: tree[k + 1].class_name,
        parent: Some(grafted_parent(tree, ids, parent, k + 1)),
        children: grafted_children(tree[k + 1].children, ids),
    }) by {
        assert(listed(tree, k + 1, n) == tree[k + 1].children);
    }
}


/// A reference arrives at the instance that it was decoded to refer to: where
/// the IDs that are drawn are fresh, the one that stands for it belongs to an
/// instance with the name and the class of that one, under its parent and above
/// its children.
pub proof fn law_references_are_handed_over(
    nodes: Map<WeakId, WeakNode>,
    tree: TreeView,
    ids: Seq<WeakId>,
    parent: WeakId,
    i: int,
    name: Seq<char>,
)
    requires
        is_tree(tree),
        nodes.contains_key(parent),
        ids.len() == tree.len() - 1,
        are_fresh(nodes, ids),
        1 <= i < tree.len(),
        refers_within(tree[i].properties, 1, tree.len()),
        tree[i].properties.contains_key(name),
        tree[i].properties[name] is Ref,
        tree[i].properties[name]->Ref_0 is Some,
    ensures
        ({
            let to = tree[i].properties[name]->Ref_0->0.index as int;
            let after = grafted(nodes, tree, ids, parent);
            &&& 1 <= to <= ids.len()
            &&& after.contains_key(ids[to - 1])
            &&& after[ids[to - 1]] == (WeakNode {
                name: tree[to].name,
                class_name: tree[to].class_name,
                parent: Some(grafted_parent(tree, ids, parent, to)),
                children: grafted_children(tree[to].children, ids),
            })
        }),
{
    let to = tree[i].properties[name]->Ref_0->0.index as int;
    law_grafting_keeps_the_shape(nodes, tree, ids, parent);
    assert(ids.contains(ids[to - 1]));
}

/// What is decoded on its way into another tree stands below a root that says
/// nothing, whatever the document: the root has no name, no class, no property
/// and no parent, and there are no instances but it and those of the document.
pub proof fn law_decoded_instances_stand_below_a_blank_root(stream: Stream)
    requires
        is_decodable(stream),
        1 + document(stream).opened <= usize::MAX,
    ensures
        ({
            let (_, tree) = decoded(stream, blank_tree(), RbxId { index: 0 });
            &&& tree.len() == 1 + document(stream).opened
            &&& tree[0].name.len() == 0
            &&& tree[0].class_name.len() == 0
            &&& tree[0].parent is None
            &&& forall|name: Seq<char>| !(#[trigger] tree[0].properties.contains_key(name))
            &&& document(stream).opened == 0 ==> tree[0].children.len() == 0
            &&& is_tree(tree)
        }),
{
    let root = RbxId { index: 0 };
    let (_, tree) = decoded(stream, blank_tree(), root);
    law_decoding_only_adds(stream, blank_tree(), root);
    assert(gained_under(blank_tree(), tree, root));
    assert(is_tree(blank_tree()));
    if document(stream).opened == 0 && tree[0].children.len() > 0 {
        assert(is_child_of(tree, 0, 0));
    }
}

}
