//! The tree of instances that documents are decoded into.

use vstd::prelude::*;

use crate::laws::trees::law_inserting_keeps_the_tree;
use crate::text::text_eq;

verus! {

/// Names an instance within an [`RbxTree`].
#[derive(Debug, Clone, Copy, PartialEq, Eq, Hash, Structural)]
pub struct RbxId {
    pub index: usize,
}

/// A real number as a document writes it down.
#[derive(Debug, PartialEq, Eq)]
pub enum Scalar {
    /// The number that a floating-point literal denotes.
    Literal(String),
    /// The given number of two hundred and fifty-fifths.
    ByteFraction(u8),
}

/// A value that can be assigned to a property of an instance.
#[allow(inconsistent_fields)]
#[derive(Debug, PartialEq, Eq)]
pub enum RbxValue {
    String { value: String },
    Bool { value: bool },
    Vector2 { value: [Scalar; 2] },
    Vector3 { value: [Scalar; 3] },
    Color3 { value: [Scalar; 3] },
    Color3uint8 { value: [u8; 3] },
    CFrame { value: [Scalar; 12] },
    Ref { value: Option<RbxId> },
}

/// A [`Scalar`] without the representation of its text.
pub enum ScalarView {
    Literal(Seq<char>),
    ByteFraction(u8),
}

/// An [`RbxValue`] without the representation of its texts.
pub enum ValueView {
    String(Seq<char>),
    Bool(bool),
    Vector2(Seq<ScalarView>),
    Vector3(Seq<ScalarView>),
    Color3(Seq<ScalarView>),
    Color3uint8(Seq<u8>),
    CFrame(Seq<ScalarView>),
    Ref(Option<RbxId>),
}

impl View for Scalar {
    type V = ScalarView;

    open spec fn view(&self) -> ScalarView {
        match self {
            Scalar::Literal(text) => ScalarView::Literal(text@),
            Scalar::ByteFraction(byte) => ScalarView::ByteFraction(*byte),
        }
    }
}

/// Numbers in order.
pub open spec fn scalars_view(scalars: Seq<Scalar>) -> Seq<ScalarView> {
    scalars.map_values(|scalar: Scalar| scalar@)
}

impl View for RbxValue {
    type V = ValueView;

    open spec fn view(&self) -> ValueView {
        match self {
            RbxValue::String { value } => ValueView::String(value@),
            RbxValue::Bool { value } => ValueView::Bool(*value),
            RbxValue::Vector2 { value } => ValueView::Vector2(scalars_view(value@)),
            RbxValue::Vector3 { value } => ValueView::Vector3(scalars_view(value@)),
            RbxValue::Color3 { value } => ValueView::Color3(scalars_view(value@)),
            RbxValue::Color3uint8 { value } => ValueView::Color3uint8(value@),
            RbxValue::CFrame { value } => ValueView::CFrame(scalars_view(value@)),
            RbxValue::Ref { value } => ValueView::Ref(*value),
        }
    }
}

/// Properties by name.
pub type PropertiesView = Map<Seq<char>, ValueView>;

/// The properties of an instance. No two of them have the same name.
#[derive(Debug, PartialEq, Eq)]
pub struct Properties {
    entries: Vec<(String, RbxValue)>,
}

/// No name stands twice.
pub open spec fn distinct_names(entries: Seq<(String, RbxValue)>) -> bool {
    forall|i: int, j: int|
        0 <= i < j < entries.len() ==> (#[trigger] entries[i]).0@ != (#[trigger] entries[j]).0@
}

/// Whether the entry at `i` has the given name.
pub open spec fn is_entry(entries: Seq<(String, RbxValue)>, name: Seq<char>, i: int) -> bool {
    0 <= i < entries.len() && entries[i].0@ == name
}

/// The value that each name has.
pub open spec fn entries_view(entries: Seq<(String, RbxValue)>) -> PropertiesView {
    Map::new(
        |name: Seq<char>| exists|i: int| is_entry(entries, name, i),
        |name: Seq<char>| entries[choose|i: int| is_entry(entries, name, i)].1@,
    )
}

proof fn lemma_entry(entries: Seq<(String, RbxValue)>, i: int)
    requires
        distinct_names(entries),
        0 <= i < entries.len(),
    ensures
        entries_view(entries).contains_key(entries[i].0@),
        entries_view(entries)[entries[i].0@] == entries[i].1@,
{
    let name = entries[i].0@;
    assert(is_entry(entries, name, i));
    let k = choose|k: int| is_entry(entries, name, k);
    if k < i {
        assert(entries[k].0@ != entries[i].0@);
    } else if i < k {
        assert(entries[i].0@ != entries[k].0@);
    }
}

/// A map that has every entry, and names of entries only, is what the entries
/// stand for.
proof fn lemma_entries_view(entries: Seq<(String, RbxValue)>, map: PropertiesView)
    requires
        distinct_names(entries),
        forall|i: int|
            #![trigger entries[i]]
            0 <= i < entries.len() ==> map.contains_key(entries[i].0@) && map[entries[i].0@]
                == entries[i].1@,
        forall|name: Seq<char>|
            #[trigger] map.contains_key(name) ==> exists|i: int| is_entry(entries, name, i),
    ensures
        entries_view(entries) == map,
{
    let view = entries_view(entries);
    assert forall|name: Seq<char>| #[trigger] view.contains_key(name) implies map.contains_key(name)
        && view[name] == map[name] by {
        let i = choose|i: int| is_entry(entries, name, i);
        lemma_entry(entries, i);
    }
    assert(view =~= map);
}

impl View for Properties {
    type V = PropertiesView;

    closed spec fn view(&self) -> PropertiesView {
        entries_view(self.entries@)
    }
}

impl Properties {
    #[verifier::type_invariant]
    closed spec fn inv(self) -> bool {
        distinct_names(self.entries@)
    }

    /// No properties at all.
    pub fn new() -> (properties: Properties)
        ensures
            properties@ == PropertiesView::empty(),
    {
        let properties = Properties { entries: Vec::new() };
        assert(properties@ =~= PropertiesView::empty());
        properties
    }

    /// All properties, in no particular order.
    pub fn entries(&self) -> (entries: &Vec<(String, RbxValue)>)
        ensures
            distinct_names(entries@),
            self@ == entries_view(entries@),
    {
        proof {
            use_type_invariant(&*self);
        }
        &self.entries
    }

    /// Where the property of the given name stands.
    fn position(entries: &Vec<(String, RbxValue)>, name: &str) -> (position: Option<usize>)
        requires
            distinct_names(entries@),
        ensures
            match position {
                Some(i) => is_entry(entries@, name@, i as int) && i < entries@.len(),
                None => !entries_view(entries@).contains_key(name@),
            },
    {
        let mut i: usize = 0;
        while i < entries.len()
            invariant
                i <= entries@.len(),
                forall|k: int| 0 <= k < i ==> !is_entry(entries@, name@, k),
            decreases entries@.len() - i,
        {
            if text_eq(entries[i].0.as_str(), name) {
                return Some(i);
            }
            i += 1;
        }
        None
    }

    /// The value of the property of the given name.
    pub fn get(&self, name: &str) -> (value: Option<&RbxValue>)
        ensures
            match value {
                Some(value) => self@.contains_key(name@) && value@ == self@[name@],
                None => !self@.contains_key(name@),
            },
    {
        proof {
            use_type_invariant(&*self);
        }
        match Properties::position(&self.entries, name) {
            Some(i) => {
                proof {
                    lemma_entry(self.entries@, i as int);
                }
                Some(&self.entries[i].1)
            },
            None => None,
        }
    }

    /// Gives the property of the given name a value, in place of the value that
    /// it has.
    pub fn insert(&mut self, name: String, value: RbxValue)
        ensures
            final(self)@ == old(self)@.insert(name@, value@),
    {
        proof {
            use_type_invariant(&*self);
        }
        let mut entries: Vec<(String, RbxValue)> = Vec::new();
        std::mem::swap(&mut entries, &mut self.entries);
        let ghost before = entries@;
        match Properties::position(&entries, name.as_str()) {
            Some(i) => {
                entries[i].1 = value;
                proof {
                    assert(entries@ =~= before.update(i as int, (before[i as int].0, value)));
                    assert(distinct_names(entries@));
                    let map = entries_view(before).insert(name@, value@);
                    assert forall|k: int|
                        #![trigger entries@[k]]
                        0 <= k < entries@.len() implies map.contains_key(entries@[k].0@)
                        && map[entries@[k].0@] == entries@[k].1@ by {
                        lemma_entry(before, k);
                    }
                    assert forall|other: Seq<char>| #[trigger] map.contains_key(other) implies exists|
                        k: int,
                    | is_entry(entries@, other, k) by {
                        if other == name@ {
                            assert(is_entry(entries@, other, i as int));
                        } else {
                            let k = choose|k: int| is_entry(before, other, k);
                            assert(is_entry(entries@, other, k));
                        }
                    }
                    lemma_entries_view(entries@, map);
                }
            },
            None => {
                entries.push((name, value));
                proof {
                    assert forall|k: int| 0 <= k < before.len() implies (#[trigger] before[k]).0@
                        != name@ by {
                        lemma_entry(before, k);
                    }
                    assert(distinct_names(entries@));
                    let map = entries_view(before).insert(name@, value@);
                    assert forall|k: int|
                        #![trigger entries@[k]]
                        0 <= k < entries@.len() implies map.contains_key(entries@[k].0@)
                        && map[entries@[k].0@] == entries@[k].1@ by {
                        if k < before.len() {
                            assert(entries@[k] == before[k]);
                            lemma_entry(before, k);
                        }
                    }
                    assert forall|other: Seq<char>| #[trigger] map.contains_key(other) implies exists|
                        k: int,
                    | is_entry(entries@, other, k) by {
                        if other == name@ {
                            assert(is_entry(entries@, other, before.len() as int));
                        } else {
                            let k = choose|k: int| is_entry(before, other, k);
                            assert(is_entry(entries@, other, k));
                        }
                    }
                    lemma_entries_view(entries@, map);
                }
            },
        }
        self.entries = entries;
    }

    /// Takes the property of the given name away and hands its value back.
    pub fn remove(&mut self, name: &str) -> (value: Option<RbxValue>)
        ensures
            final(self)@ == old(self)@.remove(name@),
            match value {
                Some(value) => old(self)@.contains_key(name@) && value@ == old(self)@[name@],
                None => !old(self)@.contains_key(name@),
            },
    {
        proof {
            use_type_invariant(&*self);
        }
        let mut entries: Vec<(String, RbxValue)> = Vec::new();
        std::mem::swap(&mut entries, &mut self.entries);
        let ghost before = entries@;
        let value = match Properties::position(&entries, name) {
            Some(i) => {
                let (_, value) = entries.remove(i);
                proof {
                    lemma_entry(before, i as int);
                    assert(entries@ =~= before.remove(i as int));
                    let map = entries_view(before).remove(name@);
                    assert forall|k: int|
                        #![trigger entries@[k]]
                        0 <= k < entries@.len() implies map.contains_key(entries@[k].0@)
                        && map[entries@[k].0@] == entries@[k].1@ by {
                        let from = if k < i { k } else { k + 1 };
                        assert(entries@[k] == before[from]);
                        lemma_entry(before, from);
                    }
                    assert forall|other: Seq<char>| #[trigger] map.contains_key(other) implies exists|
                        k: int,
                    | is_entry(entries@, other, k) by {
                        let k = choose|k: int| is_entry(before, other, k);
                        assert(is_entry(entries@, other, if k < i { k } else { k - 1 }));
                    }
                    lemma_entries_view(entries@, map);
                }
                Some(value)
            },
            None => {
                assert(entries_view(before).remove(name@) =~= entries_view(before));
                None
            },
        };
        self.entries = entries;
        value
    }
}

/// What an instance is made of before it has a place in a tree.
#[derive(Debug, PartialEq, Eq)]
pub struct RbxInstanceProperties {
    /// The name of the instance.
    pub name: String,
    /// The class of the instance.
    pub class_name: String,
    /// All other properties of the instance.
    pub properties: Properties,
}

/// An instance in a tree.
#[derive(Debug, PartialEq, Eq)]
pub struct RbxInstance {
    /// The name of the instance.
    pub name: String,
    /// The class of the instance.
    pub class_name: String,
    /// All other properties of the instance.
    pub properties: Properties,
    /// The instance that this one stands under; the root stands under none.
    pub parent: Option<RbxId>,
    /// The instances that stand under this one, in order.
    pub children: Vec<RbxId>,
}

/// An [`RbxInstance`] without the representation of its parts.
pub struct InstanceView {
    pub name: Seq<char>,
    pub class_name: Seq<char>,
    pub properties: PropertiesView,
    pub parent: Option<RbxId>,
    pub children: Seq<RbxId>,
}

/// The instances of a tree, each at the index of its ID.
pub type TreeView = Seq<InstanceView>;

impl View for RbxInstance {
    type V = InstanceView;

    open spec fn view(&self) -> InstanceView {
        InstanceView {
            name: self.name@,
            class_name: self.class_name@,
            properties: self.properties@,
            parent: self.parent,
            children: self.children@,
        }
    }
}

impl RbxInstance {
    /// The IDs of the children of this instance, in order.
    pub fn get_children_ids(&self) -> (ids: &Vec<RbxId>)
        ensures
            ids@ == self@.children,
    {
        &self.children
    }

    /// The ID of the parent of this instance, if it has one.
    pub fn get_parent_id(&self) -> (id: Option<RbxId>)
        ensures
            id == self@.parent,
    {
        self.parent
    }
}

/// An ID of the tree names one of its instances.
pub open spec fn has_instance(tree: TreeView, id: RbxId) -> bool {
    id.index < tree.len()
}

/// The ID that the next instance of a tree gets.
pub open spec fn next_id(tree: TreeView) -> RbxId {
    RbxId { index: tree.len() as usize }
}

/// The tree with one more instance, the last child of `parent`.
pub open spec fn with_instance(
    tree: TreeView,
    name: Seq<char>,
    class_name: Seq<char>,
    properties: PropertiesView,
    parent: RbxId,
) -> TreeView {
    let above = tree[parent.index as int];
    tree.update(
        parent.index as int,
        InstanceView { children: above.children.push(next_id(tree)), ..above },
    ).push(
        InstanceView {
            name,
            class_name,
            properties,
            parent: Some(parent),
            children: Seq::empty(),
        },
    )
}

/// The tree with the instance `id` named, classed and equipped anew, in its
/// place.
pub open spec fn with_contents(
    tree: TreeView,
    id: RbxId,
    name: Seq<char>,
    class_name: Seq<char>,
    properties: PropertiesView,
) -> TreeView {
    tree.update(
        id.index as int,
        InstanceView { name, class_name, properties, ..tree[id.index as int] },
    )
}

/// The tree with one property of the instance `id` set.
pub open spec fn with_property(
    tree: TreeView,
    id: RbxId,
    name: Seq<char>,
    value: ValueView,
) -> TreeView {
    let instance = tree[id.index as int];
    tree.update(
        id.index as int,
        InstanceView { properties: instance.properties.insert(name, value), ..instance },
    )
}

/// The parents and the children agree: the first instance is the root and has
/// no parent; every other one has a parent that was there before it, which
/// lists it among its children; nothing else is a child; and children stand in
/// the order in which they came, so that none is listed twice.
pub open spec fn is_tree(tree: TreeView) -> bool {
    &&& 0 < tree.len() <= usize::MAX
    &&& tree[0].parent is None
    &&& forall|i: int| #[trigger] is_attached(tree, i)
    &&& forall|i: int, k: int| #[trigger] is_child_of(tree, i, k)
}

/// The instance at `i`, unless it is the root, has a parent before it, whose
/// children it is among.
pub open spec fn is_attached(tree: TreeView, i: int) -> bool {
    0 < i < tree.len() ==> {
        &&& tree[i].parent is Some
        &&& tree[i].parent->0.index < i
        &&& tree[tree[i].parent->0.index as int].children.contains(RbxId { index: i as usize })
    }
}

/// The child at `k` of the instance at `i` is an instance with that parent, and
/// the children before it came before it.
pub open spec fn is_child_of(tree: TreeView, i: int, k: int) -> bool {
    0 <= i < tree.len() && 0 <= k < tree[i].children.len() ==> {
        let child = tree[i].children[k];
        &&& has_instance(tree, child)
        &&& tree[child.index as int].parent == Some(RbxId { index: i as usize })
        &&& forall|j: int|
            0 <= j < k ==> (#[trigger] tree[i].children[j]).index < child.index
    }
}

/// A tree of instances.
#[derive(Debug, PartialEq, Eq)]
pub struct RbxTree {
    instances: Vec<RbxInstance>,
}

impl View for RbxTree {
    type V = TreeView;

    closed spec fn view(&self) -> TreeView {
        self.instances@.map_values(|instance: RbxInstance| instance@)
    }
}

/// A tree holds no more instances than there are IDs.
pub proof fn lemma_tree_len(tree: RbxTree)
    ensures
        tree@.len() <= usize::MAX,
{
    assert(tree.instances.len() == tree@.len());
}

impl RbxTree {
    /// A tree that holds a root and nothing else.
    pub fn new(root: RbxInstanceProperties) -> (tree: RbxTree)
        ensures
            tree@ == seq![
                InstanceView {
                    name: root.name@,
                    class_name: root.class_name@,
                    properties: root.properties@,
                    parent: None,
                    children: Seq::empty(),
                },
            ],
            is_tree(tree@),
    {
        let mut instances: Vec<RbxInstance> = Vec::new();
        instances.push(
            RbxInstance {
                name: root.name,
                class_name: root.class_name,
                properties: root.properties,
                parent: None,
                children: Vec::new(),
            },
        );
        RbxTree { instances }
    }

    /// The ID of the root.
    pub fn get_root_id(&self) -> (id: RbxId)
        ensures
            id.index == 0,
    {
        RbxId { index: 0 }
    }

    /// The instance with the given ID, if the tree has one.
    pub fn get_instance(&self, id: RbxId) -> (instance: Option<&RbxInstance>)
        ensures
            match instance {
                Some(instance) => has_instance(self@, id) && instance@ == self@[id.index as int],
                None => !has_instance(self@, id),
            },
    {
        if id.index < self.instances.len() {
            Some(&self.instances[id.index])
        } else {
            None
        }
    }

    /// Adds an instance to the tree, as the last child of the given one.
    pub fn insert_instance(&mut self, properties: RbxInstanceProperties, parent_id: RbxId) -> (id:
        RbxId)
        requires
            has_instance(old(self)@, parent_id),
        ensures
            id == next_id(old(self)@),
            has_instance(final(self)@, id),
            final(self)@ == with_instance(
                old(self)@,
                properties.name@,
                properties.class_name@,
                properties.properties@,
                parent_id,
            ),
            is_tree(old(self)@) ==> is_tree(final(self)@),
    {
        let id = RbxId { index: self.instances.len() };
        self.instances[parent_id.index].children.push(id);
        self.instances.push(
            RbxInstance {
                name: properties.name,
                class_name: properties.class_name,
                properties: properties.properties,
                parent: Some(parent_id),
                children: Vec::new(),
            },
        );
        assert(self@ =~= with_instance(
            old(self)@,
            properties.name@,
            properties.class_name@,
            properties.properties@,
            parent_id,
        ));
        proof {
            lemma_tree_len(*self);
            if is_tree(old(self)@) {
                law_inserting_keeps_the_tree(
                    old(self)@,
                    properties.name@,
                    properties.class_name@,
                    properties.properties@,
                    parent_id,
                );
            }
        }
        id
    }

    /// Names, classes and equips an instance anew.
    pub(crate) fn set_contents(
        &mut self,
        id: RbxId,
        name: String,
        class_name: String,
        properties: Properties,
    )
        requires
            has_instance(old(self)@, id),
        ensures
            final(self)@ == with_contents(old(self)@, id, name@, class_name@, properties@),
    {
        self.instances[id.index].class_name = class_name;
        self.instances[id.index].name = name;
        self.instances[id.index].properties = properties;
        assert(self@ =~= with_contents(old(self)@, id, name@, class_name@, properties@));
    }

    /// Sets one property of an instance.
    pub(crate) fn set_property(&mut self, id: RbxId, name: String, value: RbxValue)
        requires
            has_instance(old(self)@, id),
        ensures
            final(self)@ == with_property(old(self)@, id, name@, value@),
    {
        self.instances[id.index].properties.insert(name, value);
        assert(self@ =~= with_property(old(self)@, id, name@, value@));
    }
}

}
