//! A parsed document: a tree of nodes kept in one vector, each node naming
//! its children by their positions in that vector.
//!
//! Contracts read a document in two ways. Its view is the vector of nodes as
//! it stands ([`NodeView`]); [`tree_at`] is the tree under one of its nodes
//! ([`Tree`]), which is what the extraction speaks of.

use vstd::prelude::*;
use crate::text::{chars_of, same_chars, string_view};

verus! {

/// One attribute of an element.
#[derive(Debug)]
pub struct Attribute {
    pub name: String,
    pub value: String,
}

/// What a node is, apart from its children.
#[derive(Debug)]
pub enum NodeData {
    /// An element, with its tag name and its attributes in source order.
    Element { name: String, attrs: Vec<Attribute> },
    /// A run of text.
    Text { contents: String },
    /// Anything else: the document itself, a doctype, a comment.
    Other,
}

/// A node: what it is, and where its children stand, in order.
#[derive(Debug)]
pub struct TreeNode {
    data: NodeData,
    children: Vec<usize>,
}

/// A document tree. The node at position 0 is the root.
#[derive(Debug)]
pub struct Document {
    nodes: Vec<TreeNode>,
}

/// An [`Attribute`] with its strings as sequences of characters.
pub struct AttributeView {
    pub name: Seq<char>,
    pub value: Seq<char>,
}

/// A [`NodeData`] with its strings as sequences of characters.
pub enum DataView {
    Element { name: Seq<char>, attrs: Seq<AttributeView> },
    Text { contents: Seq<char> },
    Other,
}

/// A node of a document as it stands in the document's vector.
pub struct NodeView {
    pub data: DataView,
    pub children: Seq<int>,
}

/// A tree of nodes as it is read: what its root is, and the trees under the
/// root's children, in order.
pub struct Tree {
    pub data: DataView,
    pub children: Seq<Tree>,
}

impl View for Attribute {
    type V = AttributeView;

    open spec fn view(&self) -> AttributeView {
        AttributeView { name: self.name@, value: self.value@ }
    }
}

/// The views of a list of attributes, in order.
pub open spec fn attribute_views(attrs: Seq<Attribute>) -> Seq<AttributeView> {
    attrs.map_values(|a: Attribute| a@)
}

impl View for NodeData {
    type V = DataView;

    open spec fn view(&self) -> DataView {
        match *self {
            NodeData::Element { name, attrs } => DataView::Element {
                name: name@,
                attrs: attribute_views(attrs@),
            },
            NodeData::Text { contents } => DataView::Text { contents: contents@ },
            NodeData::Other => DataView::Other,
        }
    }
}

impl View for TreeNode {
    type V = NodeView;

    closed spec fn view(&self) -> NodeView {
        NodeView { data: self.data@, children: self.children@.map_values(|c: usize| c as int) }
    }
}

/// The views of a vector of nodes, in order.
pub closed spec fn node_views(nodes: Seq<TreeNode>) -> Seq<NodeView> {
    nodes.map_values(|n: TreeNode| n@)
}

impl View for Document {
    type V = Seq<NodeView>;

    closed spec fn view(&self) -> Seq<NodeView> {
        node_views(self.nodes@)
    }
}

/// The value of the last attribute among `attrs` whose name is `name`.
pub open spec fn attr_value(attrs: Seq<AttributeView>, name: Seq<char>) -> Option<Seq<char>>
    decreases attrs.len(),
{
    if attrs.len() == 0 {
        None
    } else if attrs.last().name == name {
        Some(attrs.last().value)
    } else {
        attr_value(attrs.drop_last(), name)
    }
}

impl Tree {
    /// Whether the root is an element.
    pub open spec fn is_element(self) -> bool {
        self.data is Element
    }

    /// The attributes of the root; none if it is no element.
    pub open spec fn attrs(self) -> Seq<AttributeView> {
        match self.data {
            DataView::Element { attrs, .. } => attrs,
            _ => Seq::empty(),
        }
    }

    /// The value of the root's attribute `name`, if the root is an element
    /// that has one. Of several attributes of that name the last one counts.
    pub open spec fn attr(self, name: Seq<char>) -> Option<Seq<char>> {
        attr_value(self.attrs(), name)
    }

    /// The contents of the root, if it is a text node.
    pub open spec fn text(self) -> Option<Seq<char>> {
        match self.data {
            DataView::Text { contents } => Some(contents),
            _ => None,
        }
    }

    /// The tree under the root's child at place `k`, if there is one.
    pub open spec fn child(self, k: int) -> Option<Tree> {
        if 0 <= k < self.children.len() {
            Some(self.children[k])
        } else {
            None
        }
    }
}

/// Whether the nodes `t` form a tree rooted at position 0: every child stands
/// after its parent, and every node but the root is the child of exactly one
/// node, at exactly one place. No nodes at all form a tree too, the empty
/// one.
pub open spec fn tree_wf(t: Seq<NodeView>) -> bool {
    &&& forall|n: int, k: int|
        0 <= n < t.len() && 0 <= k < t[n].children.len() ==> n < #[trigger] t[n].children[k]
            < t.len()
    &&& forall|n: int, k: int, m: int, j: int|
        0 <= n < t.len() && 0 <= k < t[n].children.len() && 0 <= m < t.len() && 0 <= j
            < t[m].children.len() && #[trigger] t[n].children[k] == #[trigger] t[m].children[j]
            ==> n == m && k == j
    &&& forall|c: int| 1 <= c < t.len() ==> #[trigger] has_parent(t, c)
}

/// Whether some node of `t` names `c` among its children.
pub open spec fn has_parent(t: Seq<NodeView>, c: int) -> bool {
    exists|n: int, k: int|
        0 <= n < t.len() && 0 <= k < t[n].children.len() && #[trigger] t[n].children[k] == c
}

/// The tree of a node that is not there: no element, no text, no children.
pub open spec fn no_tree() -> Tree {
    Tree { data: DataView::Other, children: Seq::empty() }
}

/// The tree under node `n` of `t`. Of a node that `t` does not hold it is
/// [`no_tree`].
pub open spec fn tree_at(t: Seq<NodeView>, n: int) -> Tree
    decreases t.len() - n,
{
    if 0 <= n < t.len() {
        Tree {
            data: t[n].data,
            children: Seq::new(
                t[n].children.len(),
                |k: int|
                    if 0 <= k < t[n].children.len() && n < t[n].children[k] < t.len() {
                        tree_at(t, t[n].children[k])
                    } else {
                        no_tree()
                    },
            ),
        }
    } else {
        no_tree()
    }
}

/// The tree under the node `node` of `t`, where there is such a node.
pub open spec fn tree_of_node(t: Seq<NodeView>, node: Option<usize>) -> Option<Tree> {
    match node {
        Some(n) => Some(tree_at(t, n as int)),
        None => None,
    }
}

/// The child of node `n` at place `k`, if there is one.
pub open spec fn child_at(t: Seq<NodeView>, n: int, k: int) -> Option<int> {
    if 0 <= n < t.len() && 0 <= k < t[n].children.len() {
        Some(t[n].children[k])
    } else {
        None
    }
}

/// The node `node` with one more child, `child`, after those it has.
pub open spec fn with_child(node: NodeView, child: int) -> NodeView {
    NodeView { data: node.data, children: node.children.push(child) }
}

/// The nodes `t` with one more node, `data`, which has no children and is
/// the last child of the node `parent`.
pub open spec fn with_leaf(t: Seq<NodeView>, parent: int, data: DataView) -> Seq<NodeView> {
    t.update(parent, with_child(t[parent], t.len() as int)).push(
        NodeView { data, children: Seq::empty() },
    )
}

/// In a well-formed document the tree under a node holds the node's data,
/// and under it the trees of the node's children, in order.
pub proof fn lemma_tree_at(t: Seq<NodeView>, n: int)
    requires
        tree_wf(t),
        0 <= n < t.len(),
    ensures
        tree_at(t, n).data == t[n].data,
        tree_at(t, n).children.len() == t[n].children.len(),
        forall|k: int|
            0 <= k < t[n].children.len() ==> #[trigger] tree_at(t, n).children[k] == tree_at(
                t,
                t[n].children[k],
            ),
{
}

/// Adding a leaf under an existing node of a tree gives a tree.
pub proof fn lemma_add_child_wf(t: Seq<NodeView>, parent: int, data: DataView)
    requires
        tree_wf(t),
        0 <= parent < t.len(),
    ensures
        tree_wf(with_leaf(t, parent, data)),
{
    let id = t.len() as int;
    let u = with_leaf(t, parent, data);
    let last = t[parent].children.len() as int;
    assert(u[parent].children[last] == id);
    assert forall|n: int, k: int| 0 <= n < u.len() && 0 <= k < u[n].children.len() implies n
        < #[trigger] u[n].children[k] < u.len() by {
        if n == parent && k < last {
            assert(u[n].children[k] == t[n].children[k]);
        } else if n != parent && n != id {
            assert(u[n].children[k] == t[n].children[k]);
        }
    }
    assert forall|n: int, k: int, m: int, j: int|
        0 <= n < u.len() && 0 <= k < u[n].children.len() && 0 <= m < u.len() && 0 <= j
            < u[m].children.len() && #[trigger] u[n].children[k] == #[trigger] u[m].children[j]
        implies n == m && k == j by {
        let old_n = n != id && !(n == parent && k == last);
        let old_m = m != id && !(m == parent && j == last);
        if old_n {
            assert(u[n].children[k] == t[n].children[k]);
        }
        if old_m {
            assert(u[m].children[j] == t[m].children[j]);
        }
    }
    assert forall|c: int| 1 <= c < u.len() implies #[trigger] has_parent(u, c) by {
        if c == id {
            assert(u[parent].children[last] == c);
        } else {
            assert(has_parent(t, c));
            let (n, k) = choose|n: int, k: int|
                0 <= n < t.len() && 0 <= k < t[n].children.len() && #[trigger] t[n].children[k]
                    == c;
            assert(u[n].children[k] == c);
        }
    }
}

/// The value of the last attribute among `attrs` whose name is `name`.
pub fn find_attribute(attrs: &Vec<Attribute>, name: &str) -> (r: Option<String>)
    ensures
        string_view(r) == attr_value(attribute_views(attrs@), name@),
{
    let wanted = chars_of(name);
    let ghost all = attribute_views(attrs@);
    let mut i: usize = attrs.len();
    assert(all.take(i as int) =~= all);
    while i > 0
        invariant
            i <= attrs.len(),
            all == attribute_views(attrs@),
            wanted@ == name@,
            attr_value(all, name@) == attr_value(all.take(i as int), name@),
        decreases i,
    {
        i -= 1;
        assert(all.take(i + 1).last() == attrs@[i as int]@);
        assert(all.take(i + 1).drop_last() =~= all.take(i as int));
        if same_chars(&chars_of(attrs[i].name.as_str()), &wanted) {
            return Some(attrs[i].value.clone());
        }
    }
    None
}

impl Document {
    /// Every document is a tree.
    #[verifier::type_invariant]
    pub open spec fn well_formed(&self) -> bool {
        tree_wf(self@)
    }

    /// The tree under the node `node`.
    pub open spec fn subtree(&self, node: usize) -> Tree {
        tree_at(self@, node as int)
    }

    /// The whole tree: the tree under the root.
    pub open spec fn tree(&self) -> Tree {
        tree_at(self@, 0)
    }

    /// A document that holds its root and nothing else. The root is no
    /// element and no text.
    pub fn new() -> (doc: Document)
        ensures
            doc@ == seq![NodeView { data: DataView::Other, children: Seq::<int>::empty() }],
    {
        Document::with_root(NodeData::Other)
    }

    /// A document that holds the root `data` and nothing else.
    pub fn with_root(data: NodeData) -> (doc: Document)
        ensures
            doc@ == seq![NodeView { data: data@, children: Seq::<int>::empty() }],
    {
        let mut nodes: Vec<TreeNode> = Vec::new();
        nodes.push(TreeNode { data, children: Vec::new() });
        proof {
            let t = node_views(nodes@);
            assert(t[0].children =~= Seq::<int>::empty());
            assert(t =~= seq![NodeView { data: data@, children: Seq::<int>::empty() }]);
        }
        Document { nodes }
    }

    /// The number of nodes, the root included.
    pub fn len(&self) -> (n: usize)
        ensures
            n == self@.len(),
    {
        self.nodes.len()
    }

    /// The number of children of `node`; 0 if there is no such node.
    pub fn child_count(&self, node: usize) -> (n: usize)
        ensures
            n == self.subtree(node).children.len(),
    {
        proof {
            use_type_invariant(self);
            if node < self@.len() {
                lemma_tree_at(self@, node as int);
            }
        }
        if node < self.nodes.len() {
            self.nodes[node].children.len()
        } else {
            0
        }
    }

    /// The child of `node` at place `k`, if there is one.
    pub fn child(&self, node: usize, k: usize) -> (r: Option<usize>)
        ensures
            tree_of_node(self@, r) == self.subtree(node).child(k as int),
            match r {
                Some(c) => child_at(self@, node as int, k as int) == Some(c as int),
                None => child_at(self@, node as int, k as int) is None,
            },
    {
        proof {
            use_type_invariant(self);
            if node < self@.len() {
                lemma_tree_at(self@, node as int);
            }
        }
        if node < self.nodes.len() && k < self.nodes[node].children.len() {
            let c = self.nodes[node].children[k];
            assert(self@[node as int].children[k as int] == c);
            Some(c)
        } else {
            None
        }
    }

    /// What `node` is, if there is such a node.
    pub fn data(&self, node: usize) -> (r: Option<&NodeData>)
        ensures
            r is Some <==> node < self@.len(),
            r matches Some(d) ==> d@ == self@[node as int].data && d@ == self.subtree(node).data,
    {
        if node < self.nodes.len() {
            Some(&self.nodes[node].data)
        } else {
            None
        }
    }

    /// Whether `node` is an element.
    pub fn is_element(&self, node: usize) -> (r: bool)
        ensures
            r == self.subtree(node).is_element(),
    {
        match self.data(node) {
            Some(NodeData::Element { .. }) => true,
            _ => false,
        }
    }

    /// The value of the attribute `name` of `node`, if `node` is an element
    /// that has one. Of several attributes of that name the last one counts.
    pub fn attribute(&self, node: usize, name: &str) -> (r: Option<String>)
        ensures
            string_view(r) == self.subtree(node).attr(name@),
    {
        match self.data(node) {
            Some(NodeData::Element { attrs, .. }) => find_attribute(attrs, name),
            _ => None,
        }
    }

    /// The contents of `node`, if it is a text node.
    pub fn text(&self, node: usize) -> (r: Option<String>)
        ensures
            string_view(r) == self.subtree(node).text(),
    {
        match self.data(node) {
            Some(NodeData::Text { contents }) => Some(contents.clone()),
            _ => None,
        }
    }

    /// Adds a node without children as the last child of `parent` and returns
    /// its position. Without such a parent the document stays as it is.
    pub fn add_child(&mut self, parent: usize, data: NodeData) -> (r: Option<usize>)
        ensures
            match r {
                Some(id) => {
                    &&& parent < old(self)@.len()
                    &&& id == old(self)@.len()
                    &&& final(self)@ == with_leaf(old(self)@, parent as int, data@)
                },
                None => parent >= old(self)@.len() && final(self)@ == old(self)@,
            },
    {
        proof {
            use_type_invariant(&*self);
        }
        if parent >= self.nodes.len() {
            return None;
        }
        let ghost before = self@;
        // The nodes are taken out, changed, and put back as a whole: between
        // the two changes they are no tree. What stands in for them meanwhile
        // is the empty tree.
        let mut taken = Document { nodes: Vec::new() };
        core::mem::swap(self, &mut taken);
        let mut nodes = taken.nodes;
        let id = nodes.len();
        nodes.push(TreeNode { data, children: Vec::new() });
        nodes[parent].children.push(id);
        proof {
            let after = node_views(nodes@);
            let expected = with_leaf(before, parent as int, data@);
            assert(after.len() == expected.len());
            assert forall|i: int| 0 <= i < after.len() implies after[i] == expected[i] by {
                if i == parent {
                    assert(after[i].children =~= expected[i].children);
                } else if i == id {
                    assert(after[i].children =~= expected[i].children);
                } else {
                    assert(after[i] == before[i]);
                }
            }
            assert(after =~= expected);
            lemma_add_child_wf(before, parent as int, data@);
        }
        *self = Document { nodes };
        Some(id)
    }
}

} // verus!
