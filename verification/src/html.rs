//! From the bytes of a page to its document tree. The parsing is html5ever's;
//! the tree it builds is copied, node by node, into a [`Document`].

use vstd::prelude::*;
use std::rc::Rc;
use html5ever::tendril::TendrilSink;
use crate::dom::{
    lemma_tree_at, tree_at, tree_wf, Attribute, Document, NodeData, NodeView, Tree,
};

verus! {

/// A node of a tree that the parser built, `markup5ever_rcdom::Node`. It is
/// carried through as it is; what it holds is read by [`node_children`] and
/// [`node_data`].
#[verifier::external_type_specification]
#[verifier::external_body]
pub struct ExNode(markup5ever_rcdom::Node);

/// The tree under a node that the parser built: at its root what the node
/// is, with the local names of an element and of its attributes, the
/// attributes' values, or a text's contents; under it the trees of the
/// node's children, in their order.
pub uninterp spec fn tree_of(node: markup5ever_rcdom::Node) -> Tree;

/// The tree that html5ever builds from the bytes of a document.
pub uninterp spec fn html_tree(bytes: Seq<u8>) -> Tree;

/// The longest input, in bytes, that is handed to the parser.
pub const PARSE_LIMIT: usize = 715_827_882;

/// Whether the parser can take `bytes`. The parser keeps text in tendrils,
/// and a tendril cannot grow beyond 2^31 bytes. No piece of a document's
/// text is longer than three times the input: a byte that is no text is
/// replaced by a character of three bytes, and nothing else grows by more.
pub open spec fn parsable(bytes: Seq<u8>) -> bool {
    3 * bytes.len() <= 0x8000_0000
}

/// Parses `bytes` as an HTML document with `html5ever::parse_document`, into
/// a `markup5ever_rcdom::RcDom`, and returns the root of that tree. The bytes
/// are read as UTF-8, ill-formed sequences replaced. The contract claims
/// that the tree depends on the bytes alone. It leaves out the inputs on
/// which a tendril could be asked to grow beyond 2^31 bytes, where
/// `tendril::buf32::Buf32::grow` panics: see [`parsable`].
#[verifier::external_body]
fn parse_html(bytes: &[u8]) -> (root: Rc<markup5ever_rcdom::Node>)
    requires
        parsable(bytes@),
    ensures
        tree_of(*root) == html_tree(bytes@),
{
    html5ever::parse_document(markup5ever_rcdom::RcDom::default(), html5ever::ParseOpts::default())
        .from_utf8()
        .one(bytes)
        .document
}

/// Hands out the children of a node of a parsed tree, in order: a copy of
/// the field `children` of `markup5ever_rcdom::Node`. The contract claims
/// that these are the roots of the trees under the node.
#[verifier::external_body]
fn node_children(node: &markup5ever_rcdom::Node) -> (children: Vec<Rc<markup5ever_rcdom::Node>>)
    ensures
        children@.len() == tree_of(*node).children.len(),
        forall|k: int|
            0 <= k < children@.len() ==> tree_of(*#[trigger] children@[k]) == tree_of(
                *node,
            ).children[k],
{
    node.children.borrow().clone()
}

/// Hands out what a node of a parsed tree is: the field `data` of
/// `markup5ever_rcdom::Node`, with the local names of an element and of its
/// attributes, the attributes' values, and a text's contents as strings.
/// The contract claims that this is what stands at the root of the node's
/// tree.
#[verifier::external_body]
fn node_data(node: &markup5ever_rcdom::Node) -> (data: NodeData)
    ensures
        data@ == tree_of(*node).data,
{
    match &node.data {
        markup5ever_rcdom::NodeData::Element { name, attrs, .. } => NodeData::Element {
            name: name.local.to_string(),
            attrs: attrs.borrow().iter().map(
                |a| Attribute { name: a.name.local.to_string(), value: a.value.to_string() },
            ).collect(),
        },
        markup5ever_rcdom::NodeData::Text { contents } => NodeData::Text {
            contents: contents.borrow().to_string(),
        },
        _ => NodeData::Other,
    }
}

/// Whether the node of `t` at each place has the data of the tree at that
/// place in `trees`.
spec fn data_matches(t: Seq<NodeView>, trees: Seq<Tree>) -> bool {
    forall|n: int| 0 <= n < t.len() ==> (#[trigger] t[n]).data == trees[n].data
}

/// Whether node `n` of `t` has all its children: as many as the tree at its
/// place in `trees`, each standing where `trees` has the child's tree.
spec fn children_match(t: Seq<NodeView>, trees: Seq<Tree>, n: int) -> bool {
    &&& t[n].children.len() == trees[n].children.len()
    &&& forall|k: int|
        0 <= k < t[n].children.len() ==> 0 <= #[trigger] t[n].children[k] < trees.len()
            && trees[t[n].children[k]] == trees[n].children[k]
}

/// Where every node of a well-formed document has the data and the children
/// of the tree at its place, that tree is the tree under the node.
proof fn lemma_trees_match(t: Seq<NodeView>, trees: Seq<Tree>, n: int)
    requires
        tree_wf(t),
        trees.len() == t.len(),
        data_matches(t, trees),
        forall|j: int| 0 <= j < t.len() ==> children_match(t, trees, j),
        0 <= n < t.len(),
    ensures
        tree_at(t, n) == trees[n],
    decreases t.len() - n,
{
    lemma_tree_at(t, n);
    assert(children_match(t, trees, n));
    assert forall|k: int| 0 <= k < t[n].children.len() implies tree_at(t, n).children[k]
        == trees[n].children[k] by {
        lemma_trees_match(t, trees, t[n].children[k]);
    }
    assert(tree_at(t, n).children =~= trees[n].children);
}

/// The trees under a list of nodes that the parser built.
spec fn trees_of(handles: Seq<Rc<markup5ever_rcdom::Node>>) -> Seq<Tree> {
    Seq::new(handles.len(), |n: int| tree_of(*handles[n]))
}

/// Copies the tree under `root` into a document, level by level, so that
/// each node stands before its children and the children of one node stand
/// together, in their order.
fn flatten(root: Rc<markup5ever_rcdom::Node>) -> (doc: Document)
    ensures
        doc.tree() == tree_of(*root),
{
    let mut doc = Document::with_root(node_data(&root));
    let mut handles: Vec<Rc<markup5ever_rcdom::Node>> = Vec::new();
    handles.push(root);
    let mut i: usize = 0;
    while i < handles.len()
        invariant
            doc@.len() == handles@.len(),
            handles@.len() >= 1,
            handles@[0] == root,
            i <= handles@.len(),
            data_matches(doc@, trees_of(handles@)),
            forall|n: int| 0 <= n < i ==> children_match(doc@, trees_of(handles@), n),
            forall|n: int| i <= n < doc@.len() ==> (#[trigger] doc@[n]).children.len() == 0,
        decreases usize::MAX - i,
    {
        let mut kids = node_children(&handles[i]);
        let ghost base = handles@.len() as int;
        let ghost before = handles@;
        proof {
            let trees = trees_of(before);
            assert forall|n: int| 0 <= n < base implies (#[trigger] doc@[n]).data == tree_of(
                *before[n],
            ).data by {
                assert(doc@[n].data == trees[n].data);
            }
            assert forall|n: int| 0 <= n < i implies (#[trigger] doc@[n]).children.len()
                == tree_of(*before[n]).children.len() by {
                assert(children_match(doc@, trees, n));
            }
            assert forall|n: int, c: int|
                0 <= n < i && 0 <= c < doc@[n].children.len() implies 0
                    <= #[trigger] doc@[n].children[c] < base && tree_of(
                *before[doc@[n].children[c]],
            ) == tree_of(*before[n]).children[c] by {
                assert(children_match(doc@, trees, n));
                let id = doc@[n].children[c];
                assert(trees[id] == trees[n].children[c]);
            }
        }
        let mut k: usize = 0;
        while k < kids.len()
            invariant
                handles@ == before,
                base == before.len(),
                doc@.len() == base + k,
                i < base,
                k <= kids@.len(),
                kids@.len() == tree_of(*before[i as int]).children.len(),
                forall|j: int|
                    0 <= j < kids@.len() ==> tree_of(*#[trigger] kids@[j]) == tree_of(
                        *before[i as int],
                    ).children[j],
                forall|n: int|
                    0 <= n < base ==> (#[trigger] doc@[n]).data == tree_of(*before[n]).data,
                forall|j: int|
                    0 <= j < k ==> (#[trigger] doc@[base + j]).data == tree_of(*kids@[j]).data,
                forall|n: int|
                    0 <= n < i ==> (#[trigger] doc@[n]).children.len() == tree_of(
                        *before[n],
                    ).children.len(),
                forall|n: int, c: int|
                    0 <= n < i && 0 <= c < doc@[n].children.len() ==> 0 <= #[trigger] doc@[n].children[c]
                        < base && tree_of(*before[doc@[n].children[c]]) == tree_of(
                        *before[n],
                    ).children[c],
                doc@[i as int].children.len() == k,
                forall|j: int| 0 <= j < k ==> #[trigger] doc@[i as int].children[j] == base + j,
                forall|n: int| i < n < doc@.len() ==> (#[trigger] doc@[n]).children.len() == 0,
            decreases kids@.len() - k,
        {
            let data = node_data(&kids[k]);
            let ghost old_doc = doc@;
            doc.add_child(i, data);
            proof {
                assert forall|n: int| 0 <= n < base implies (#[trigger] doc@[n]).data == tree_of(
                    *before[n],
                ).data by {
                    assert(old_doc[n].data == tree_of(*before[n]).data);
                }
                assert forall|j: int| 0 <= j < k + 1 implies (#[trigger] doc@[base + j]).data
                    == tree_of(*kids@[j]).data by {
                    if j < k {
                        assert(old_doc[base + j].data == tree_of(*kids@[j]).data);
                    }
                }
                assert forall|n: int| 0 <= n < i implies (#[trigger] doc@[n]).children.len()
                    == tree_of(*before[n]).children.len() by {
                    assert(doc@[n] == old_doc[n]);
                }
                assert forall|n: int, c: int|
                    0 <= n < i && 0 <= c < doc@[n].children.len() implies 0
                        <= #[trigger] doc@[n].children[c] < base && tree_of(
                    *before[doc@[n].children[c]],
                ) == tree_of(*before[n]).children[c] by {
                    assert(doc@[n] == old_doc[n]);
                    assert(0 <= old_doc[n].children[c] < base);
                }
                assert forall|j: int| 0 <= j < k + 1 implies #[trigger] doc@[i as int].children[j]
                    == base + j by {
                    if j < k {
                        assert(old_doc[i as int].children[j] == base + j);
                    }
                }
                assert forall|n: int| i < n < doc@.len() implies (#[trigger] doc@[n]).children.len()
                    == 0 by {
                    if n < old_doc.len() {
                        assert(doc@[n] == old_doc[n]);
                    }
                }
            }
            k += 1;
        }
        let ghost grown = kids@;
        handles.append(&mut kids);
        proof {
            let trees = trees_of(handles@);
            assert(handles@ =~= before + grown);
            assert forall|n: int| 0 <= n < doc@.len() implies (#[trigger] doc@[n]).data
                == trees[n].data by {
                if n < base {
                    assert(handles@[n] == before[n]);
                } else {
                    assert(handles@[n] == grown[n - base]);
                    assert(doc@[base + (n - base)].data == tree_of(*grown[n - base]).data);
                }
            }
            assert forall|n: int| 0 <= n < i + 1 implies children_match(doc@, trees, n) by {
                assert(handles@[n] == before[n]);
                assert forall|c: int| 0 <= c < doc@[n].children.len() implies 0
                    <= #[trigger] doc@[n].children[c] < trees.len() && trees[doc@[n].children[c]]
                    == trees[n].children[c] by {
                    if n < i {
                        let id = doc@[n].children[c];
                        assert(0 <= id < base);
                        assert(handles@[id] == before[id]);
                    } else {
                        assert(doc@[n].children[c] == base + c);
                        assert(handles@[base + c] == grown[c]);
                    }
                }
            }
        }
        i += 1;
    }
    proof {
        use_type_invariant(&doc);
        lemma_trees_match(doc@, trees_of(handles@), 0);
    }
    doc
}

/// Parses the bytes of a page into its document tree: the tree that
/// html5ever builds from them. An input of more than [`PARSE_LIMIT`] bytes
/// is not handed to the parser and gives no document.
pub fn parse_document(bytes: &[u8]) -> (r: Option<Document>)
    ensures
        r is Some <==> parsable(bytes@),
        r matches Some(doc) ==> doc.tree() == html_tree(bytes@),
{
    if bytes.len() > PARSE_LIMIT {
        return None;
    }
    Some(flatten(parse_html(bytes)))
}

} // verus!
