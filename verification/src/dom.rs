//! The document tree: an arena of nodes addressed by index, grown only by
//! appending a new last child to a node already in it.

use vstd::prelude::*;

verus! {

/// Index of a node in its document's arena.
pub type NodeId = usize;

/// What an element carries for selector matching.
#[derive(Clone, Debug, PartialEq, Eq)]
pub struct ElementData {
    pub name: String,
    pub id: Option<String>,
    pub classes: Vec<String>,
}

/// The kind of a node, with its payload.
#[derive(Clone, Debug, PartialEq, Eq)]
pub enum NodeData {
    Document,
    Doctype { name: String },
    Text { contents: String },
    Comment { contents: String },
    Element(ElementData),
    ProcessingInstruction { target: String, contents: String },
}

/// One entry of the arena.
struct Node {
    parent: Option<NodeId>,
    first_child: Option<NodeId>,
    last_child: Option<NodeId>,
    next_sibling: Option<NodeId>,
    data: NodeData,
}

/// A rooted tree of nodes. Node 0 is the document node.
pub struct Document {
    nodes: Vec<Node>,
}

impl Document {
    /// The links of the arena describe a tree in which every node has a
    /// greater index than its parent and than its previous sibling. `new`
    /// establishes this and `append_child` keeps it.
    pub closed spec fn wf(self) -> bool {
        &&& self.nodes@.len() >= 1
        &&& self.nodes@[0].parent is None
        &&& self.nodes@[0].next_sibling is None
        &&& self.nodes@[0].data is Document
        &&& forall|i: int| 0 <= i < self.nodes@.len() ==> #[trigger] self.links_ok(i)
    }

    /// The links of node `i` point forward, and those they point to point back.
    spec fn links_ok(self, i: int) -> bool {
        let n = self.nodes@[i];
        &&& (n.first_child matches Some(c) ==> i < c < self.nodes@.len()
            && self.nodes@[c as int].parent == Some(i as usize))
        &&& (n.last_child matches Some(l) ==> i < l < self.nodes@.len()
            && self.nodes@[l as int].parent == Some(i as usize)
            && self.nodes@[l as int].next_sibling is None)
        &&& (n.first_child is None <==> n.last_child is None)
        &&& (n.next_sibling matches Some(s) ==> i < s < self.nodes@.len()
            && self.nodes@[s as int].parent == n.parent)
        &&& (n.parent matches Some(p) ==> p < i && (n.next_sibling is None
            ==> self.nodes@[p as int].last_child == Some(i as usize)))
        &&& (i > 0 ==> n.parent is Some)
    }

    /// Number of nodes, the document node included.
    pub closed spec fn len_spec(self) -> nat {
        self.nodes@.len()
    }

    /// Payload of node `id`.
    pub closed spec fn data_spec(self, id: NodeId) -> NodeData {
        self.nodes@[id as int].data
    }

    /// Parent of node `id`; none for the document node.
    pub closed spec fn parent_spec(self, id: NodeId) -> Option<NodeId> {
        self.nodes@[id as int].parent
    }

    /// First child of node `id`.
    pub closed spec fn first_child_spec(self, id: NodeId) -> Option<NodeId> {
        self.nodes@[id as int].first_child
    }

    /// The node that follows `id` among the children of its parent.
    pub closed spec fn next_sibling_spec(self, id: NodeId) -> Option<NodeId> {
        self.nodes@[id as int].next_sibling
    }

    /// The nodes from `first` on along the next-sibling links.
    pub closed spec fn siblings_from(self, first: Option<NodeId>) -> Seq<NodeId>
        decreases
            (match first {
                Some(n) => self.len_spec() - n,
                None => 0,
            }),
    {
        match first {
            None => Seq::empty(),
            Some(n) => {
                if n >= self.nodes@.len() {
                    Seq::empty()
                } else {
                    let next = self.nodes@[n as int].next_sibling;
                    if next is Some && (next->0 <= n || next->0 >= self.len_spec()) {
                        seq![n]
                    } else {
                        seq![n] + self.siblings_from(next)
                    }
                }
            },
        }
    }

    /// The children of `id`, first to last.
    pub open spec fn children(self, id: NodeId) -> Seq<NodeId> {
        self.siblings_from(self.first_child_spec(id))
    }

    /// The first of `nodes` that is an element.
    pub open spec fn first_element_in(self, nodes: Seq<NodeId>) -> Option<NodeId>
        decreases nodes.len(),
    {
        if nodes.len() == 0 {
            None
        } else if self.data_spec(nodes[0]) is Element {
            Some(nodes[0])
        } else {
            self.first_element_in(nodes.drop_first())
        }
    }

    /// The chain that starts nowhere is empty.
    pub proof fn lemma_siblings_from_none(self)
        ensures
            self.siblings_from(None) == Seq::<NodeId>::empty(),
    {
    }

    /// The chain from `n` is `n` followed by the chain from its next sibling,
    /// which lies further on in the arena.
    pub proof fn lemma_siblings_from_some(self, n: NodeId)
        requires
            self.wf(),
            n < self.len_spec(),
        ensures
            self.siblings_from(Some(n)) == seq![n] + self.siblings_from(self.next_sibling_spec(n)),
            self.next_sibling_spec(n) matches Some(m) ==> n < m < self.len_spec(),
            self.first_child_spec(n) matches Some(c) ==> n < c < self.len_spec(),
    {
        assert(self.links_ok(n as int));
    }

    /// Every node of a chain lies in the arena, at or after the chain's start.
    pub proof fn lemma_siblings_in_range(self, first: Option<NodeId>)
        requires
            self.wf(),
            first matches Some(n) ==> n < self.len_spec(),
        ensures
            forall|k: int|
                0 <= k < self.siblings_from(first).len() ==> first->0 <= (
                #[trigger] self.siblings_from(first)[k]) < self.len_spec(),
        decreases
            (match first {
                Some(n) => self.len_spec() - n,
                None => 0,
            }),
    {
        if let Some(n) = first {
            assert(self.links_ok(n as int));
            let next = self.next_sibling_spec(n);
            let rest = self.siblings_from(next);
            self.lemma_siblings_in_range(next);
            assert forall|k: int| 0 <= k < self.siblings_from(first).len() implies n <= (
            #[trigger] self.siblings_from(first)[k]) < self.len_spec() by {}
        }
    }

    /// A chain starts at its start, every node of it has the same parent, and
    /// each leads to the one after it and the last to none.
    pub proof fn lemma_siblings_linked(self, first: Option<NodeId>)
        requires
            self.wf(),
            first matches Some(n) ==> n < self.len_spec(),
        ensures
            first is None ==> self.siblings_from(first).len() == 0,
            first matches Some(n) ==> self.siblings_from(first).len() > 0 && self.siblings_from(
                first,
            )[0] == n,
            forall|k: int|
                0 <= k < self.siblings_from(first).len() ==> self.next_sibling_spec(
                    #[trigger] self.siblings_from(first)[k],
                ) == (if k + 1 < self.siblings_from(first).len() {
                    Some(self.siblings_from(first)[k + 1])
                } else {
                    None
                }) && self.parent_spec(self.siblings_from(first)[k]) == self.parent_spec(
                    first->0,
                ),
        decreases
            (match first {
                Some(n) => self.len_spec() - n,
                None => 0,
            }),
    {
        if let Some(n) = first {
            assert(self.links_ok(n as int));
            let next = self.next_sibling_spec(n);
            let rest = self.siblings_from(next);
            let chain = self.siblings_from(first);
            self.lemma_siblings_linked(next);
            assert forall|k: int| 0 <= k < chain.len() implies self.next_sibling_spec(
                #[trigger] chain[k],
            ) == (if k + 1 < chain.len() {
                Some(chain[k + 1])
            } else {
                None
            }) && self.parent_spec(chain[k]) == self.parent_spec(n) by {}
        }
    }

    /// How the links of a node and of its children spell out its list of
    /// children: the first child is the head of the list, each child leads
    /// to the next, and each has the node for its parent.
    pub proof fn lemma_children_linked(self, id: NodeId)
        requires
            self.wf(),
            id < self.len_spec(),
        ensures
            self.first_child_spec(id) == (if self.children(id).len() > 0 {
                Some(self.children(id)[0])
            } else {
                None
            }),
            forall|k: int|
                0 <= k < self.children(id).len() ==> self.next_sibling_spec(
                    #[trigger] self.children(id)[k],
                ) == (if k + 1 < self.children(id).len() {
                    Some(self.children(id)[k + 1])
                } else {
                    None
                }) && self.parent_spec(self.children(id)[k]) == Some(id),
    {
        assert(self.links_ok(id as int));
        self.lemma_siblings_linked(self.first_child_spec(id));
    }

    /// Every child of a node lies in the arena after the node itself.
    pub proof fn lemma_children_in_range(self, id: NodeId)
        requires
            self.wf(),
            id < self.len_spec(),
        ensures
            forall|k: int|
                0 <= k < self.children(id).len() ==> id < (#[trigger] self.children(id)[k])
                    < self.len_spec(),
    {
        assert(self.links_ok(id as int));
        self.lemma_siblings_in_range(self.first_child_spec(id));
    }

    /// A document that holds its document node and nothing else.
    pub fn new() -> (doc: Document)
        ensures
            doc.wf(),
            doc.len_spec() == 1,
            doc.data_spec(0) is Document,
            doc.children(0) == Seq::<NodeId>::empty(),
            doc.parent_spec(0) is None,
    {
        let mut nodes: Vec<Node> = Vec::new();
        nodes.push(
            Node {
                parent: None,
                first_child: None,
                last_child: None,
                next_sibling: None,
                data: NodeData::Document,
            },
        );
        Document { nodes }
    }

    /// Adds a node with payload `data` as the new last child of `parent` and
    /// returns its index. Nothing else in the tree changes.
    pub fn append_child(&mut self, parent: NodeId, data: NodeData) -> (id: NodeId)
        requires
            old(self).wf(),
            parent < old(self).len_spec(),
        ensures
            final(self).wf(),
            id == old(self).len_spec(),
            final(self).len_spec() == old(self).len_spec() + 1,
            final(self).data_spec(id) == data,
            final(self).parent_spec(id) == Some(parent),
            final(self).children(id) == Seq::<NodeId>::empty(),
            final(self).children(parent) == old(self).children(parent).push(id),
            forall|n: NodeId|
                n < old(self).len_spec() ==> #[trigger] final(self).data_spec(n) == old(
                    self,
                ).data_spec(n),
            forall|n: NodeId|
                n < old(self).len_spec() ==> #[trigger] final(self).parent_spec(n) == old(
                    self,
                ).parent_spec(n),
            forall|n: NodeId|
                n < old(self).len_spec() && n != parent ==> #[trigger] final(self).children(n)
                    == old(self).children(n),
    {
        let id = self.nodes.len();
        let last = self.nodes[parent].last_child;
        assert(self.links_ok(parent as int));
        self.nodes.push(
            Node {
                parent: Some(parent),
                first_child: None,
                last_child: None,
                next_sibling: None,
                data,
            },
        );
        match last {
            Some(l) => {
                self.nodes[l].next_sibling = Some(id);
            },
            None => {
                self.nodes[parent].first_child = Some(id);
            },
        }
        self.nodes[parent].last_child = Some(id);
        proof {
            let before = *old(self);
            let after = *self;
            assert(after.nodes@.len() == after.nodes.len());
            Self::lemma_append_keeps_wf(before, after, parent, data);
            assert forall|n: NodeId| n < before.len_spec() implies after.children(n) == (if n
                == parent {
                before.children(n).push(id)
            } else {
                before.children(n)
            }) by {
                assert(before.links_ok(n as int));
                Self::lemma_append_siblings(
                    before,
                    after,
                    parent,
                    data,
                    before.first_child_spec(n),
                );
            }
        }
        id
    }

    /// `self` is `before` with one more node, appended under `parent`.
    spec fn extends(self, before: Document, parent: NodeId, data: NodeData) -> bool {
        let id = before.nodes@.len();
        &&& parent < before.nodes@.len()
        &&& self.nodes@.len() == before.nodes@.len() + 1
        &&& self.nodes@[id as int].parent == Some(parent)
        &&& self.nodes@[id as int].first_child is None
        &&& self.nodes@[id as int].last_child is None
        &&& self.nodes@[id as int].next_sibling is None
        &&& self.nodes@[id as int].data == data
        &&& forall|i: int|
            0 <= i < before.nodes@.len() ==> {
                let n = #[trigger] self.nodes@[i];
                let o = before.nodes@[i];
                &&& n.data == o.data
                &&& n.parent == o.parent
                &&& n.first_child == (if i == parent && o.last_child is None {
                    Some(id as usize)
                } else {
                    o.first_child
                })
                &&& n.last_child == (if i == parent {
                    Some(id as usize)
                } else {
                    o.last_child
                })
                &&& n.next_sibling == (if before.nodes@[parent as int].last_child == Some(
                    i as usize,
                ) {
                    Some(id as usize)
                } else {
                    o.next_sibling
                })
            }
    }

    proof fn lemma_append_keeps_wf(
        before: Document,
        after: Document,
        parent: NodeId,
        data: NodeData,
    )
        requires
            before.wf(),
            after.extends(before, parent, data),
            before.nodes@.len() < usize::MAX,
        ensures
            after.wf(),
    {
        let id = before.nodes@.len();
        assert(before.links_ok(parent as int));
        assert forall|i: int| 0 <= i < after.nodes@.len() implies #[trigger] after.links_ok(
            i,
        ) by {
            if i < id {
                assert(before.links_ok(i));
            }
        }
    }

    proof fn lemma_append_siblings(
        before: Document,
        after: Document,
        parent: NodeId,
        data: NodeData,
        first: Option<NodeId>,
    )
        requires
            before.wf(),
            after.extends(before, parent, data),
            before.nodes@.len() < usize::MAX,
            first matches Some(s) ==> s < before.nodes@.len(),
        ensures
            after.siblings_from(first) == (if first is Some && before.nodes@[first->0 as int].parent
                == Some(parent) {
                before.siblings_from(first).push(before.nodes@.len() as usize)
            } else {
                before.siblings_from(first)
            }),
        decreases
            (match first {
                Some(n) => before.nodes@.len() - n,
                None => 0,
            }),
    {
        let id = before.nodes@.len() as usize;
        match first {
            None => {},
            Some(s) => {
                let o = before.nodes@[s as int];
                assert(before.links_ok(s as int));
                assert(before.links_ok(parent as int));
                assert(after.siblings_from(None) == Seq::<NodeId>::empty());
                assert(before.siblings_from(None) == Seq::<NodeId>::empty());
                assert(after.siblings_from(Some(id)) == seq![id]);
                if before.nodes@[parent as int].last_child == Some(s) {
                } else {
                    Self::lemma_append_siblings(before, after, parent, data, o.next_sibling);
                    match o.next_sibling {
                        None => {
                        },
                        Some(m) => {
                        },
                    }
                }
            },
        }
    }

    /// The document node.
    pub fn document_node_id(&self) -> (id: NodeId)
        requires
            self.wf(),
        ensures
            id == 0,
            id < self.len_spec(),
            self.data_spec(id) is Document,
    {
        0
    }

    /// Number of nodes, the document node included.
    pub fn len(&self) -> (n: usize)
        ensures
            n == self.len_spec(),
    {
        self.nodes.len()
    }

    /// The root element: the first element among the document node's
    /// children, if there is one.
    pub fn root_element(&self) -> (root: Option<NodeId>)
        requires
            self.wf(),
        ensures
            root == self.first_element_in(self.children(0)),
            root matches Some(r) ==> r < self.len_spec() && self.data_spec(r) is Element,
    {
        assert(self.links_ok(0));
        let mut cur = self.nodes[0].first_child;
        while cur.is_some()
            invariant
                self.wf(),
                cur matches Some(c) ==> c < self.len_spec(),
                self.first_element_in(self.children(0)) == self.first_element_in(
                    self.siblings_from(cur),
                ),
            decreases
                (match cur {
                    Some(c) => self.len_spec() - c,
                    None => 0,
                }),
        {
            let n = cur.unwrap();
            proof {
                self.lemma_siblings_from_some(n);
                let rest = self.siblings_from(self.next_sibling_spec(n));
                assert((seq![n] + rest).drop_first() == rest);
            }
            if let NodeData::Element(_) = &self.nodes[n].data {
                return Some(n);
            }
            cur = self.nodes[n].next_sibling;
        }
        None
    }

    /// Payload of node `id`.
    pub fn data(&self, id: NodeId) -> (data: &NodeData)
        requires
            id < self.len_spec(),
        ensures
            *data == self.data_spec(id),
    {
        &self.nodes[id].data
    }

    /// Parent of node `id`; none for the document node.
    pub fn parent(&self, id: NodeId) -> (parent: Option<NodeId>)
        requires
            self.wf(),
            id < self.len_spec(),
        ensures
            parent == self.parent_spec(id),
            parent matches Some(p) ==> p < id,
    {
        assert(self.links_ok(id as int));
        self.nodes[id].parent
    }

    /// First child of node `id`.
    pub fn first_child(&self, id: NodeId) -> (child: Option<NodeId>)
        requires
            self.wf(),
            id < self.len_spec(),
        ensures
            child == self.first_child_spec(id),
            child matches Some(c) ==> id < c < self.len_spec(),
    {
        assert(self.links_ok(id as int));
        self.nodes[id].first_child
    }

    /// The node that follows `id` among the children of its parent.
    pub fn next_sibling(&self, id: NodeId) -> (sibling: Option<NodeId>)
        requires
            self.wf(),
            id < self.len_spec(),
        ensures
            sibling == self.next_sibling_spec(id),
            sibling matches Some(s) ==> id < s < self.len_spec(),
    {
        assert(self.links_ok(id as int));
        self.nodes[id].next_sibling
    }
}

} // verus!
