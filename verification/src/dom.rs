//! The document: an arena that owns every node and addresses it by stable
//! index.  All mutation routes through the arena, so shared handles are plain
//! indices and the tree stays acyclic by construction: every child index is
//! strictly greater than its parent's.

use vstd::prelude::*;

use crate::lexer::spec_tokenize;
use crate::lexer::TokenizeError;
use crate::lexer::Tokenizer;
use crate::node::attr_lookup;
use crate::node::attrs_unique;
use crate::node::BodyV;
use crate::node::Node;
use crate::node::NodeDataV;
use crate::node::NodeType;
use crate::node::NodeTypeV;
use crate::node::NodeV;
use crate::node::str_eq;
use crate::parser::spec_parse;
use crate::parser::ParseErrV;
use crate::parser::ParseError;
use crate::parser::Parser;

verus! {

broadcast use vstd::seq::group_seq_axioms, vstd::seq_lib::group_seq_lib_default;

/// Everything that can make building or mutating a document fail.
#[derive(Debug)]
pub enum DomError {
    /// The lexer failed.
    TokenizeError(TokenizeError),
    /// The parser failed.
    ParseError(ParseError),
    /// An append was attempted against a node variant that forbids it.
    BlockedAppend(String),
}

/// The mathematical image of a [`DomError`].
pub enum DomErrV {
    TokenizeError(TokenizeError),
    ParseError(ParseErrV),
    BlockedAppend(Seq<char>),
}

impl View for DomError {
    type V = DomErrV;

    open spec fn view(&self) -> DomErrV {
        match self {
            DomError::TokenizeError(e) => DomErrV::TokenizeError(*e),
            DomError::ParseError(e) => DomErrV::ParseError(e@),
            DomError::BlockedAppend(s) => DomErrV::BlockedAppend(s@),
        }
    }
}

/// The document: the node arena and the index of the root node.
#[derive(Debug)]
pub struct Dom {
    pub(crate) nodes: Vec<Node>,
    pub(crate) root: usize,
}

/// The mathematical image of a [`Dom`].
pub struct DomV {
    pub nodes: Seq<NodeDataV>,
    pub root: usize,
}

impl View for Dom {
    type V = DomV;

    open(crate) spec fn view(&self) -> DomV {
        DomV { nodes: self.nodes@.map_values(|n: Node| n@), root: self.root }
    }
}

impl core::str::FromStr for Dom {
    type Err = DomError;

    /// Parse a document from markup text; see [`Dom::from_str`].
    fn from_str(s: &str) -> Result<Dom, DomError> {
        Dom::from_str(s)
    }
}

/// The arena invariant at one node: unique attribute keys, a `Text` node
/// never has children, and every child index points past its parent into the
/// arena and carries the matching parent back-reference.
pub open spec fn arena_wf_at(nodes: Seq<NodeDataV>, i: int) -> bool {
    &&& attrs_unique(nodes[i].attrs)
    &&& (nodes[i].node_type is Text ==> nodes[i].children.len() == 0)
    &&& forall|j: int|
        0 <= j < nodes[i].children.len() ==> i < (#[trigger] nodes[i].children[j]) as int
            && (nodes[i].children[j] as int) < nodes.len()
            && nodes[nodes[i].children[j] as int].parent == Some(i as usize)
}

/// The arena invariant everywhere.
pub open spec fn arena_wf(nodes: Seq<NodeDataV>) -> bool {
    forall|i: int| 0 <= i < nodes.len() ==> arena_wf_at(nodes, i)
}

/// The converse direction of the parent relation at one node: a present
/// parent back-reference points strictly backward to the node that
/// currently holds its bearer in its children sequence.
pub open spec fn parent_linked_at(nodes: Seq<NodeDataV>, i: int) -> bool {
    match nodes[i].parent {
        Some(p) => (p as int) < i && nodes[p as int].children.contains(i as usize),
        None => true,
    }
}

/// The converse direction of the parent relation everywhere.
pub open spec fn parents_linked(nodes: Seq<NodeDataV>) -> bool {
    forall|i: int| 0 <= i < nodes.len() ==> parent_linked_at(nodes, i)
}

/// The parent links inside a freshly built subtree region: every node past
/// `from` carries a parent at or past `from`, strictly before it, that
/// already lists it as a child.
pub open spec fn region_linked_at(nodes: Seq<NodeDataV>, from: int, k: int) -> bool {
    match nodes[k].parent {
        Some(p) => from <= (p as int) && (p as int) < k && nodes[p as int].children.contains(
            k as usize,
        ),
        None => false,
    }
}

/// A placeholder subtree, never reachable from a well-formed arena.
pub open spec fn empty_node_v() -> NodeV {
    NodeV { tag: Seq::empty(), attrs: Seq::empty(), body: BodyV::Text(Seq::empty()) }
}

/// The subtree rooted at arena index `i`, as one mathematical tree value.
/// Recursion is bounded because children stand strictly past their parent.
pub open spec fn subtree_at(nodes: Seq<NodeDataV>, i: int) -> NodeV
    decreases nodes.len() - i, 0int, 0int,
{
    if 0 <= i < nodes.len() {
        let n = nodes[i];
        NodeV {
            tag: n.tag,
            attrs: n.attrs,
            body: match n.node_type {
                NodeTypeV::Text(s) => BodyV::Text(s),
                NodeTypeV::Element => BodyV::Element(subtrees_at(nodes, n.children, i)),
            },
        }
    } else {
        empty_node_v()
    }
}

/// The subtrees rooted at each index of `kids`, all strictly past `lo`.
pub open spec fn subtrees_at(nodes: Seq<NodeDataV>, kids: Seq<usize>, lo: int) -> Seq<NodeV>
    decreases nodes.len() - lo - 1, 1int, kids.len(),
{
    if kids.len() == 0 || !(0 <= lo < nodes.len()) {
        Seq::empty()
    } else {
        let c = kids[0] as int;
        let head = if lo < c < nodes.len() {
            subtree_at(nodes, c)
        } else {
            empty_node_v()
        };
        seq![head] + subtrees_at(nodes, kids.drop_first(), lo)
    }
}

/// `subtrees_at` maps each child index to its subtree, position by position.
pub proof fn lemma_subtrees_elts(nodes: Seq<NodeDataV>, kids: Seq<usize>, lo: int)
    requires
        0 <= lo < nodes.len(),
    ensures
        subtrees_at(nodes, kids, lo).len() == kids.len(),
        forall|j: int|
            0 <= j < kids.len() ==> #[trigger] subtrees_at(nodes, kids, lo)[j] == (if lo < (
            kids[j] as int) < nodes.len() {
                subtree_at(nodes, kids[j] as int)
            } else {
                empty_node_v()
            }),
    decreases kids.len(),
{
    if kids.len() > 0 {
        lemma_subtrees_elts(nodes, kids.drop_first(), lo);
    }
}

/// The arena invariant at every node from `from` onward.
pub open spec fn arena_wf_from(nodes: Seq<NodeDataV>, from: int) -> bool {
    forall|i: int| from <= i < nodes.len() ==> arena_wf_at(nodes, i)
}

/// The subtrees rooted at each of the given indices.
pub open spec fn subtree_list(nodes: Seq<NodeDataV>, ids: Seq<usize>) -> Seq<NodeV> {
    ids.map_values(|c: usize| subtree_at(nodes, c as int))
}

/// Framing: a subtree is unchanged by edits strictly before its root and by
/// growth of the arena, as long as the nodes from the root onward are
/// unchanged and keep their children strictly past themselves.
pub proof fn lemma_subtree_frame(n1: Seq<NodeDataV>, n2: Seq<NodeDataV>, i: int)
    requires
        0 <= i < n1.len(),
        n1.len() <= n2.len(),
        forall|j: int| i <= j < n1.len() ==> n2[j] == n1[j] && arena_wf_at(n1, j),
    ensures
        subtree_at(n2, i) == subtree_at(n1, i),
    decreases n1.len() - i, 0int, 0int,
{
    assert(arena_wf_at(n1, i));
    lemma_subtrees_frame(n1, n2, n1[i].children, i);
}

/// Framing for a child list: see [`lemma_subtree_frame`].
pub proof fn lemma_subtrees_frame(n1: Seq<NodeDataV>, n2: Seq<NodeDataV>, kids: Seq<usize>, lo: int)
    requires
        0 <= lo < n1.len(),
        n1.len() <= n2.len(),
        forall|j: int| lo <= j < n1.len() ==> n2[j] == n1[j] && arena_wf_at(n1, j),
        forall|j: int| 0 <= j < kids.len() ==> lo < (#[trigger] kids[j] as int) < n1.len(),
    ensures
        subtrees_at(n2, kids, lo) == subtrees_at(n1, kids, lo),
    decreases n1.len() - lo - 1, 1int, kids.len(),
{
    if kids.len() > 0 {
        let c = kids[0] as int;
        lemma_subtree_frame(n1, n2, c);
        lemma_subtrees_frame(n1, n2, kids.drop_first(), lo);
    }
}

/// The first immediate child of `kids` whose attribute mapping binds `key`
/// to `value`.
pub open spec fn find_child(
    nodes: Seq<NodeDataV>,
    kids: Seq<usize>,
    key: Seq<char>,
    value: Seq<char>,
) -> Option<usize>
    decreases kids.len(),
{
    if kids.len() == 0 {
        None
    } else if (kids[0] as int) < nodes.len() && attr_lookup(nodes[kids[0] as int].attrs, key)
        == Some(value) {
        Some(kids[0])
    } else {
        find_child(nodes, kids.drop_first(), key, value)
    }
}

/// All immediate children of `kids` whose attribute mapping binds `key` to
/// `value`, in order.
pub open spec fn filter_children(
    nodes: Seq<NodeDataV>,
    kids: Seq<usize>,
    key: Seq<char>,
    value: Seq<char>,
) -> Seq<usize>
    decreases kids.len(),
{
    if kids.len() == 0 {
        Seq::empty()
    } else {
        let rest = filter_children(nodes, kids.drop_last(), key, value);
        let c = kids.last();
        if (c as int) < nodes.len() && attr_lookup(nodes[c as int].attrs, key) == Some(value) {
            rest.push(c)
        } else {
            rest
        }
    }
}

/// Attribute rendering: each pair as `key='value'`, concatenated in
/// insertion order with nothing between the pairs.
pub open spec fn attrs_render(attrs: Seq<(Seq<char>, Seq<char>)>) -> Seq<char>
    decreases attrs.len(),
{
    if attrs.len() == 0 {
        Seq::empty()
    } else {
        attrs_render(attrs.drop_last()) + attrs.last().0 + seq!['=', '\''] + attrs.last().1
            + seq!['\'']
    }
}

/// Serialization of one subtree.  A node with children renders as
/// `<tag>children</tag>` with its attributes dropped; a text node renders as
/// `<tag attrs>payload</tag>`; a childless element renders self-closed as
/// `<tag attrs/>`.
pub open spec fn spec_render(nv: NodeV) -> Seq<char>
    decreases nv, 0int,
{
    match nv.body {
        BodyV::Element(kids) => {
            if kids.len() > 0 {
                seq!['<'] + nv.tag + seq!['>'] + spec_render_seq(kids) + seq!['<', '/'] + nv.tag
                    + seq!['>']
            } else {
                seq!['<'] + nv.tag + seq![' '] + attrs_render(nv.attrs) + seq!['/', '>']
            }
        },
        BodyV::Text(t) => seq!['<'] + nv.tag + seq![' '] + attrs_render(nv.attrs) + seq!['>'] + t
            + seq!['<', '/'] + nv.tag + seq!['>'],
    }
}

/// Serialization of a sequence of subtrees, concatenated in order.
pub open spec fn spec_render_seq(kids: Seq<NodeV>) -> Seq<char>
    decreases kids, 1int,
{
    if kids.len() == 0 {
        Seq::empty()
    } else {
        spec_render_seq(kids.drop_last()) + spec_render(kids.last())
    }
}

/// The whole pipeline over a markup text: its complete token sequence, then
/// the parse of those tokens, as one value.
pub open spec fn spec_document(text: Seq<char>) -> Result<NodeV, DomErrV> {
    match spec_tokenize(text, 0, 0, 0, false) {
        Err(e) => Err(DomErrV::TokenizeError(e)),
        Ok(toks) => match spec_parse(toks, 0) {
            Err(e) => Err(DomErrV::ParseError(e)),
            Ok(pr) => Ok(pr.0),
        },
    }
}

impl Dom {
    /// The document invariant: the root index is in the arena, the arena
    /// invariant holds at every node, and every parent back-reference
    /// identifies the node that currently holds its bearer as a child.
    pub open spec fn wf(&self) -> bool {
        &&& arena_wf(self@.nodes)
        &&& parents_linked(self@.nodes)
        &&& (self@.root as int) < self@.nodes.len()
    }

    /// The tree rooted at this document's root, as one mathematical value.
    pub open spec fn tree(&self) -> NodeV {
        subtree_at(self@.nodes, self@.root as int)
    }

    /// A document holding the given node, detached from everything, as its
    /// root.
    pub fn new(root: Node) -> (d: Dom)
        requires
            root.wf(),
        ensures
            d.wf(),
            d@.root == 0,
            d@.nodes.len() == 1,
            d@.nodes[0] == (NodeDataV {
                children: Seq::empty(),
                parent: None::<usize>,
                ..root@
            }),
    {
        let entry = Node {
            tag_name: root.tag_name,
            node_type: root.node_type,
            children: Vec::new(),
            parent: None,
            attributes: root.attributes,
        };
        let mut nodes: Vec<Node> = Vec::new();
        nodes.push(entry);
        let d = Dom { nodes, root: 0 };
        proof {
            assert(d@.nodes[0].children =~= Seq::<usize>::empty());
            assert(d@.nodes[0].attrs == root@.attrs);
            assert(parent_linked_at(d@.nodes, 0));
        }
        d
    }

    /// Parse a document from markup text: lex the whole input, then parse
    /// the root tag.  On success the document's tree is exactly what
    /// [`spec_document`] prescribes for the text; on failure the same
    /// definition yields the error, and there is no partial tree.
    pub fn from_str(s: &str) -> (r: Result<Dom, DomError>)
        ensures
            match r {
                Ok(dom) => {
                    &&& dom.wf()
                    &&& dom@.nodes[dom@.root as int].parent is None
                    &&& spec_document(s@) == Ok::<NodeV, DomErrV>(dom.tree())
                },
                Err(e) => spec_document(s@) == Err::<NodeV, DomErrV>(e@),
            },
    {
        let mut tokenizer = Tokenizer::new(String::from_str(s));
        match tokenizer.tokenize() {
            Ok(()) => (),
            Err(e) => {
                return Err(DomError::TokenizeError(e));
            },
        };
        proof {
            assert(tokenizer@.tokens.skip(0) =~= tokenizer@.tokens);
        }
        let mut parser = Parser::new(tokenizer.tokens());
        match parser.parse() {
            Ok(tree) => Ok(tree),
            Err(e) => Err(DomError::ParseError(e)),
        }
    }

    /// A handle on the root node.
    pub fn root(&self) -> (r: Option<usize>)
        ensures
            r == Some(self@.root),
    {
        Some(self.root)
    }

    /// The node at the given arena index, if it is in range.
    pub fn node(&self, id: usize) -> (r: Option<&Node>)
        ensures
            match r {
                Some(n) => (id as int) < self@.nodes.len() && n@ == self@.nodes[id as int],
                None => (id as int) >= self@.nodes.len(),
            },
    {
        if id < self.nodes.len() {
            Some(&self.nodes[id])
        } else {
            None
        }
    }

    /// Append a detached node as the last child of `parent`.  A `Text`
    /// parent refuses with a blocked-append error and the tree is left
    /// entirely unchanged: no child is added and no parent link is set.
    pub fn append_element(&mut self, parent: usize, node: Node) -> (r: Result<(), DomError>)
        requires
            old(self).wf(),
            node.wf(),
            (parent as int) < old(self)@.nodes.len(),
        ensures
            final(self).wf(),
            final(self)@.root == old(self)@.root,
            match old(self)@.nodes[parent as int].node_type {
                NodeTypeV::Text(_) => r matches Err(DomError::BlockedAppend(m)) && m@
                    == "attempt to append element to a text element"@ && final(self)@ == old(
                    self,
                )@,
                NodeTypeV::Element => {
                    &&& r is Ok
                    &&& final(self)@.nodes == old(self)@.nodes.update(
                        parent as int,
                        (NodeDataV {
                            children: old(self)@.nodes[parent as int].children.push(
                                old(self)@.nodes.len() as usize,
                            ),
                            ..old(self)@.nodes[parent as int]
                        }),
                    ).push(
                        (NodeDataV {
                            children: Seq::empty(),
                            parent: Some(parent),
                            ..node@
                        }),
                    )
                },
            },
    {
        let is_text = match &self.nodes[parent].node_type {
            NodeType::Text(_) => true,
            NodeType::Element => false,
        };
        if is_text {
            return Err(
                DomError::BlockedAppend(
                    String::from_str("attempt to append element to a text element"),
                ),
            );
        }
        let ghost on = self@.nodes;
        let new_id = self.nodes.len();
        let entry = Node {
            tag_name: node.tag_name,
            node_type: node.node_type,
            children: Vec::new(),
            parent: Some(parent),
            attributes: node.attributes,
        };
        let ghost cv = entry@;
        self.nodes.push(entry);
        let mut pnode = self.nodes.remove(parent);
        pnode.children.push(new_id);
        let ghost pv = pnode@;
        self.nodes.insert(parent, pnode);
        proof {
            let nn = self@.nodes;
            let p = parent as int;
            let nid = new_id as int;
            assert(cv.children =~= Seq::<usize>::empty());
            assert(nn =~= on.update(p, pv).push(cv));
            assert(pv == (NodeDataV { children: on[p].children.push(new_id), ..on[p] }));
            assert forall|i: int| 0 <= i < nn.len() implies arena_wf_at(nn, i) by {
                if i == nid {
                    assert(attrs_unique(nn[i].attrs));
                    assert(nn[i].children.len() == 0);
                } else if i == p {
                    assert(arena_wf_at(on, p));
                    assert(nn[i].children == on[p].children.push(new_id));
                    assert forall|j: int| 0 <= j < nn[i].children.len() implies i < (
                    #[trigger] nn[i].children[j]) as int && (nn[i].children[j] as int) < nn.len()
                        && nn[nn[i].children[j] as int].parent == Some(i as usize) by {
                        if j < on[p].children.len() {
                            assert(nn[i].children[j] == on[p].children[j]);
                            assert((on[p].children[j] as int) != p);
                        } else {
                            assert(nn[i].children[j] == new_id);
                        }
                    }
                } else {
                    assert(arena_wf_at(on, i));
                    assert(nn[i] == on[i]);
                    assert forall|j: int| 0 <= j < nn[i].children.len() implies i < (
                    #[trigger] nn[i].children[j]) as int && (nn[i].children[j] as int) < nn.len()
                        && nn[nn[i].children[j] as int].parent == Some(i as usize) by {
                        let c = on[i].children[j] as int;
                        if c == p {
                            assert(nn[c].parent == on[c].parent);
                        } else {
                            assert(nn[c] == on[c]);
                        }
                    }
                }
            }
            assert forall|i: int| 0 <= i < nn.len() implies parent_linked_at(nn, i) by {
                if i == nid {
                    assert(nn[i].parent == Some(parent));
                    assert(nn[p].children[on[p].children.len() as int] == new_id);
                    assert(nn[p].children.contains(i as usize));
                } else {
                    assert(parent_linked_at(on, i));
                    assert(nn[i].parent == on[i].parent);
                    match on[i].parent {
                        Some(q) => {
                            assert(on[q as int].children.contains(i as usize));
                            let wi = choose|wi: int|
                                0 <= wi < on[q as int].children.len() && on[q as int].children[wi]
                                    == i as usize;
                            if (q as int) == p {
                                assert(nn[p].children[wi] == i as usize);
                            } else {
                                assert(nn[q as int].children == on[q as int].children);
                            }
                            assert(nn[q as int].children.contains(i as usize));
                        },
                        None => {},
                    }
                }
            }
        }
        Ok(())
    }

    /// Append text onto the payload of the node at `id`, in place; an
    /// `Element` node refuses with a blocked-append error and the tree is
    /// left unchanged.
    pub fn append_text(&mut self, id: usize, string: &str) -> (r: Result<(), DomError>)
        requires
            old(self).wf(),
            (id as int) < old(self)@.nodes.len(),
        ensures
            final(self).wf(),
            final(self)@.root == old(self)@.root,
            match old(self)@.nodes[id as int].node_type {
                NodeTypeV::Element => r matches Err(DomError::BlockedAppend(m)) && m@
                    == "attempt to append text on element node"@ && final(self)@ == old(self)@,
                NodeTypeV::Text(t) => r is Ok && final(self)@.nodes == old(self)@.nodes.update(
                    id as int,
                    (NodeDataV {
                        node_type: NodeTypeV::Text(t + string@),
                        ..old(self)@.nodes[id as int]
                    }),
                ),
            },
    {
        let ghost on = self@.nodes;
        let mut n = self.nodes.remove(id);
        let r = n.append_text(string);
        self.nodes.insert(id, n);
        proof {
            let nn = self@.nodes;
            let i0 = id as int;
            if old(self)@.nodes[i0].node_type is Element {
                assert(nn =~= on);
            } else {
                assert(nn =~= on.update(
                    i0,
                    (NodeDataV {
                        node_type: nn[i0].node_type,
                        ..on[i0]
                    }),
                ));
                assert forall|i: int| 0 <= i < nn.len() implies arena_wf_at(nn, i) by {
                    assert(arena_wf_at(on, i));
                    assert(nn[i].children == on[i].children);
                    assert forall|j: int| 0 <= j < nn[i].children.len() implies i < (
                    #[trigger] nn[i].children[j]) as int && (nn[i].children[j] as int) < nn.len()
                        && nn[nn[i].children[j] as int].parent == Some(i as usize) by {
                        let c = on[i].children[j] as int;
                        assert(nn[c].parent == on[c].parent);
                    }
                }
                assert forall|i: int| 0 <= i < nn.len() implies parent_linked_at(nn, i) by {
                    assert(parent_linked_at(on, i));
                    assert(nn[i].parent == on[i].parent);
                    match on[i].parent {
                        Some(q) => {
                            assert(nn[q as int].children == on[q as int].children);
                        },
                        None => {},
                    }
                }
            }
        }
        r
    }

    /// The first immediate child of `id` whose attribute mapping binds
    /// `key` to `value`.  Only immediate children are inspected: a matching
    /// grandchild is never returned.
    pub fn get_element_by_attribute(&self, id: usize, key: &str, value: &str) -> (r: Option<
        usize,
    >)
        requires
            self.wf(),
            (id as int) < self@.nodes.len(),
        ensures
            r == find_child(self@.nodes, self@.nodes[id as int].children, key@, value@),
    {
        let ghost nodes = self@.nodes;
        let ghost kids = self@.nodes[id as int].children;
        let n = self.nodes[id].children.len();
        let mut i: usize = 0;
        proof {
            assert(kids.skip(0) =~= kids);
        }
        while i < n
            invariant
                self.wf(),
                nodes == self@.nodes,
                kids == self@.nodes[id as int].children,
                (id as int) < nodes.len(),
                i <= n,
                n == kids.len(),
                find_child(nodes, kids, key@, value@) == find_child(
                    nodes,
                    kids.skip(i as int),
                    key@,
                    value@,
                ),
            decreases n - i,
        {
            let c = self.nodes[id].children[i];
            proof {
                assert(arena_wf_at(nodes, id as int));
                assert(kids.skip(i as int)[0] == kids[i as int]);
            }
            let matched = match self.nodes[c].get_attribute(key) {
                Some(v) => str_eq(v.as_str(), value),
                None => false,
            };
            if matched {
                return Some(c);
            }
            i = i + 1;
            proof {
                assert(kids.skip(i - 1).drop_first() =~= kids.skip(i as int));
            }
        }
        proof {
            assert(kids.skip(n as int) =~= Seq::<usize>::empty());
        }
        None
    }

    /// All immediate children of `id` whose attribute mapping binds `key`
    /// to `value`, in order.
    pub fn get_elements_by_attribute(&self, id: usize, key: &str, value: &str) -> (r: Vec<usize>)
        requires
            self.wf(),
            (id as int) < self@.nodes.len(),
        ensures
            r@ == filter_children(self@.nodes, self@.nodes[id as int].children, key@, value@),
    {
        let ghost nodes = self@.nodes;
        let ghost kids = self@.nodes[id as int].children;
        let n = self.nodes[id].children.len();
        let mut elements: Vec<usize> = Vec::new();
        let mut i: usize = 0;
        while i < n
            invariant
                self.wf(),
                nodes == self@.nodes,
                kids == self@.nodes[id as int].children,
                (id as int) < nodes.len(),
                i <= n,
                n == kids.len(),
                elements@ == filter_children(nodes, kids.subrange(0, i as int), key@, value@),
            decreases n - i,
        {
            let c = self.nodes[id].children[i];
            proof {
                assert(arena_wf_at(nodes, id as int));
                assert(kids.subrange(0, i + 1).drop_last() =~= kids.subrange(0, i as int));
                assert(kids.subrange(0, i + 1).last() == kids[i as int]);
            }
            let matched = match self.nodes[c].get_attribute(key) {
                Some(v) => str_eq(v.as_str(), value),
                None => false,
            };
            if matched {
                elements.push(c);
            }
            i = i + 1;
        }
        proof {
            assert(kids.subrange(0, n as int) =~= kids);
        }
        elements
    }

    /// Serialize the whole document: the rendering of the root's subtree.
    pub fn to_string(&self) -> (r: String)
        requires
            self.wf(),
        ensures
            r@ == spec_render(self.tree()),
    {
        self.render_node(self.root)
    }

    /// Serialize the subtree rooted at `id`.
    pub fn render_node(&self, id: usize) -> (r: String)
        requires
            self.wf(),
            (id as int) < self@.nodes.len(),
        ensures
            r@ == spec_render(subtree_at(self@.nodes, id as int)),
        decreases self@.nodes.len() - id,
    {
        let ghost nodes = self@.nodes;
        let ghost me = nodes[id as int];
        proof {
            assert(arena_wf_at(nodes, id as int));
        }
        let mut attribute_string = String::new();
        let na = self.nodes[id].attributes.len();
        let mut i: usize = 0;
        proof {
            assert(me.attrs.subrange(0, 0) =~= Seq::<(Seq<char>, Seq<char>)>::empty());
            assert(attribute_string@ =~= attrs_render(me.attrs.subrange(0, 0)));
        }
        while i < na
            invariant
                self.wf(),
                nodes == self@.nodes,
                me == nodes[id as int],
                (id as int) < nodes.len(),
                i <= na,
                na == me.attrs.len(),
                attribute_string@ == attrs_render(me.attrs.subrange(0, i as int)),
            decreases na - i,
        {
            attribute_string.append(self.nodes[id].attributes[i].0.as_str());
            attribute_string.append("='");
            attribute_string.append(self.nodes[id].attributes[i].1.as_str());
            attribute_string.append("'");
            i = i + 1;
            proof {
                reveal_strlit("='");
                reveal_strlit("'");
                assert("='"@ =~= seq!['=', '\'']);
                assert("'"@ =~= seq!['\'']);
                assert(me.attrs.subrange(0, i as int).drop_last() =~= me.attrs.subrange(
                    0,
                    i - 1,
                ));
                assert(me.attrs.subrange(0, i as int).last() == me.attrs[i - 1]);
                assert(attribute_string@ =~= attrs_render(me.attrs.subrange(0, i as int)));
            }
        }
        proof {
            assert(me.attrs.subrange(0, na as int) =~= me.attrs);
        }
        let n_children = self.nodes[id].children.len();
        let tag = self.nodes[id].tag_name.as_str();
        let mut s = String::new();
        if n_children > 0 {
            let ghost kidsv = subtrees_at(nodes, me.children, id as int);
            proof {
                assert(me.node_type is Element);
                lemma_subtrees_elts(nodes, me.children, id as int);
                assert(kidsv.subrange(0, 0) =~= Seq::<NodeV>::empty());
            }
            s.append("<");
            s.append(tag);
            s.append(">");
            proof {
                reveal_strlit("<");
                reveal_strlit(">");
                assert("<"@ =~= seq!['<']);
                assert(">"@ =~= seq!['>']);
                assert(s@ =~= seq!['<'] + me.tag + seq!['>'] + spec_render_seq(
                    kidsv.subrange(0, 0),
                ));
            }
            let mut i: usize = 0;
            while i < n_children
                invariant
                    self.wf(),
                    nodes == self@.nodes,
                    me == nodes[id as int],
                    (id as int) < nodes.len(),
                    i <= n_children,
                    n_children == me.children.len(),
                    kidsv == subtrees_at(nodes, me.children, id as int),
                    kidsv.len() == me.children.len(),
                    forall|j: int|
                        0 <= j < me.children.len() ==> #[trigger] kidsv[j] == subtree_at(
                            nodes,
                            me.children[j] as int,
                        ),
                    s@ == seq!['<'] + me.tag + seq!['>'] + spec_render_seq(
                        kidsv.subrange(0, i as int),
                    ),
                decreases n_children - i,
            {
                let c = self.nodes[id].children[i];
                proof {
                    assert(arena_wf_at(nodes, id as int));
                }
                let cs = self.render_node(c);
                s.append(cs.as_str());
                i = i + 1;
                proof {
                    assert(kidsv.subrange(0, i as int).drop_last() =~= kidsv.subrange(0, i - 1));
                    assert(kidsv.subrange(0, i as int).last() == kidsv[i - 1]);
                    assert(s@ =~= seq!['<'] + me.tag + seq!['>'] + spec_render_seq(
                        kidsv.subrange(0, i as int),
                    ));
                }
            }
            s.append("</");
            s.append(tag);
            s.append(">");
            proof {
                reveal_strlit("</");
                assert("</"@ =~= seq!['<', '/']);
                assert(kidsv.subrange(0, n_children as int) =~= kidsv);
                assert(s@ =~= spec_render(subtree_at(nodes, id as int)));
            }
        } else {
            match &self.nodes[id].node_type {
                NodeType::Text(txt) => {
                    s.append("<");
                    s.append(tag);
                    s.append(" ");
                    s.append(attribute_string.as_str());
                    s.append(">");
                    s.append(txt.as_str());
                    s.append("</");
                    s.append(tag);
                    s.append(">");
                    proof {
                        reveal_strlit("<");
                        reveal_strlit(">");
                        reveal_strlit(" ");
                        reveal_strlit("</");
                        assert("<"@ =~= seq!['<']);
                        assert(">"@ =~= seq!['>']);
                        assert(" "@ =~= seq![' ']);
                        assert("</"@ =~= seq!['<', '/']);
                        assert(s@ =~= spec_render(subtree_at(nodes, id as int)));
                    }
                },
                NodeType::Element => {
                    s.append("<");
                    s.append(tag);
                    s.append(" ");
                    s.append(attribute_string.as_str());
                    s.append("/>");
                    proof {
                        reveal_strlit("<");
                        reveal_strlit(" ");
                        reveal_strlit("/>");
                        assert("<"@ =~= seq!['<']);
                        assert(" "@ =~= seq![' ']);
                        assert("/>"@ =~= seq!['/', '>']);
                        assert(subtrees_at(nodes, me.children, id as int) =~= Seq::<
                            NodeV,
                        >::empty());
                        assert(s@ =~= spec_render(subtree_at(nodes, id as int)));
                    }
                },
            }
        }
        s
    }
}

} // verus!
