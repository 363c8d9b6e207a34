//! The node model: the tree's single entity type.  A node is either an
//! `Element` (it may own children) or `Text` (it carries a payload), never
//! both.  Nodes live in an arena owned by [`crate::dom::Dom`] and refer to
//! each other by stable index, so the parent back-reference is a plain
//! optional index that never extends a lifetime.

use vstd::prelude::*;

use crate::dom::DomError;

verus! {

broadcast use vstd::seq::group_seq_axioms, vstd::seq_lib::group_seq_lib_default;

/// The node variant: free text with its payload, or an element.
#[derive(Debug)]
pub enum NodeType {
    Text(String),
    Element,
}

/// The mathematical image of a [`NodeType`].
pub enum NodeTypeV {
    Text(Seq<char>),
    Element,
}

impl View for NodeType {
    type V = NodeTypeV;

    open spec fn view(&self) -> NodeTypeV {
        match self {
            NodeType::Text(s) => NodeTypeV::Text(s@),
            NodeType::Element => NodeTypeV::Element,
        }
    }
}

/// One node of the tree: its tag name, its variant, the arena indices of its
/// children, an optional arena index of its parent, and its attributes as an
/// insertion-ordered mapping with unique keys.
#[derive(Debug)]
pub struct Node {
    pub tag_name: String,
    pub node_type: NodeType,
    pub(crate) children: Vec<usize>,
    pub(crate) parent: Option<usize>,
    pub(crate) attributes: Vec<(String, String)>,
}

/// The mathematical image of a [`Node`].
pub struct NodeDataV {
    pub tag: Seq<char>,
    pub node_type: NodeTypeV,
    pub children: Seq<usize>,
    pub parent: Option<usize>,
    pub attrs: Seq<(Seq<char>, Seq<char>)>,
}

/// The view of an attribute list.
pub open spec fn attrs_view(attrs: Seq<(String, String)>) -> Seq<(Seq<char>, Seq<char>)> {
    attrs.map_values(|p: (String, String)| (p.0@, p.1@))
}

impl View for Node {
    type V = NodeDataV;

    open(crate) spec fn view(&self) -> NodeDataV {
        NodeDataV {
            tag: self.tag_name@,
            node_type: self.node_type@,
            children: self.children@,
            parent: self.parent,
            attrs: attrs_view(self.attributes@),
        }
    }
}

/// The view of a whole node list.
pub open(crate) spec fn nodes_view(ns: Seq<Node>) -> Seq<NodeDataV> {
    ns.map_values(|n: Node| n@)
}

/// A whole subtree seen as one mathematical value: text content or child
/// subtrees, in order.
pub enum BodyV {
    Text(Seq<char>),
    Element(Seq<NodeV>),
}

/// One node of the mathematical tree.
pub struct NodeV {
    pub tag: Seq<char>,
    pub attrs: Seq<(Seq<char>, Seq<char>)>,
    pub body: BodyV,
}

/// The value bound to `key`: that of the first pair carrying it.  With
/// unique keys this is the mapping's lookup.
pub open spec fn attr_lookup(attrs: Seq<(Seq<char>, Seq<char>)>, key: Seq<char>) -> Option<
    Seq<char>,
>
    decreases attrs.len(),
{
    if attrs.len() == 0 {
        None
    } else if attrs[0].0 == key {
        Some(attrs[0].1)
    } else {
        attr_lookup(attrs.drop_first(), key)
    }
}

/// Insertion into the attribute mapping: an existing key keeps its position
/// and has its value overwritten (last write wins); a new key is appended.
pub open spec fn attrs_insert(
    attrs: Seq<(Seq<char>, Seq<char>)>,
    key: Seq<char>,
    value: Seq<char>,
) -> Seq<(Seq<char>, Seq<char>)>
    decreases attrs.len(),
{
    if attrs.len() == 0 {
        seq![(key, value)]
    } else if attrs[0].0 == key {
        seq![(key, value)] + attrs.drop_first()
    } else {
        seq![attrs[0]] + attrs_insert(attrs.drop_first(), key, value)
    }
}

/// Attribute keys are unique per node.
pub open spec fn attrs_unique(attrs: Seq<(Seq<char>, Seq<char>)>) -> bool {
    forall|i: int, j: int| 0 <= i < j < attrs.len() ==> attrs[i].0 != attrs[j].0
}

/// Where the first pair carrying `key` stands (if anywhere), `attrs_insert`
/// is an update at that position; otherwise it is a push.
pub(crate) proof fn lemma_attrs_insert_at(
    attrs: Seq<(Seq<char>, Seq<char>)>,
    key: Seq<char>,
    value: Seq<char>,
    j: int,
)
    requires
        0 <= j <= attrs.len(),
        forall|i: int| 0 <= i < j ==> attrs[i].0 != key,
    ensures
        j < attrs.len() && attrs[j].0 == key ==> attrs_insert(attrs, key, value) == attrs.update(
            j,
            (key, value),
        ),
        (forall|i: int| 0 <= i < attrs.len() ==> attrs[i].0 != key) ==> attrs_insert(
            attrs,
            key,
            value,
        ) == attrs.push((key, value)),
    decreases attrs.len(),
{
    if attrs.len() == 0 {
        assert(attrs_insert(attrs, key, value) =~= attrs.push((key, value)));
    } else if attrs[0].0 == key {
        assert(j == 0);
        assert(attrs_insert(attrs, key, value) =~= attrs.update(0, (key, value)));
    } else {
        let rest = attrs.drop_first();
        lemma_attrs_insert_at(rest, key, value, if j == 0 { 0 } else { j - 1 });
        if j < attrs.len() && attrs[j].0 == key {
            assert(rest[j - 1] == attrs[j]);
            assert(seq![attrs[0]] + rest.update(j - 1, (key, value)) =~= attrs.update(
                j,
                (key, value),
            ));
        }
        if forall|i: int| 0 <= i < attrs.len() ==> attrs[i].0 != key {
            assert(forall|i: int| 0 <= i < rest.len() ==> rest[i] == attrs[i + 1]);
            assert(seq![attrs[0]] + rest.push((key, value)) =~= attrs.push((key, value)));
        }
    }
}

/// Insert a pair into an attribute list, overwriting the value of an
/// existing key in place, keeping keys unique.
pub(crate) fn insert_attr(attrs: &mut Vec<(String, String)>, key: String, value: String)
    requires
        attrs_unique(attrs_view(old(attrs)@)),
    ensures
        attrs_view(final(attrs)@) == attrs_insert(attrs_view(old(attrs)@), key@, value@),
        attrs_unique(attrs_view(final(attrs)@)),
{
    let ghost va = attrs_view(old(attrs)@);
    let n = attrs.len();
    let mut j: usize = 0;
    while j < n
        invariant
            j <= n,
            n == attrs@.len(),
            attrs@ == old(attrs)@,
            va == attrs_view(attrs@),
            attrs_unique(va),
            forall|i: int| 0 <= i < j ==> va[i].0 != key@,
        decreases n - j,
    {
        if attrs[j].0 == key {
            proof {
                lemma_attrs_insert_at(va, key@, value@, j as int);
            }
            let ghost widx = j as int;
            attrs[j] = (key, value);
            proof {
                assert(attrs_view(attrs@) =~= va.update(widx, (va[widx].0, attrs@[widx].1@)));
                assert(attrs_view(attrs@) == attrs_insert(va, va[widx].0, attrs@[widx].1@));
                assert forall|a: int, b: int|
                    0 <= a < b < attrs_view(attrs@).len() implies attrs_view(attrs@)[a].0
                    != attrs_view(attrs@)[b].0 by {
                    assert(va[a].0 != va[b].0);
                }
            }
            return ;
        }
        j = j + 1;
    }
    proof {
        lemma_attrs_insert_at(va, key@, value@, n as int);
    }
    let ghost kv = (key@, value@);
    attrs.push((key, value));
    proof {
        assert(attrs_view(attrs@) =~= va.push(kv));
        assert forall|a: int, b: int|
            0 <= a < b < attrs_view(attrs@).len() implies attrs_view(attrs@)[a].0 != attrs_view(
            attrs@,
        )[b].0 by {
            if b < va.len() {
                assert(va[a].0 != va[b].0);
            } else {
                assert(va[a].0 != kv.0);
            }
        }
    }
}

impl Node {
    /// A node's own invariant: its attribute keys are unique.
    pub open spec fn wf(&self) -> bool {
        attrs_unique(self@.attrs)
    }

    /// A bare node: the given tag name, an empty text payload, no
    /// attributes, no parent, no children.  Callers (or the parser) fill in
    /// the real variant and attributes afterward.
    pub fn new(tag_name: String) -> (n: Node)
        ensures
            n@ == (NodeDataV {
                tag: tag_name@,
                node_type: NodeTypeV::Text(Seq::empty()),
                children: Seq::empty(),
                parent: None::<usize>,
                attrs: Seq::empty(),
            }),
            n.wf(),
    {
        let n = Node {
            tag_name,
            node_type: NodeType::Text(String::new()),
            children: Vec::new(),
            parent: None,
            attributes: Vec::new(),
        };
        proof {
            assert(n@.children =~= Seq::<usize>::empty());
            assert(n@.attrs =~= Seq::<(Seq<char>, Seq<char>)>::empty());
        }
        n
    }

    /// The arena indices of this node's children, in order.
    pub fn children(&self) -> (r: &Vec<usize>)
        ensures
            r@ == self@.children,
    {
        &self.children
    }

    /// The arena index of the owning parent, for upward lookup only.
    pub fn parent(&self) -> (r: Option<usize>)
        ensures
            r == self@.parent,
    {
        self.parent
    }

    /// The value bound to `key` in this node's attribute mapping.
    pub fn get_attribute(&self, key: &str) -> (r: Option<&String>)
        ensures
            match r {
                Some(v) => attr_lookup(self@.attrs, key@) == Some(v@),
                None => attr_lookup(self@.attrs, key@) is None,
            },
    {
        let n = self.attributes.len();
        let mut i: usize = 0;
        proof {
            assert(self@.attrs.skip(0) =~= self@.attrs);
        }
        while i < n
            invariant
                i <= n,
                n == self@.attrs.len(),
                attr_lookup(self@.attrs, key@) == attr_lookup(
                    self@.attrs.skip(i as int),
                    key@,
                ),
            decreases n - i,
        {
            if str_eq(self.attributes[i].0.as_str(), key) {
                proof {
                    assert(self@.attrs.skip(i as int)[0] == self@.attrs[i as int]);
                }
                return Some(&self.attributes[i].1);
            }
            i = i + 1;
            proof {
                assert(self@.attrs.skip(i - 1).drop_first() =~= self@.attrs.skip(i as int));
                assert(self@.attrs.skip(i - 1)[0] == self@.attrs[i - 1]);
            }
        }
        proof {
            assert(self@.attrs.skip(n as int) =~= Seq::<(Seq<char>, Seq<char>)>::empty());
        }
        None
    }

    /// Bind `key` to `value` in this node's attribute mapping; an existing
    /// key is overwritten in place (last write wins).
    pub fn set_attribute(&mut self, key: String, value: String)
        requires
            old(self).wf(),
        ensures
            final(self).wf(),
            final(self)@ == (NodeDataV {
                attrs: attrs_insert(old(self)@.attrs, key@, value@),
                ..old(self)@
            }),
    {
        insert_attr(&mut self.attributes, key, value);
    }

    /// Append text onto this node's payload, in place.  An `Element` node
    /// refuses with a blocked-append error and is left unchanged.
    pub fn append_text(&mut self, string: &str) -> (r: Result<(), DomError>)
        ensures
            match old(self)@.node_type {
                NodeTypeV::Element => r matches Err(DomError::BlockedAppend(m)) && m@
                    == "attempt to append text on element node"@ && final(self)@ == old(self)@,
                NodeTypeV::Text(t) => r is Ok && final(self)@ == (NodeDataV {
                    node_type: NodeTypeV::Text(t + string@),
                    ..old(self)@
                }),
            },
            old(self).wf() ==> final(self).wf(),
    {
        match &self.node_type {
            NodeType::Element => Err(
                DomError::BlockedAppend(
                    String::from_str("attempt to append text on element node"),
                ),
            ),
            NodeType::Text(t) => {
                let mut s2 = t.clone();
                s2.append(string);
                self.node_type = NodeType::Text(s2);
                Ok(())
            },
        }
    }
}

/// Whether two string slices hold the same characters.
pub(crate) fn str_eq(a: &str, b: &str) -> (r: bool)
    ensures
        r == (a@ == b@),
{
    let na = a.unicode_len();
    let nb = b.unicode_len();
    if na != nb {
        return false;
    }
    let mut i: usize = 0;
    while i < na
        invariant
            i <= na,
            na == a@.len(),
            na == b@.len(),
            forall|j: int| 0 <= j < i ==> a@[j] == b@[j],
        decreases na - i,
    {
        if a.get_char(i) != b.get_char(i) {
            return false;
        }
        i = i + 1;
    }
    proof {
        assert(a@ =~= b@);
    }
    true
}

} // verus!
