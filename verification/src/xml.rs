//! An element tree of plain values, read out of minidom, with the lookups that
//! the data-channel extraction makes on it.
use vstd::prelude::*;

use crate::text::string_of_str;

verus! {

/// A node of an element's content, as a mathematical value.
pub enum XmlNodeModel {
    Element(XmlTree),
    Text(Seq<char>),
}

/// An element as a mathematical value: its local name, its namespace and its
/// child nodes in document order.
pub struct XmlTree {
    pub name: Seq<char>,
    pub ns: Seq<char>,
    pub nodes: Seq<XmlNodeModel>,
}

/// A child node of an `XmlElement`: an element or a run of text.
pub enum XmlNode {
    Element(XmlElement),
    Text(String),
}

/// An XML element: local name, resolved namespace and child nodes.
pub struct XmlElement {
    pub name: String,
    pub ns: String,
    pub nodes: Vec<XmlNode>,
}

/// The error of an XML document that minidom refuses, with minidom's message.
pub struct XmlError {
    pub message: String,
}

pub open spec fn element_model(e: XmlElement) -> XmlTree
    decreases e, 1int,
{
    XmlTree {
        name: e.name@,
        ns: e.ns@,
        nodes: Seq::new(
            e.nodes@.len(),
            |i: int|
                if 0 <= i < e.nodes@.len() {
                    node_model(e.nodes@[i])
                } else {
                    XmlNodeModel::Text(Seq::empty())
                },
        ),
    }
}

pub open spec fn node_model(n: XmlNode) -> XmlNodeModel
    decreases n, 0int,
{
    match n {
        XmlNode::Element(e) => XmlNodeModel::Element(element_model(e)),
        XmlNode::Text(t) => XmlNodeModel::Text(t@),
    }
}

impl View for XmlElement {
    type V = XmlTree;

    open spec fn view(&self) -> XmlTree {
        element_model(*self)
    }
}

impl View for XmlNode {
    type V = XmlNodeModel;

    open spec fn view(&self) -> XmlNodeModel {
        node_model(*self)
    }
}

/// `true` when `t` has local name `name` and namespace `ns`.
pub open spec fn tree_is(t: XmlTree, name: Seq<char>, ns: Seq<char>) -> bool {
    t.name == name && t.ns == ns
}

/// `true` when node `n` is an element with local name `name` and namespace `ns`.
pub open spec fn node_is(n: XmlNodeModel, name: Seq<char>, ns: Seq<char>) -> bool {
    match n {
        XmlNodeModel::Element(t) => tree_is(t, name, ns),
        XmlNodeModel::Text(_) => false,
    }
}

/// The first element among `nodes` with local name `name` and namespace `ns`.
pub open spec fn first_child(nodes: Seq<XmlNodeModel>, name: Seq<char>, ns: Seq<char>) -> Option<
    XmlTree,
>
    decreases nodes.len(),
{
    if nodes.len() == 0 {
        None
    } else {
        match nodes[0] {
            XmlNodeModel::Element(t) => if tree_is(t, name, ns) {
                Some(t)
            } else {
                first_child(nodes.drop_first(), name, ns)
            },
            XmlNodeModel::Text(_) => first_child(nodes.drop_first(), name, ns),
        }
    }
}

/// The first child element of `t` with local name `name` and namespace `ns`.
pub open spec fn tree_child(t: XmlTree, name: Seq<char>, ns: Seq<char>) -> Option<XmlTree> {
    first_child(t.nodes, name, ns)
}

/// The text runs among `nodes`, joined in document order.
pub open spec fn joined_text(nodes: Seq<XmlNodeModel>) -> Seq<char>
    decreases nodes.len(),
{
    if nodes.len() == 0 {
        Seq::empty()
    } else {
        match nodes[0] {
            XmlNodeModel::Text(s) => s + joined_text(nodes.drop_first()),
            XmlNodeModel::Element(_) => joined_text(nodes.drop_first()),
        }
    }
}

/// The text that is a direct child of `t`: its text nodes joined, child elements skipped.
pub open spec fn tree_text(t: XmlTree) -> Seq<char> {
    joined_text(t.nodes)
}

/// The child elements among `nodes`, in document order.
pub open spec fn element_nodes(nodes: Seq<XmlNodeModel>) -> Seq<XmlTree>
    decreases nodes.len(),
{
    if nodes.len() == 0 {
        Seq::empty()
    } else {
        match nodes[0] {
            XmlNodeModel::Element(t) => seq![t] + element_nodes(nodes.drop_first()),
            XmlNodeModel::Text(_) => element_nodes(nodes.drop_first()),
        }
    }
}

/// The child elements of `t`, in document order.
pub open spec fn tree_children(t: XmlTree) -> Seq<XmlTree> {
    element_nodes(t.nodes)
}

proof fn lemma_first_child_step(nodes: Seq<XmlNodeModel>, i: int, name: Seq<char>, ns: Seq<char>)
    requires
        0 <= i < nodes.len(),
        !node_is(nodes[i], name, ns),
    ensures
        first_child(nodes.skip(i), name, ns) == first_child(nodes.skip(i + 1), name, ns),
{
    assert(nodes.skip(i).drop_first() =~= nodes.skip(i + 1));
}

proof fn lemma_joined_text_step(nodes: Seq<XmlNodeModel>, i: int)
    requires
        0 <= i < nodes.len(),
    ensures
        joined_text(nodes.take(i + 1)) == joined_text(nodes.take(i)) + match nodes[i] {
            XmlNodeModel::Text(s) => s,
            XmlNodeModel::Element(_) => Seq::empty(),
        },
    decreases i,
{
    if i == 0 {
        assert(nodes.take(1).drop_first() =~= Seq::<XmlNodeModel>::empty());
        assert(nodes.take(0) =~= Seq::<XmlNodeModel>::empty());
    } else {
        lemma_joined_text_step(nodes.drop_first(), i - 1);
        assert(nodes.take(i + 1).drop_first() =~= nodes.drop_first().take(i));
        assert(nodes.take(i).drop_first() =~= nodes.drop_first().take(i - 1));
        assert(nodes.take(i + 1)[0] == nodes[0]);
        assert(nodes.take(i)[0] == nodes[0]);
    }
}

proof fn lemma_element_nodes_step(nodes: Seq<XmlNodeModel>, i: int)
    requires
        0 <= i < nodes.len(),
    ensures
        element_nodes(nodes.take(i + 1)) == element_nodes(nodes.take(i)) + match nodes[i] {
            XmlNodeModel::Element(t) => seq![t],
            XmlNodeModel::Text(_) => Seq::empty(),
        },
    decreases i,
{
    if i == 0 {
        assert(nodes.take(1).drop_first() =~= Seq::<XmlNodeModel>::empty());
        assert(nodes.take(0) =~= Seq::<XmlNodeModel>::empty());
    } else {
        lemma_element_nodes_step(nodes.drop_first(), i - 1);
        assert(nodes.take(i + 1).drop_first() =~= nodes.drop_first().take(i));
        assert(nodes.take(i).drop_first() =~= nodes.drop_first().take(i - 1));
        assert(nodes.take(i + 1)[0] == nodes[0]);
        assert(nodes.take(i)[0] == nodes[0]);
        let a = element_nodes(nodes.drop_first().take(i - 1));
        match nodes[0] {
            XmlNodeModel::Element(t) => {
                assert(seq![t] + (a + match nodes[i] {
                    XmlNodeModel::Element(u) => seq![u],
                    XmlNodeModel::Text(_) => Seq::empty(),
                }) =~= (seq![t] + a) + match nodes[i] {
                    XmlNodeModel::Element(u) => seq![u],
                    XmlNodeModel::Text(_) => Seq::empty(),
                });
            },
            XmlNodeModel::Text(_) => {},
        }
    }
}

/// The first child found by name and namespace is an element of `nodes` with
/// that name and namespace, and no node before it has them; where none is
/// found, no node has them.
pub proof fn law_first_child(nodes: Seq<XmlNodeModel>, name: Seq<char>, ns: Seq<char>)
    ensures
        match first_child(nodes, name, ns) {
            Some(t) => exists|i: int|
                0 <= i < nodes.len() && nodes[i] == XmlNodeModel::Element(t) && tree_is(t, name, ns)
                    && forall|j: int| 0 <= j < i ==> !node_is(#[trigger] nodes[j], name, ns),
            None => forall|i: int| 0 <= i < nodes.len() ==> !node_is(#[trigger] nodes[i], name, ns),
        },
    decreases nodes.len(),
{
    if nodes.len() > 0 {
        let rest = nodes.drop_first();
        law_first_child(rest, name, ns);
        if node_is(nodes[0], name, ns) {
            assert(nodes[0] matches XmlNodeModel::Element(t) && first_child(nodes, name, ns) == Some(
                t,
            ));
        } else {
            match first_child(rest, name, ns) {
                Some(t) => {
                    let i = choose|i: int|
                        0 <= i < rest.len() && rest[i] == XmlNodeModel::Element(t) && tree_is(
                            t,
                            name,
                            ns,
                        ) && forall|j: int| 0 <= j < i ==> !node_is(#[trigger] rest[j], name, ns);
                    assert(nodes[i + 1] == rest[i]);
                    assert forall|j: int| 0 <= j < i + 1 implies !node_is(
                        #[trigger] nodes[j],
                        name,
                        ns,
                    ) by {
                        if j > 0 {
                            assert(nodes[j] == rest[j - 1]);
                        }
                    }
                },
                None => {
                    assert forall|i: int| 0 <= i < nodes.len() implies !node_is(
                        #[trigger] nodes[i],
                        name,
                        ns,
                    ) by {
                        if i > 0 {
                            assert(nodes[i] == rest[i - 1]);
                        }
                    }
                },
            }
        }
    }
}

/// The text of a run of nodes is the text of its first part followed by the
/// text of the rest; a text node gives its text and an element gives none.
pub proof fn law_joined_text(a: Seq<XmlNodeModel>, b: Seq<XmlNodeModel>)
    ensures
        joined_text(a + b) == joined_text(a) + joined_text(b),
        forall|s: Seq<char>| joined_text(seq![XmlNodeModel::Text(s)]) == s,
        forall|t: XmlTree| joined_text(seq![XmlNodeModel::Element(t)]) == Seq::<char>::empty(),
    decreases a.len(),
{
    assert(joined_text(Seq::<XmlNodeModel>::empty()) == Seq::<char>::empty());
    assert forall|s: Seq<char>| joined_text(seq![XmlNodeModel::Text(s)]) == s by {
        let q = seq![XmlNodeModel::Text(s)];
        assert(q[0] == XmlNodeModel::Text(s));
        assert(q.drop_first() =~= Seq::<XmlNodeModel>::empty());
        assert(s + Seq::<char>::empty() =~= s);
    }
    assert forall|t: XmlTree| joined_text(seq![XmlNodeModel::Element(t)]) == Seq::<char>::empty() by {
        let q = seq![XmlNodeModel::Element(t)];
        assert(q[0] == XmlNodeModel::Element(t));
        assert(q.drop_first() =~= Seq::<XmlNodeModel>::empty());
    }
    if a.len() == 0 {
        assert(a + b =~= b);
        assert(Seq::<char>::empty() + joined_text(b) =~= joined_text(b));
    } else {
        law_joined_text(a.drop_first(), b);
        assert((a + b).drop_first() =~= a.drop_first() + b);
        assert((a + b)[0] == a[0]);
        match a[0] {
            XmlNodeModel::Text(s) => {
                assert(s + (joined_text(a.drop_first()) + joined_text(b)) =~= (s + joined_text(
                    a.drop_first(),
                )) + joined_text(b));
            },
            XmlNodeModel::Element(_) => {},
        }
    }
}

impl XmlElement {
    /// The element's local name.
    pub fn name(&self) -> (r: &str)
        ensures
            r@ == self@.name,
    {
        self.name.as_str()
    }

    /// The element's namespace.
    pub fn ns(&self) -> (r: String)
        ensures
            r@ == self@.ns,
    {
        self.ns.clone()
    }

    /// Whether the element has local name `name` and namespace `ns`.
    pub fn is(&self, name: &str, ns: &str) -> (r: bool)
        ensures
            r == tree_is(self@, name@, ns@),
    {
        let name = string_of_str(name);
        let ns = string_of_str(ns);
        self.name == name && self.ns == ns
    }

    /// The first child element with local name `name` and namespace `ns`.
    pub fn get_child(&self, name: &str, ns: &str) -> (r: Option<&XmlElement>)
        ensures
            match tree_child(self@, name@, ns@) {
                Some(t) => r matches Some(c) && c@ == t,
                None => r is None,
            },
    {
        let want_name = string_of_str(name);
        let want_ns = string_of_str(ns);
        let ghost nodes = self@.nodes;
        let mut i: usize = 0;
        assert(nodes.skip(0) =~= nodes);
        while i < self.nodes.len()
            invariant
                i <= self.nodes@.len(),
                nodes == self@.nodes,
                nodes.len() == self.nodes@.len(),
                want_name@ == name@,
                want_ns@ == ns@,
                first_child(nodes.skip(i as int), name@, ns@) == tree_child(self@, name@, ns@),
            decreases self.nodes@.len() - i,
        {
            assert(nodes[i as int] == node_model(self.nodes@[i as int]));
            match &self.nodes[i] {
                XmlNode::Element(c) => {
                    if c.name == want_name && c.ns == want_ns {
                        assert(nodes.skip(i as int)[0] == nodes[i as int]);
                        return Some(c);
                    }
                },
                XmlNode::Text(_) => {},
            }
            proof {
                lemma_first_child_step(nodes, i as int, name@, ns@);
            }
            i = i + 1;
        }
        assert(nodes.skip(i as int) =~= Seq::<XmlNodeModel>::empty());
        None
    }

    /// The child elements, in document order.
    pub fn children(&self) -> (r: Vec<&XmlElement>)
        ensures
            r@.len() == tree_children(self@).len(),
            forall|k: int| 0 <= k < r@.len() ==> #[trigger] r@[k]@ == tree_children(self@)[k],
    {
        let ghost nodes = self@.nodes;
        let mut out: Vec<&XmlElement> = Vec::new();
        let mut i: usize = 0;
        assert(nodes.take(0) =~= Seq::<XmlNodeModel>::empty());
        while i < self.nodes.len()
            invariant
                i <= self.nodes@.len(),
                nodes == self@.nodes,
                nodes.len() == self.nodes@.len(),
                out@.len() == element_nodes(nodes.take(i as int)).len(),
                forall|k: int|
                    0 <= k < out@.len() ==> #[trigger] out@[k]@ == element_nodes(
                        nodes.take(i as int),
                    )[k],
            decreases self.nodes@.len() - i,
        {
            assert(nodes[i as int] == node_model(self.nodes@[i as int]));
            proof {
                lemma_element_nodes_step(nodes, i as int);
            }
            match &self.nodes[i] {
                XmlNode::Element(c) => {
                    out.push(c);
                },
                XmlNode::Text(_) => {},
            }
            i = i + 1;
        }
        assert(nodes.take(i as int) =~= nodes);
        out
    }

    /// The text that is a direct child of this element: its text nodes joined.
    pub fn text(&self) -> (r: String)
        ensures
            r@ == tree_text(self@),
    {
        let ghost nodes = self@.nodes;
        let mut out = String::new();
        let mut i: usize = 0;
        assert(nodes.take(0) =~= Seq::<XmlNodeModel>::empty());
        while i < self.nodes.len()
            invariant
                i <= self.nodes@.len(),
                nodes == self@.nodes,
                nodes.len() == self.nodes@.len(),
                out@ == joined_text(nodes.take(i as int)),
            decreases self.nodes@.len() - i,
        {
            assert(nodes[i as int] == node_model(self.nodes@[i as int]));
            proof {
                lemma_joined_text_step(nodes, i as int);
            }
            match &self.nodes[i] {
                XmlNode::Text(t) => {
                    out.append(t.as_str());
                },
                XmlNode::Element(_) => {
                    assert(out@ + Seq::<char>::empty() =~= out@);
                },
            }
            i = i + 1;
        }
        assert(nodes.take(i as int) =~= nodes);
        out
    }
}

#[verifier::external_type_specification]
#[verifier::external_body]
pub struct ExMinidomElement(minidom::Element);

/// The element tree that minidom builds from the document `text`, or the
/// message (the `Display` text of minidom's error) with which it refuses the
/// document.
pub uninterp spec fn minidom_document(text: Seq<char>) -> Result<XmlTree, Seq<char>>;

/// The name, namespace and child nodes that a minidom element holds.
pub uninterp spec fn minidom_tree(element: minidom::Element) -> XmlTree;

/// A child node of a minidom element, borrowed.
pub enum MinidomNode<'a> {
    Element(&'a minidom::Element),
    Text(&'a str),
}

/// `str::parse::<minidom::Element>` (minidom's `FromStr`, which reads the
/// document with `Element::from_reader`), its error turned into its `Display`
/// text. Claimed: the outcome is `minidom_document(text)`; on success the
/// element holds that tree.
#[verifier::external_body]
fn minidom_parse(text: &str) -> (r: Result<minidom::Element, String>)
    ensures
        match minidom_document(text@) {
            Ok(t) => r matches Ok(e) && minidom_tree(e) == t,
            Err(m) => r matches Err(x) && x@ == m,
        },
{
    text.parse::<minidom::Element>().map_err(|e| e.to_string())
}

/// `minidom::Element::name`, copied into a `String`. Claimed: the copy holds the
/// element's local name.
#[verifier::external_body]
fn minidom_name(e: &minidom::Element) -> (r: String)
    ensures
        r@ == minidom_tree(*e).name,
{
    e.name().to_string()
}

/// `minidom::Element::ns`. Claimed: it returns the element's namespace.
#[verifier::external_body]
fn minidom_ns(e: &minidom::Element) -> (r: String)
    ensures
        r@ == minidom_tree(*e).ns,
{
    e.ns()
}

/// `minidom::Element::nodes`, collected with each `minidom::Node` told apart
/// into an element or a text. Claimed: the nodes come out in the element's own
/// order, each as the element or text that it is.
#[verifier::external_body]
fn minidom_nodes(e: &minidom::Element) -> (r: Vec<MinidomNode<'_>>)
    ensures
        r@.len() == minidom_tree(*e).nodes.len(),
        forall|i: int|
            0 <= i < r@.len() ==> match (#[trigger] r@[i], minidom_tree(*e).nodes[i]) {
                (MinidomNode::Element(c), XmlNodeModel::Element(t)) => minidom_tree(*c) == t,
                (MinidomNode::Text(s), XmlNodeModel::Text(t)) => s@ == t,
                _ => false,
            },
{
    e.nodes().map(
        |n| match n {
            minidom::Node::Element(c) => MinidomNode::Element(c),
            minidom::Node::Text(t) => MinidomNode::Text(t.as_str()),
        },
    ).collect()
}

/// A copy, as plain values, of the tree that the minidom element `e` holds.
fn copy_element(e: &minidom::Element) -> (r: XmlElement)
    ensures
        r@ == minidom_tree(*e),
    decreases minidom_tree(*e),
{
    let ghost t = minidom_tree(*e);
    let name = minidom_name(e);
    let ns = minidom_ns(e);
    let parts = minidom_nodes(e);
    let mut nodes: Vec<XmlNode> = Vec::new();
    let mut i: usize = 0;
    while i < parts.len()
        invariant
            t == minidom_tree(*e),
            i <= parts@.len(),
            parts@.len() == t.nodes.len(),
            forall|j: int|
                0 <= j < parts@.len() ==> match (#[trigger] parts@[j], t.nodes[j]) {
                    (MinidomNode::Element(c), XmlNodeModel::Element(u)) => minidom_tree(*c) == u,
                    (MinidomNode::Text(s), XmlNodeModel::Text(u)) => s@ == u,
                    _ => false,
                },
            nodes@.len() == i,
            forall|j: int| 0 <= j < i ==> #[trigger] node_model(nodes@[j]) == t.nodes[j],
        decreases parts@.len() - i,
    {
        let ghost pj = parts@[i as int];
        assert(match (pj, t.nodes[i as int]) {
            (MinidomNode::Element(c), XmlNodeModel::Element(u)) => minidom_tree(*c) == u,
            (MinidomNode::Text(s), XmlNodeModel::Text(u)) => s@ == u,
            _ => false,
        });
        match parts[i] {
            MinidomNode::Element(c) => {
                proof {
                    assert(decreases_to!(t => t.nodes));
                    assert(decreases_to!(t.nodes => t.nodes[i as int]));
                }
                let child = copy_element(c);
                nodes.push(XmlNode::Element(child));
            },
            MinidomNode::Text(s) => {
                nodes.push(XmlNode::Text(string_of_str(s)));
            },
        }
        i = i + 1;
    }
    let r = XmlElement { name, ns, nodes };
    assert(r@.nodes.len() == t.nodes.len());
    assert forall|j: int| 0 <= j < t.nodes.len() implies r@.nodes[j] == t.nodes[j] by {
        assert(r@.nodes[j] == node_model(r.nodes@[j]));
    }
    assert(r@.nodes =~= t.nodes);
    r
}

/// Reads the XML document `text` with minidom into an element tree of plain values.
/// It fails exactly where minidom refuses the document, with minidom's message.
pub fn parse_xml(text: &str) -> (r: Result<XmlElement, XmlError>)
    ensures
        match minidom_document(text@) {
            Ok(t) => r matches Ok(root) && root@ == t,
            Err(m) => r matches Err(e) && e.message@ == m,
        },
{
    match minidom_parse(text) {
        Ok(root) => Ok(copy_element(&root)),
        Err(message) => Err(XmlError { message }),
    }
}

} // verus!
