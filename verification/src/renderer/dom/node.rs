//! The document tree: element kinds, nodes, and the window that owns them.
//!
//! A [`Window`] owns every node of its document in one vector; a node is
//! named by its index there ([`NodeId`]), and the links between nodes
//! (parent, children, siblings) are such indices. Only the window owns
//! nodes, so the links never keep anything alive and dropping the window
//! drops the tree. [`tree_wf`] states what holds of the links at rest.

use crate::error::Error;
use crate::renderer::html::attribute::{attribute_views, duplicate_attributes, Attribute,
    AttributeView};
use crate::text::{push_char, str_eq};
use vstd::prelude::*;

verus! {

/// The name of a node within its window.
pub type NodeId = usize;

/// The elements that the engine knows.
#[derive(Debug, Clone, Copy, PartialEq, Eq, Structural)]
pub enum ElementKind {
    Html,
    Head,
    Style,
    Script,
    Body,
    P,
    H1,
    H2,
    A,
}

/// The message of the error for a tag name that the engine does not know.
pub open spec fn unknown_element_message(name: Seq<char>) -> Seq<char> {
    "unknown element name "@ + name
}

impl ElementKind {
    /// The tag name of the element.
    pub open spec fn name(self) -> Seq<char> {
        match self {
            ElementKind::Html => "html"@,
            ElementKind::Head => "head"@,
            ElementKind::Style => "style"@,
            ElementKind::Script => "script"@,
            ElementKind::Body => "body"@,
            ElementKind::P => "p"@,
            ElementKind::H1 => "h1"@,
            ElementKind::H2 => "h2"@,
            ElementKind::A => "a"@,
        }
    }

    /// The element with the tag name `s`, if the engine knows one.
    pub open spec fn spec_from_name(s: Seq<char>) -> Option<ElementKind> {
        if s == "html"@ {
            Some(ElementKind::Html)
        } else if s == "head"@ {
            Some(ElementKind::Head)
        } else if s == "style"@ {
            Some(ElementKind::Style)
        } else if s == "script"@ {
            Some(ElementKind::Script)
        } else if s == "body"@ {
            Some(ElementKind::Body)
        } else if s == "p"@ {
            Some(ElementKind::P)
        } else if s == "h1"@ {
            Some(ElementKind::H1)
        } else if s == "h2"@ {
            Some(ElementKind::H2)
        } else if s == "a"@ {
            Some(ElementKind::A)
        } else {
            None
        }
    }

    /// `body`, `h1`, `h2` and `p` are laid out as blocks.
    pub open spec fn spec_is_block(self) -> bool {
        self == ElementKind::Body || self == ElementKind::H1 || self == ElementKind::H2 || self
            == ElementKind::P
    }

    /// The element with the tag name `s`. A name that the engine does not
    /// know is refused with `UnexpectedInput`.
    pub fn from_str(s: &str) -> (r: Result<ElementKind, Error>)
        ensures
            ElementKind::spec_from_name(s@) matches Some(k) ==> r == Ok::<ElementKind, Error>(k),
            ElementKind::spec_from_name(s@) is None ==> r is Err && r->Err_0 is UnexpectedInput
                && r->Err_0.message() == unknown_element_message(s@),
    {
        if str_eq(s, "html") {
            Ok(ElementKind::Html)
        } else if str_eq(s, "head") {
            Ok(ElementKind::Head)
        } else if str_eq(s, "style") {
            Ok(ElementKind::Style)
        } else if str_eq(s, "script") {
            Ok(ElementKind::Script)
        } else if str_eq(s, "body") {
            Ok(ElementKind::Body)
        } else if str_eq(s, "p") {
            Ok(ElementKind::P)
        } else if str_eq(s, "h1") {
            Ok(ElementKind::H1)
        } else if str_eq(s, "h2") {
            Ok(ElementKind::H2)
        } else if str_eq(s, "a") {
            Ok(ElementKind::A)
        } else {
            let mut message = String::from_str("unknown element name ");
            message.append(s);
            Err(Error::UnexpectedInput(message))
        }
    }
}

/// The tag name of every element names that element.
pub proof fn lemma_name_round_trip(k: ElementKind)
    ensures
        ElementKind::spec_from_name(k.name()) == Some(k),
{
    reveal_strlit("html");
    reveal_strlit("head");
    reveal_strlit("style");
    reveal_strlit("script");
    reveal_strlit("body");
    reveal_strlit("p");
    reveal_strlit("h1");
    reveal_strlit("h2");
    reveal_strlit("a");
    assert("html"@.len() == 4 && "html"@[1] == 't');
    assert("head"@.len() == 4 && "head"@[1] == 'e');
    assert("body"@.len() == 4 && "body"@[1] == 'o');
    assert("style"@.len() == 5);
    assert("script"@.len() == 6);
    assert("p"@.len() == 1 && "p"@[0] == 'p');
    assert("a"@.len() == 1 && "a"@[0] == 'a');
    assert("h1"@.len() == 2 && "h1"@[1] == '1');
    assert("h2"@.len() == 2 && "h2"@[1] == '2');
}

/// An element: its kind and its attributes.
#[derive(Debug, Clone, PartialEq, Eq)]
pub struct Element {
    kind: ElementKind,
    attributes: Vec<Attribute>,
}

/// What an element stands for.
pub struct ElementView {
    pub kind: ElementKind,
    pub attributes: Seq<AttributeView>,
}

impl View for Element {
    type V = ElementView;

    closed spec fn view(&self) -> ElementView {
        ElementView { kind: self.kind, attributes: attribute_views(self.attributes@) }
    }
}

impl Element {
    /// The element named `element_name` with the given attributes. A name
    /// that the engine does not know is refused with `UnexpectedInput`.
    pub fn new(element_name: &str, attributes: Vec<Attribute>) -> (r: Result<Element, Error>)
        ensures
            ElementKind::spec_from_name(element_name@) matches Some(k) ==> r is Ok && r->Ok_0@
                == (ElementView { kind: k, attributes: attribute_views(attributes@) }),
            ElementKind::spec_from_name(element_name@) is None ==> r is Err && r->Err_0
                is UnexpectedInput && r->Err_0.message() == unknown_element_message(
                element_name@,
            ),
    {
        match ElementKind::from_str(element_name) {
            Ok(kind) => Ok(Element { kind, attributes }),
            Err(e) => Err(e),
        }
    }

    /// The element of the given kind with the given attributes.
    pub fn of_kind(kind: ElementKind, attributes: Vec<Attribute>) -> (e: Element)
        ensures
            e@ == (ElementView { kind, attributes: attribute_views(attributes@) }),
    {
        Element { kind, attributes }
    }

    /// The kind of the element.
    pub fn kind(&self) -> (k: ElementKind)
        ensures
            k == self@.kind,
    {
        self.kind
    }

    /// A copy of the attributes.
    pub fn attributes(&self) -> (a: Vec<Attribute>)
        ensures
            attribute_views(a@) == self@.attributes,
    {
        duplicate_attributes(&self.attributes)
    }

    /// Whether the element is laid out as a block.
    pub fn is_block_element(&self) -> (b: bool)
        ensures
            b == self@.kind.spec_is_block(),
    {
        match self.kind {
            ElementKind::Body | ElementKind::H1 | ElementKind::H2 | ElementKind::P => true,
            _ => false,
        }
    }

    /// A copy of the element.
    pub fn duplicate(&self) -> (e: Element)
        ensures
            e@ == self@,
    {
        Element { kind: self.kind, attributes: duplicate_attributes(&self.attributes) }
    }
}

/// What a node is: the document, an element, or text.
#[derive(Debug, Clone)]
pub enum NodeKind {
    Document,
    Element(Element),
    Text(String),
}

/// What a node kind stands for.
pub enum NodeKindView {
    Document,
    Element(ElementView),
    Text(Seq<char>),
}

impl View for NodeKind {
    type V = NodeKindView;

    open spec fn view(&self) -> NodeKindView {
        match self {
            NodeKind::Document => NodeKindView::Document,
            NodeKind::Element(e) => NodeKindView::Element(e@),
            NodeKind::Text(s) => NodeKindView::Text(s@),
        }
    }
}

impl NodeKindView {
    /// The kind of the element, if this is one.
    pub open spec fn element_kind(self) -> Option<ElementKind> {
        match self {
            NodeKindView::Element(e) => Some(e.kind),
            _ => None,
        }
    }

    /// Two kinds have the same shape: both are the document, both are text,
    /// or both are elements of one kind. Attributes and text are not
    /// compared.
    pub open spec fn same_shape(self, other: NodeKindView) -> bool {
        match (self, other) {
            (NodeKindView::Document, NodeKindView::Document) => true,
            (NodeKindView::Element(a), NodeKindView::Element(b)) => a.kind == b.kind,
            (NodeKindView::Text(_), NodeKindView::Text(_)) => true,
            _ => false,
        }
    }
}

impl PartialEq for NodeKind {
    /// Equality of shape: see [`NodeKindView::same_shape`].
    fn eq(&self, other: &NodeKind) -> (r: bool) {
        match self {
            NodeKind::Document => match other {
                NodeKind::Document => true,
                _ => false,
            },
            NodeKind::Element(a) => match other {
                NodeKind::Element(b) => a.kind() == b.kind(),
                _ => false,
            },
            NodeKind::Text(_) => match other {
                NodeKind::Text(_) => true,
                _ => false,
            },
        }
    }
}

impl vstd::std_specs::cmp::PartialEqSpecImpl for NodeKind {
    open spec fn obeys_eq_spec() -> bool {
        true
    }

    open spec fn eq_spec(&self, other: &NodeKind) -> bool {
        self@.same_shape(other@)
    }
}

impl NodeKind {
    /// A copy of the kind.
    pub fn duplicate(&self) -> (k: NodeKind)
        ensures
            k@ == self@,
    {
        match self {
            NodeKind::Document => NodeKind::Document,
            NodeKind::Element(e) => NodeKind::Element(e.duplicate()),
            NodeKind::Text(s) => NodeKind::Text(s.clone()),
        }
    }
}

/// A node: its kind and its links to other nodes of the same window.
#[derive(Debug, Clone)]
pub struct Node {
    pub kind: NodeKind,
    parent: Option<NodeId>,
    first_child: Option<NodeId>,
    last_child: Option<NodeId>,
    previous_sibling: Option<NodeId>,
    next_sibling: Option<NodeId>,
}

/// What a node stands for.
pub struct NodeView {
    pub kind: NodeKindView,
    pub parent: Option<NodeId>,
    pub first_child: Option<NodeId>,
    pub last_child: Option<NodeId>,
    pub previous_sibling: Option<NodeId>,
    pub next_sibling: Option<NodeId>,
}

impl NodeView {
    /// A node of the given kind without links.
    pub open spec fn unlinked(kind: NodeKindView) -> NodeView {
        NodeView {
            kind,
            parent: None,
            first_child: None,
            last_child: None,
            previous_sibling: None,
            next_sibling: None,
        }
    }
}

impl View for Node {
    type V = NodeView;

    closed spec fn view(&self) -> NodeView {
        NodeView {
            kind: self.kind@,
            parent: self.parent,
            first_child: self.first_child,
            last_child: self.last_child,
            previous_sibling: self.previous_sibling,
            next_sibling: self.next_sibling,
        }
    }
}

impl Node {
    /// A node of the given kind without links.
    pub fn new(kind: NodeKind) -> (n: Node)
        ensures
            n@ == NodeView::unlinked(kind@),
    {
        Node {
            kind,
            parent: None,
            first_child: None,
            last_child: None,
            previous_sibling: None,
            next_sibling: None,
        }
    }

    /// Sets the link to the parent and leaves the rest of the node alone.
    pub fn set_parent(&mut self, parent: Option<NodeId>)
        ensures
            final(self)@ == (NodeView { parent, ..old(self)@ }),
    {
        self.parent = parent;
    }

    /// The parent, if the node has one.
    pub fn parent(&self) -> (p: Option<NodeId>)
        ensures
            p == self@.parent,
    {
        self.parent
    }

    /// Sets the link to the first child and leaves the rest of the node alone.
    pub fn set_first_child(&mut self, first_child: Option<NodeId>)
        ensures
            final(self)@ == (NodeView { first_child, ..old(self)@ }),
    {
        self.first_child = first_child;
    }

    /// The first child, if the node has children.
    pub fn first_child(&self) -> (c: Option<NodeId>)
        ensures
            c == self@.first_child,
    {
        self.first_child
    }

    /// Sets the link to the last child and leaves the rest of the node alone.
    pub fn set_last_child(&mut self, last_child: Option<NodeId>)
        ensures
            final(self)@ == (NodeView { last_child, ..old(self)@ }),
    {
        self.last_child = last_child;
    }

    /// The last child, if the node has children.
    pub fn last_child(&self) -> (c: Option<NodeId>)
        ensures
            c == self@.last_child,
    {
        self.last_child
    }

    /// Sets the link to the previous sibling and leaves the rest of the node alone.
    pub fn set_previous_sibling(&mut self, previous_sibling: Option<NodeId>)
        ensures
            final(self)@ == (NodeView { previous_sibling, ..old(self)@ }),
    {
        self.previous_sibling = previous_sibling;
    }

    /// The sibling before the node, if there is one.
    pub fn previous_sibling(&self) -> (s: Option<NodeId>)
        ensures
            s == self@.previous_sibling,
    {
        self.previous_sibling
    }

    /// Sets the link to the next sibling and leaves the rest of the node alone.
    pub fn set_next_sibling(&mut self, next_sibling: Option<NodeId>)
        ensures
            final(self)@ == (NodeView { next_sibling, ..old(self)@ }),
    {
        self.next_sibling = next_sibling;
    }

    /// The sibling behind the node, if there is one.
    pub fn next_sibling(&self) -> (s: Option<NodeId>)
        ensures
            s == self@.next_sibling,
    {
        self.next_sibling
    }

    /// A copy of the kind.
    pub fn kind(&self) -> (k: NodeKind)
        ensures
            k@ == self@.kind,
    {
        self.kind.duplicate()
    }

    /// The kind, taken out of the node.
    pub fn into_kind(self) -> (k: NodeKind)
        ensures
            k@ == self@.kind,
    {
        self.kind
    }

    /// Whether the node is a text.
    pub fn is_text(&self) -> (b: bool)
        ensures
            b == (self@.kind is Text),
    {
        match &self.kind {
            NodeKind::Text(_) => true,
            _ => false,
        }
    }

    /// A copy of the text, if the node is one.
    pub fn get_text(&self) -> (t: Option<String>)
        ensures
            match self@.kind {
                NodeKindView::Text(s) => t is Some && t->0@ == s,
                _ => t is None,
            },
    {
        match &self.kind {
            NodeKind::Text(s) => Some(s.clone()),
            _ => None,
        }
    }

    /// A copy of the element, if the node is one.
    pub fn get_element(&self) -> (e: Option<Element>)
        ensures
            match self@.kind {
                NodeKindView::Element(v) => e is Some && e->0@ == v,
                _ => e is None,
            },
    {
        match &self.kind {
            NodeKind::Element(e) => Some(e.duplicate()),
            _ => None,
        }
    }

    /// The kind of the element, if the node is one.
    pub fn get_element_kind(&self) -> (k: Option<ElementKind>)
        ensures
            k == self@.kind.element_kind(),
    {
        match &self.kind {
            NodeKind::Element(e) => Some(e.kind()),
            _ => None,
        }
    }
}

/// What holds of the links of node `i` at rest.
///
/// A node other than the root is no document and has a parent that was made
/// before it. A next sibling was made later, has the same parent and points
/// back; a previous sibling was made earlier, has the same parent and
/// points forward. The first child has no previous sibling, the last child
/// no next one, and both name this node as their parent. There is a first
/// child exactly when there is a last one. A node without a previous
/// sibling is the first child of its parent, and one without a next
/// sibling the last.
pub open spec fn links_wf(w: Seq<NodeView>, i: int) -> bool {
    let n = w[i];
    &&& i > 0 ==> !(n.kind is Document) && n.parent is Some && n.parent->0 < i
    &&& n.next_sibling is Some ==> {
        let j = n.next_sibling->0;
        i < j < w.len() && w[j as int].parent == n.parent && w[j as int].previous_sibling == Some(
            i as usize,
        )
    }
    &&& n.previous_sibling is Some ==> {
        let j = n.previous_sibling->0;
        j < i && w[j as int].parent == n.parent && w[j as int].next_sibling == Some(i as usize)
    }
    &&& n.first_child is Some ==> {
        let c = n.first_child->0;
        i < c < w.len() && w[c as int].parent == Some(i as usize) && w[c as int].previous_sibling
            is None
    }
    &&& n.last_child is Some ==> {
        let c = n.last_child->0;
        i < c < w.len() && w[c as int].parent == Some(i as usize) && w[c as int].next_sibling
            is None
    }
    &&& n.first_child is None <==> n.last_child is None
    &&& i > 0 && n.previous_sibling is None ==> w[n.parent->0 as int].first_child == Some(
        i as usize,
    )
    &&& i > 0 && n.next_sibling is None ==> w[n.parent->0 as int].last_child == Some(i as usize)
}

/// The invariant of a document tree: node 0 is the document and has no
/// parent and no siblings, and the links of every node are as
/// [`links_wf`] says.
pub open spec fn tree_wf(w: Seq<NodeView>) -> bool {
    &&& 1 <= w.len() <= usize::MAX
    &&& w[0].kind is Document
    &&& w[0].parent is None
    &&& w[0].previous_sibling is None
    &&& w[0].next_sibling is None
    &&& forall|i: int| 0 <= i < w.len() ==> #[trigger] links_wf(w, i)
}

/// The tree with a new node of the given kind appended as the last child of
/// `parent`. The new node gets the next free index.
pub open spec fn with_child(w: Seq<NodeView>, parent: NodeId, kind: NodeKindView) -> Seq<
    NodeView,
> {
    let id = w.len() as usize;
    let p = w[parent as int];
    let child = NodeView {
        kind,
        parent: Some(parent),
        first_child: None,
        last_child: None,
        previous_sibling: p.last_child,
        next_sibling: None,
    };
    let linked = match p.last_child {
        Some(last) => w.update(
            last as int,
            NodeView { next_sibling: Some(id), ..w[last as int] },
        ),
        None => w,
    };
    linked.update(
        parent as int,
        NodeView {
            first_child: if p.first_child is None {
                Some(id)
            } else {
                p.first_child
            },
            last_child: Some(id),
            ..linked[parent as int]
        },
    ).push(child)
}

/// The tree with `c` appended to the text of node `id`; unchanged if that
/// node is no text.
pub open spec fn with_text_char(w: Seq<NodeView>, id: NodeId, c: char) -> Seq<NodeView> {
    match w[id as int].kind {
        NodeKindView::Text(s) => w.update(
            id as int,
            NodeView { kind: NodeKindView::Text(s.push(c)), ..w[id as int] },
        ),
        _ => w,
    }
}

/// What appending a child changes: the new node stands at the end; the
/// parent gets it as last child, and as first child if it had none; the
/// last child so far gets it as next sibling; every other node, and every
/// other link of these two, stays as it was.
pub proof fn lemma_with_child_changes(w: Seq<NodeView>, parent: NodeId, kind: NodeKindView)
    requires
        tree_wf(w),
        parent < w.len(),
    ensures
        ({
            let r = with_child(w, parent, kind);
            let id = w.len() as usize;
            let p = w[parent as int];
            &&& r.len() == w.len() + 1
            &&& r[id as int] == (NodeView {
                kind,
                parent: Some(parent),
                first_child: None,
                last_child: None,
                previous_sibling: p.last_child,
                next_sibling: None,
            })
            &&& r[parent as int] == (NodeView {
                first_child: if p.first_child is None {
                    Some(id)
                } else {
                    p.first_child
                },
                last_child: Some(id),
                ..p
            })
            &&& p.last_child matches Some(last) ==> last != parent && r[last as int] == (NodeView {
                next_sibling: Some(id),
                ..w[last as int]
            })
            &&& forall|i: int|
                0 <= i < w.len() && i != parent && p.last_child != Some(i as usize) ==> r[i]
                    == w[i]
        }),
{
    assert(links_wf(w, parent as int));
}

/// Appending a child keeps the invariant of the tree.
pub proof fn lemma_with_child_wf(w: Seq<NodeView>, parent: NodeId, kind: NodeKindView)
    requires
        tree_wf(w),
        parent < w.len(),
        w.len() < usize::MAX,
        !(kind is Document),
    ensures
        tree_wf(with_child(w, parent, kind)),
{
    let r = with_child(w, parent, kind);
    let id = w.len() as usize;
    let p = w[parent as int];
    lemma_with_child_changes(w, parent, kind);
    assert(links_wf(w, parent as int));
    if p.last_child is Some {
        assert(links_wf(w, p.last_child->0 as int));
    }
    assert forall|i: int| 0 <= i < r.len() implies #[trigger] links_wf(r, i) by {
        if i == id {
            // The new node: last child of `parent`, behind the last child so far.
        } else if i == parent {
            // The parent: its children so far are older than the new node.
        } else if p.last_child == Some(i as usize) {
            // The last child so far: it now has the new node behind it.
        } else {
            // Any other node keeps its links, and what it links to keeps the
            // links that point back.
            assert(links_wf(w, i));
            if w[i].parent is Some {
                assert(links_wf(w, w[i].parent->0 as int));
            }
        }
    }
}

/// Appending to a text keeps the invariant of the tree.
pub proof fn lemma_with_text_char_wf(w: Seq<NodeView>, id: NodeId, c: char)
    requires
        tree_wf(w),
        id < w.len(),
    ensures
        tree_wf(with_text_char(w, id, c)),
{
    let r = with_text_char(w, id, c);
    assert(links_wf(w, id as int));
    assert forall|i: int| 0 <= i < r.len() implies #[trigger] links_wf(r, i) by {
        assert(links_wf(w, i));
    }
}

/// The views of a sequence of nodes, in order.
pub open spec fn node_views(nodes: Seq<Node>) -> Seq<NodeView> {
    Seq::new(nodes.len(), |i: int| nodes[i]@)
}

/// A window: the owner of the nodes of one document.
///
/// Node 0 is the document. A window is made by [`Window::new`] and grows by
/// [`Window::append_child`]; both keep [`tree_wf`].
#[derive(Debug, Clone)]
pub struct Window {
    nodes: Vec<Node>,
}

impl View for Window {
    type V = Seq<NodeView>;

    closed spec fn view(&self) -> Seq<NodeView> {
        node_views(self.nodes@)
    }
}

impl Window {
    /// A window that holds an empty document.
    pub fn new() -> (w: Window)
        ensures
            w@ == seq![NodeView::unlinked(NodeKindView::Document)],
            tree_wf(w@),
    {
        let mut nodes: Vec<Node> = Vec::new();
        nodes.push(Node::new(NodeKind::Document));
        let w = Window { nodes };
        assert(w@ =~= seq![NodeView::unlinked(NodeKindView::Document)]);
        assert(links_wf(w@, 0));
        w
    }

    /// The root of the tree, which is the document node.
    pub fn document(&self) -> (id: NodeId)
        ensures
            id == 0,
            tree_wf(self@) ==> self@[id as int].kind is Document,
    {
        0
    }

    /// How many nodes the window holds.
    pub fn len(&self) -> (n: usize)
        ensures
            n == self@.len(),
    {
        self.nodes.len()
    }

    /// The node named `id`.
    pub fn node(&self, id: NodeId) -> (n: &Node)
        requires
            id < self@.len(),
        ensures
            n@ == self@[id as int],
    {
        &self.nodes[id]
    }

    /// The node named `id`, if there is one.
    pub fn get(&self, id: NodeId) -> (n: Option<&Node>)
        ensures
            id < self@.len() ==> n is Some && n->0@ == self@[id as int],
            id >= self@.len() ==> n is None,
    {
        if id < self.nodes.len() {
            Some(&self.nodes[id])
        } else {
            None
        }
    }

    /// The children of `parent`, in order.
    pub fn children(&self, parent: NodeId) -> (ids: Vec<NodeId>)
        requires
            tree_wf(self@),
            parent < self@.len(),
        ensures
            ids@ == children(self@, parent),
    {
        let mut ids: Vec<NodeId> = Vec::new();
        proof {
            assert(links_wf(self@, parent as int));
        }
        let mut next = self.nodes[parent].first_child();
        assert(ids@ + siblings_after(self@, next) =~= children(self@, parent));
        while next.is_some()
            invariant
                tree_wf(self@),
                next matches Some(n) ==> n < self@.len(),
                ids@ + siblings_after(self@, next) == children(self@, parent),
            decreases
                    (match next {
                        Some(n) => self@.len() - n,
                        None => 0,
                    }),
        {
            let n = next.unwrap();
            let ghost before = ids@;
            proof {
                assert(links_wf(self@, n as int));
            }
            ids.push(n);
            next = self.nodes[n].next_sibling();
            assert(ids@ + siblings_after(self@, next) =~= before + siblings_from(self@, n));
        }
        assert(ids@ + Seq::<NodeId>::empty() =~= ids@);
        ids
    }

    /// Appends a node of the given kind as the last child of `parent`, and
    /// returns its name.
    ///
    /// If `parent` has children already, the chain of siblings is walked from
    /// the first child to its end, and the new node is linked behind the
    /// last one.
    pub fn append_child(&mut self, parent: NodeId, kind: NodeKind) -> (id: NodeId)
        requires
            tree_wf(old(self)@),
            parent < old(self)@.len(),
            !(kind@ is Document),
        ensures
            id == old(self)@.len(),
            final(self)@ == with_child(old(self)@, parent, kind@),
            tree_wf(final(self)@),
    {
        let ghost w = self@;
        let id = self.nodes.len();
        let mut node = Node::new(kind);
        node.set_parent(Some(parent));
        proof {
            assert(links_wf(w, parent as int));
        }
        match self.nodes[parent].first_child() {
            Some(first) => {
                let mut last = first;
                loop
                    invariant
                        w == self@,
                        tree_wf(w),
                        last < self.nodes.len(),
                        w[last as int].parent == Some(parent),
                    ensures
                        w[last as int].next_sibling is None,
                    decreases self.nodes.len() - last,
                {
                    proof {
                        assert(links_wf(w, last as int));
                    }
                    match self.nodes[last].next_sibling() {
                        Some(next) => {
                            last = next;
                        },
                        None => {
                            break ;
                        },
                    }
                }
                proof {
                    assert(links_wf(w, last as int));
                }
                self.nodes[last].set_next_sibling(Some(id));
                node.set_previous_sibling(Some(last));
            },
            None => {
                self.nodes[parent].set_first_child(Some(id));
            },
        }
        self.nodes[parent].set_last_child(Some(id));
        self.nodes.push(node);
        proof {
            assert(self.nodes.len() == w.len() + 1);
            assert(self@ =~= with_child(w, parent, kind@));
            lemma_with_child_wf(w, parent, kind@);
        }
        id
    }

    /// Appends `c` to the text of node `id`; does nothing if that node is no
    /// text.
    pub fn append_text_char(&mut self, id: NodeId, c: char)
        requires
            tree_wf(old(self)@),
            id < old(self)@.len(),
        ensures
            final(self)@ == with_text_char(old(self)@, id, c),
            tree_wf(final(self)@),
    {
        let ghost w = self@;
        match &mut self.nodes[id].kind {
            NodeKind::Text(s) => {
                push_char(s, c);
            },
            _ => {},
        }
        proof {
            assert(self@ =~= with_text_char(w, id, c));
            lemma_with_text_char_wf(w, id, c);
        }
    }
}

/// The node `start` and the siblings behind it, in order.
pub open spec fn siblings_from(w: Seq<NodeView>, start: NodeId) -> Seq<NodeId>
    decreases w.len() - start,
{
    if start >= w.len() {
        Seq::empty()
    } else {
        match w[start as int].next_sibling {
            Some(next) => if start < next < w.len() {
                seq![start] + siblings_from(w, next)
            } else {
                seq![start]
            },
            None => seq![start],
        }
    }
}

/// The node `start`, if there is one, and the siblings behind it.
pub open spec fn siblings_after(w: Seq<NodeView>, start: Option<NodeId>) -> Seq<NodeId> {
    match start {
        Some(first) => siblings_from(w, first),
        None => Seq::empty(),
    }
}

/// The children of node `parent`, in order: its first child and the
/// siblings behind it.
pub open spec fn children(w: Seq<NodeView>, parent: NodeId) -> Seq<NodeId> {
    siblings_after(w, w[parent as int].first_child)
}

/// `a` is the parent of `n`, or the parent of its parent, and so on.
pub open spec fn is_ancestor(w: Seq<NodeView>, a: NodeId, n: NodeId) -> bool
    decreases n,
{
    match w[n as int].parent {
        Some(p) => p < n && (p == a || is_ancestor(w, a, p)),
        None => false,
    }
}

/// A chain of siblings starts with the node it is taken from.
pub proof fn lemma_siblings_head(w: Seq<NodeView>, start: NodeId)
    requires
        start < w.len(),
    ensures
        siblings_from(w, start).len() > 0,
        siblings_from(w, start)[0] == start,
{
}

/// A chain of siblings is strictly increasing, and each of its members but
/// the last is followed by its next sibling.
pub proof fn lemma_siblings_from(w: Seq<NodeView>, start: NodeId, k: int)
    requires
        tree_wf(w),
        start < w.len(),
        0 <= k < siblings_from(w, start).len(),
    ensures
        siblings_from(w, start)[0] == start,
        start + k <= siblings_from(w, start)[k] < w.len(),
        k > 0 ==> siblings_from(w, start)[k - 1] < siblings_from(w, start)[k],
        w[siblings_from(w, start)[k] as int].next_sibling matches Some(next) ==> k + 1
            < siblings_from(w, start).len() && siblings_from(w, start)[k + 1] == next,
        w[siblings_from(w, start)[k] as int].next_sibling is None ==> k + 1 == siblings_from(
            w,
            start,
        ).len(),
    decreases k,
{
    assert(links_wf(w, start as int));
    match w[start as int].next_sibling {
        Some(next) => {
            assert(siblings_from(w, start) =~= seq![start] + siblings_from(w, next));
            assert(links_wf(w, next as int));
            lemma_siblings_head(w, next);
            if k > 0 {
                lemma_siblings_from(w, next, k - 1);
                if k > 1 {
                    assert(siblings_from(w, start)[k - 1] == siblings_from(w, next)[k - 2]);
                }
            }
        },
        None => {
            assert(siblings_from(w, start) =~= seq![start]);
        },
    }
}

/// No node occurs twice in a chain of siblings.
pub proof fn lemma_siblings_are_distinct(w: Seq<NodeView>, start: NodeId, j: int, k: int)
    requires
        tree_wf(w),
        start < w.len(),
        0 <= j < k < siblings_from(w, start).len(),
    ensures
        siblings_from(w, start)[j] < siblings_from(w, start)[k],
    decreases k - j,
{
    lemma_siblings_from(w, start, k);
    if j < k - 1 {
        lemma_siblings_are_distinct(w, start, j, k - 1);
    }
}

/// Every node but the root is among the children of its parent.
pub proof fn lemma_child_is_listed(w: Seq<NodeView>, n: NodeId) -> (k: int)
    requires
        tree_wf(w),
        0 < n < w.len(),
    ensures
        0 <= k < children(w, w[n as int].parent->0).len(),
        children(w, w[n as int].parent->0)[k] == n,
    decreases n,
{
    assert(links_wf(w, n as int));
    let p = w[n as int].parent->0;
    assert(links_wf(w, p as int));
    match w[n as int].previous_sibling {
        None => {
            assert(w[p as int].first_child == Some(n));
            lemma_siblings_head(w, n);
            0
        },
        Some(s) => {
            assert(links_wf(w, s as int));
            let j = lemma_child_is_listed(w, s);
            let first = w[p as int].first_child->0;
            assert(links_wf(w, first as int));
            lemma_siblings_from(w, first, j);
            j + 1
        },
    }
}

/// The tree is well formed: every node but the root occurs exactly once
/// among the children of its parent, the previous sibling of a node is
/// followed by that node, and no node is its own ancestor.
pub proof fn lemma_tree_is_well_formed(w: Seq<NodeView>, n: NodeId)
    requires
        tree_wf(w),
        0 < n < w.len(),
    ensures
        w[n as int].parent is Some,
        exists|k: int|
            0 <= k < children(w, w[n as int].parent->0).len() && #[trigger] children(
                w,
                w[n as int].parent->0,
            )[k] == n,
        forall|j: int, k: int|
            0 <= j < children(w, w[n as int].parent->0).len() && 0 <= k < children(
                w,
                w[n as int].parent->0,
            ).len() && #[trigger] children(w, w[n as int].parent->0)[j] == n && #[trigger] children(
                w,
                w[n as int].parent->0,
            )[k] == n ==> j == k,
        w[n as int].previous_sibling matches Some(s) ==> s < w.len() && w[s as int].next_sibling
            == Some(n),
        !is_ancestor(w, n, n),
{
    assert(links_wf(w, n as int));
    let p = w[n as int].parent->0;
    assert(links_wf(w, p as int));
    let ch = children(w, p);
    let found = lemma_child_is_listed(w, n);
    assert(ch[found] == n);
    assert forall|j: int, k: int|
        0 <= j < ch.len() && 0 <= k < ch.len() && ch[j] == n && ch[k] == n implies j == k by {
        let first = w[p as int].first_child->0;
        assert(links_wf(w, first as int));
        if j < k {
            lemma_siblings_are_distinct(w, first, j, k);
        } else if k < j {
            lemma_siblings_are_distinct(w, first, k, j);
        }
    }
    lemma_ancestor_is_older(w, n, n);
}

/// An ancestor of a node was made before the node.
pub proof fn lemma_ancestor_is_older(w: Seq<NodeView>, a: NodeId, n: NodeId)
    ensures
        is_ancestor(w, a, n) ==> a < n,
    decreases n,
{
    match w[n as int].parent {
        Some(p) => {
            if p < n && p != a {
                lemma_ancestor_is_older(w, a, p);
            }
        },
        None => {},
    }
}

/// Every node but the root is below the root.
pub proof fn lemma_root_is_ancestor_of_all(w: Seq<NodeView>, n: NodeId)
    requires
        tree_wf(w),
        0 < n < w.len(),
    ensures
        is_ancestor(w, 0, n),
    decreases n,
{
    assert(links_wf(w, n as int));
    let p = w[n as int].parent->0;
    if p != 0 {
        lemma_root_is_ancestor_of_all(w, p);
    }
}

/// The root is the only document: node 0 is the document node, and no
/// other node is one.
pub proof fn lemma_document_is_the_root(w: Seq<NodeView>, n: NodeId)
    requires
        tree_wf(w),
        n < w.len(),
    ensures
        w[n as int].kind is Document <==> n == 0,
{
    assert(links_wf(w, n as int));
}

} // verus!
