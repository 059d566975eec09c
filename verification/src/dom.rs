//! The document model: names, attributes and the node tree of a parsed HTML page.
use vstd::prelude::*;
use crate::text::same_text;

verus! {

/// The namespace of an element or attribute name.
pub enum Namespace {
    /// No namespace (the empty URL), as on ordinary HTML attributes.
    Empty,
    /// `http://www.w3.org/1999/xhtml`
    Html,
    /// `http://www.w3.org/1998/Math/MathML`
    MathMl,
    /// `http://www.w3.org/2000/svg`
    Svg,
    /// `http://www.w3.org/XML/1998/namespace`
    Xml,
    /// `http://www.w3.org/2000/xmlns/`
    XmlNs,
    /// `http://www.w3.org/1999/xlink`
    XLink,
    /// Any other namespace, by its URL.
    Other(String),
}

/// A namespace-qualified local name.
pub struct QualName {
    pub ns: Namespace,
    pub local: String,
}

/// One attribute of an element.
pub struct Attribute {
    pub name: QualName,
    pub value: String,
}

/// A node of a parsed HTML document.
pub enum HtmlNode {
    /// The document itself, with its top-level nodes.
    Document(Vec<HtmlNode>),
    /// A document fragment.
    Fragment(Vec<HtmlNode>),
    /// A `<!DOCTYPE name>` node.
    Doctype(String),
    /// An element with its attributes and its children.
    Element { name: QualName, attrs: Vec<Attribute>, children: Vec<HtmlNode> },
    /// A run of text.
    Text(String),
    /// A comment.
    Comment(String),
    /// A processing instruction: target and data.
    ProcessingInstruction(String, String),
}

/// The URL of each known namespace.
pub open spec fn known_url(ns: Namespace) -> Seq<char> {
    match ns {
        Namespace::Empty => ""@,
        Namespace::Html => "http://www.w3.org/1999/xhtml"@,
        Namespace::MathMl => "http://www.w3.org/1998/Math/MathML"@,
        Namespace::Svg => "http://www.w3.org/2000/svg"@,
        Namespace::Xml => "http://www.w3.org/XML/1998/namespace"@,
        Namespace::XmlNs => "http://www.w3.org/2000/xmlns/"@,
        Namespace::XLink => "http://www.w3.org/1999/xlink"@,
        Namespace::Other(url) => url@,
    }
}

/// Whether `url` is the URL of one of the namespaces with a variant of their own.
pub open spec fn is_known_url(url: Seq<char>) -> bool {
    ||| url == ""@
    ||| url == "http://www.w3.org/1999/xhtml"@
    ||| url == "http://www.w3.org/1998/Math/MathML"@
    ||| url == "http://www.w3.org/2000/svg"@
    ||| url == "http://www.w3.org/XML/1998/namespace"@
    ||| url == "http://www.w3.org/2000/xmlns/"@
    ||| url == "http://www.w3.org/1999/xlink"@
}

/// `ns` is the namespace that `url` names: the variant of its own when it has one,
/// else `Other` holding the URL.
pub open spec fn names_url(ns: Namespace, url: Seq<char>) -> bool {
    &&& known_url(ns) == url
    &&& (ns is Other <==> !is_known_url(url))
}

impl Namespace {
    /// The namespace that a URL names.
    pub fn from_url(url: &str) -> (ns: Namespace)
        ensures
            names_url(ns, url@),
    {
        if same_text(url, "") {
            Namespace::Empty
        } else if same_text(url, "http://www.w3.org/1999/xhtml") {
            Namespace::Html
        } else if same_text(url, "http://www.w3.org/1998/Math/MathML") {
            Namespace::MathMl
        } else if same_text(url, "http://www.w3.org/2000/svg") {
            Namespace::Svg
        } else if same_text(url, "http://www.w3.org/XML/1998/namespace") {
            Namespace::Xml
        } else if same_text(url, "http://www.w3.org/2000/xmlns/") {
            Namespace::XmlNs
        } else if same_text(url, "http://www.w3.org/1999/xlink") {
            Namespace::XLink
        } else {
            Namespace::Other(url.to_owned())
        }
    }

    /// A copy of this namespace.
    pub fn copy(&self) -> (ns: Namespace)
        ensures
            ns == *self,
    {
        match self {
            Namespace::Empty => Namespace::Empty,
            Namespace::Html => Namespace::Html,
            Namespace::MathMl => Namespace::MathMl,
            Namespace::Svg => Namespace::Svg,
            Namespace::Xml => Namespace::Xml,
            Namespace::XmlNs => Namespace::XmlNs,
            Namespace::XLink => Namespace::XLink,
            Namespace::Other(url) => Namespace::Other(url.clone()),
        }
    }
}

impl QualName {
    /// A copy of this name.
    pub fn copy(&self) -> (n: QualName)
        ensures
            n == *self,
    {
        QualName { ns: self.ns.copy(), local: self.local.clone() }
    }
}

// ---------------------------------------------------------------------------
// The mathematical model of a document.
// ---------------------------------------------------------------------------

/// A name as the model sees it.
pub struct NameView {
    pub ns: Namespace,
    pub local: Seq<char>,
}

/// An attribute as the model sees it.
pub struct AttrView {
    pub name: NameView,
    pub value: Seq<char>,
}

/// A node as the model sees it.
pub enum NodeView {
    Document(Seq<NodeView>),
    Fragment(Seq<NodeView>),
    Doctype(Seq<char>),
    Element { name: NameView, attrs: Seq<AttrView>, children: Seq<NodeView> },
    Text(Seq<char>),
    Comment(Seq<char>),
    ProcessingInstruction(Seq<char>, Seq<char>),
}

impl View for QualName {
    type V = NameView;

    open spec fn view(&self) -> NameView {
        NameView { ns: self.ns, local: self.local@ }
    }
}

impl View for Attribute {
    type V = AttrView;

    open spec fn view(&self) -> AttrView {
        AttrView { name: self.name@, value: self.value@ }
    }
}

/// The model of a list of attributes.
pub open spec fn attrs_view(attrs: Seq<Attribute>) -> Seq<AttrView> {
    attrs.map_values(|a: Attribute| a@)
}

/// The model of a node.
pub open spec fn node_view(node: HtmlNode) -> NodeView
    decreases node, 1nat,
{
    match node {
        HtmlNode::Document(children) => NodeView::Document(nodes_view(children@)),
        HtmlNode::Fragment(children) => NodeView::Fragment(nodes_view(children@)),
        HtmlNode::Doctype(name) => NodeView::Doctype(name@),
        HtmlNode::Element { name, attrs, children } => NodeView::Element {
            name: name@,
            attrs: attrs_view(attrs@),
            children: nodes_view(children@),
        },
        HtmlNode::Text(text) => NodeView::Text(text@),
        HtmlNode::Comment(text) => NodeView::Comment(text@),
        HtmlNode::ProcessingInstruction(target, data) => NodeView::ProcessingInstruction(target@, data@),
    }
}

/// The model of a run of sibling nodes.
pub open spec fn nodes_view(nodes: Seq<HtmlNode>) -> Seq<NodeView>
    decreases nodes, 0nat,
{
    if nodes.len() == 0 {
        seq![]
    } else {
        nodes_view(nodes.drop_last()).push(node_view(nodes.last()))
    }
}

impl View for HtmlNode {
    type V = NodeView;

    open spec fn view(&self) -> NodeView {
        node_view(*self)
    }
}

/// The model of a run of nodes has one entry per node, each the model of that node.
pub proof fn lemma_nodes_view(nodes: Seq<HtmlNode>)
    ensures
        nodes_view(nodes).len() == nodes.len(),
        forall|i: int| 0 <= i < nodes.len() ==> #[trigger] nodes_view(nodes)[i] == node_view(nodes[i]),
    decreases nodes.len(),
{
    if nodes.len() > 0 {
        lemma_nodes_view(nodes.drop_last());
    }
}

/// The model of the first `i + 1` nodes is that of the first `i` with the next one added.
pub proof fn lemma_nodes_view_take(nodes: Seq<HtmlNode>, i: int)
    requires
        0 <= i < nodes.len(),
    ensures
        nodes_view(nodes.take(i + 1)) == nodes_view(nodes.take(i)).push(node_view(nodes[i])),
{
    assert(nodes.take(i + 1).drop_last() =~= nodes.take(i));
}

/// The model of a run of nodes with one more node at the end.
pub proof fn lemma_nodes_view_push(nodes: Seq<HtmlNode>, node: HtmlNode)
    ensures
        nodes_view(nodes.push(node)) == nodes_view(nodes).push(node_view(node)),
{
    assert(nodes.push(node).drop_last() =~= nodes);
}

impl Attribute {
    /// A copy of this attribute.
    pub fn copy(&self) -> (a: Attribute)
        ensures
            a == *self,
    {
        Attribute { name: self.name.copy(), value: self.value.clone() }
    }
}

/// A copy of a list of attributes.
pub fn copy_attrs(attrs: &Vec<Attribute>) -> (r: Vec<Attribute>)
    ensures
        r@ == attrs@,
{
    let mut r: Vec<Attribute> = Vec::new();
    let mut i: usize = 0;
    while i < attrs.len()
        invariant
            i <= attrs.len(),
            r@ == attrs@.take(i as int),
        decreases attrs.len() - i,
    {
        r.push(attrs[i].copy());
        assert(r@ =~= attrs@.take(i + 1));
        i += 1;
    }
    assert(attrs@.take(attrs@.len() as int) =~= attrs@);
    r
}

} // verus!
