//! The parsed article, and how its HTML is made ready for kindle: images inlined as
//! grayscale JPEG data URIs, `<picture>` and `<iframe>` elements removed.
use vstd::prelude::*;
use crate::dom::{
    attrs_view, copy_attrs, lemma_nodes_view, lemma_nodes_view_push, lemma_nodes_view_take, node_view,
    nodes_view, AttrView, Attribute, HtmlNode, NameView, Namespace, NodeView, QualName,
};
use crate::serializer::{serialization, serialize, SerializeOpts, TraversalScope};
use crate::text::{chars_of, same_text};
use kuchiki::traits::TendrilSink;
use kuchiki::{NodeData, NodeRef};

verus! {

broadcast use vstd::string::group_string_axioms;

/// The article as the reader service returns it.
#[derive(Debug)]
pub struct ParsedDocument {
    pub title: String,
    pub author: Option<String>,
    pub content: String,
    pub domain: Option<String>,
    pub date_published: Option<String>,
    pub url: Option<String>,
}

// ---------------------------------------------------------------------------
// The model of the transformation.
// ---------------------------------------------------------------------------

/// The model of a list of strings.
pub open spec fn strings_view(v: Seq<String>) -> Seq<Seq<char>> {
    v.map_values(|s: String| s@)
}

/// Whether a node is an element with the given local name (in any namespace, as a CSS
/// type selector matches).
pub open spec fn is_element_named(node: NodeView, local: Seq<char>) -> bool {
    node matches NodeView::Element { name, .. } && name.local == local
}

/// Whether an attribute is the `src` attribute (no namespace).
pub open spec fn is_src_attr(attr: AttrView) -> bool {
    attr.name.ns is Empty && attr.name.local == "src"@
}

/// The value of the first `src` attribute, if there is one.
pub open spec fn src_of(attrs: Seq<AttrView>) -> Option<Seq<char>>
    decreases attrs.len(),
{
    if attrs.len() == 0 {
        None
    } else if is_src_attr(attrs[0]) {
        Some(attrs[0].value)
    } else {
        src_of(attrs.drop_first())
    }
}

/// The source of a node itself: that of an `img` element that has one.
pub open spec fn own_source(node: NodeView) -> Seq<Seq<char>> {
    match node {
        NodeView::Element { name, attrs, .. } => if name.local == "img"@ && src_of(attrs) is Some {
            seq![src_of(attrs)->0]
        } else {
            seq![]
        },
        _ => seq![],
    }
}

/// The sources of all `img` elements at or below a node that have one, in document order.
pub open spec fn sources(node: NodeView) -> Seq<Seq<char>>
    decreases node, 1nat,
{
    match node {
        NodeView::Element { children, .. } => own_source(node) + sources_of(children),
        NodeView::Document(children) => sources_of(children),
        NodeView::Fragment(children) => sources_of(children),
        _ => seq![],
    }
}

/// The sources of the images in a run of sibling nodes, in document order.
pub open spec fn sources_of(nodes: Seq<NodeView>) -> Seq<Seq<char>>
    decreases nodes, 0nat,
{
    if nodes.len() == 0 {
        seq![]
    } else {
        sources_of(nodes.drop_last()) + sources(nodes.last())
    }
}

// ---------------------------------------------------------------------------
// Parsing the page.
// ---------------------------------------------------------------------------

/// A node of a tree that kuchiki built.
#[verifier::external_type_specification]
#[verifier::external_body]
pub struct ExNodeRef(kuchiki::NodeRef);

/// The document that the HTML parser (html5ever's tree builder, through kuchiki) builds
/// from a page's text.
pub uninterp spec fn parsed_document(text: Seq<char>) -> NodeView;

/// The library's copy of a kuchiki node and everything below it: each kuchiki variant
/// becomes the variant of the same name, names and texts are copied, namespaces are told
/// apart by `Namespace::from_url`. Part of the conversion behind `parse_html`.
#[verifier::external_body]
fn node_model(node: &NodeRef) -> HtmlNode {
    match node.data() {
        NodeData::Element(e) => HtmlNode::Element {
            name: QualName { ns: Namespace::from_url(&e.name.ns), local: e.name.local.to_string() },
            attrs: attrs_model(node),
            children: children_model(node),
        },
        NodeData::Text(t) => HtmlNode::Text(t.borrow().clone()),
        NodeData::Comment(t) => HtmlNode::Comment(t.borrow().clone()),
        NodeData::ProcessingInstruction(c) => HtmlNode::ProcessingInstruction(c.borrow().0.clone(), c.borrow().1.clone()),
        NodeData::Doctype(d) => HtmlNode::Doctype(d.name.clone()),
        NodeData::Document(_) => HtmlNode::Document(children_model(node)),
        NodeData::DocumentFragment => HtmlNode::Fragment(children_model(node)),
    }
}

/// The library's copies of the attributes of a kuchiki element, in kuchiki's order.
/// Part of the conversion behind `parse_html`.
#[verifier::external_body]
fn attrs_model(node: &NodeRef) -> Vec<Attribute> {
    let mut attrs = Vec::new();
    if let Some(e) = node.as_element() {
        for (name, attr) in e.attributes.borrow().map.iter() {
            let name = QualName { ns: Namespace::from_url(&name.ns), local: name.local.to_string() };
            attrs.push(Attribute { name, value: attr.value.clone() });
        }
    }
    attrs
}

/// The library's copies of the children of a kuchiki node, in order. Part of the
/// conversion behind `parse_html`.
#[verifier::external_body]
fn children_model(node: &NodeRef) -> Vec<HtmlNode> {
    let mut children = Vec::new();
    for child in node.children() {
        children.push(node_model(&child));
    }
    children
}

/// Parses a page's HTML.
/// Trusted: `kuchiki::parse_html().one(text)` (html5ever's parser), copied into the
/// library's tree; the contract claims that the tree is a function of the text alone,
/// named `parsed_document`.
#[verifier::external_body]
fn parse_html(text: &str) -> (doc: HtmlNode)
    ensures
        doc@ == parsed_document(text@),
{
    node_model(&kuchiki::parse_html().one(text))
}

/// The document that a page's HTML parses to.
pub fn parse_page(text: &str) -> (doc: HtmlNode)
    ensures
        doc@ == parsed_document(text@),
{
    parse_html(text)
}

// ---------------------------------------------------------------------------
// Finding the images.
// ---------------------------------------------------------------------------

/// Skipping attributes that are not `src` does not change which `src` comes first.
proof fn lemma_src_of_skip(attrs: Seq<AttrView>, i: int)
    requires
        0 <= i < attrs.len(),
        !is_src_attr(attrs[i]),
    ensures
        src_of(attrs.skip(i)) == src_of(attrs.skip(i + 1)),
{
    assert(attrs.skip(i).drop_first() =~= attrs.skip(i + 1));
}

/// Whether an attribute is the `src` attribute.
fn is_src(attr: &Attribute) -> (r: bool)
    ensures
        r == is_src_attr(attr@),
{
    match attr.name.ns {
        Namespace::Empty => same_text(attr.name.local.as_str(), "src"),
        _ => false,
    }
}

/// The value of the first `src` attribute, if there is one.
pub fn find_src(attrs: &Vec<Attribute>) -> (r: Option<&String>)
    ensures
        match r {
            Some(v) => src_of(attrs_view(attrs@)) == Some(v@),
            None => src_of(attrs_view(attrs@)) is None,
        },
{
    let ghost av = attrs_view(attrs@);
    let mut i: usize = 0;
    assert(av.skip(0) =~= av);
    while i < attrs.len()
        invariant
            i <= attrs.len(),
            av == attrs_view(attrs@),
            src_of(av) == src_of(av.skip(i as int)),
        decreases attrs.len() - i,
    {
        if is_src(&attrs[i]) {
            assert(av.skip(i as int)[0] == av[i as int]);
            return Some(&attrs[i].value);
        }
        proof {
            lemma_src_of_skip(av, i as int);
        }
        i += 1;
    }
    assert(av.skip(i as int).len() == 0);
    None
}

/// Adds the sources of the images at or below a node to `acc`.
fn collect_sources(node: &HtmlNode, acc: &mut Vec<String>)
    ensures
        strings_view(final(acc)@) == strings_view(old(acc)@) + sources(node@),
    decreases node,
{
    match node {
        HtmlNode::Element { name, attrs, children } => {
            let ghost before = strings_view(acc@);
            if same_text(name.local.as_str(), "img") {
                match find_src(attrs) {
                    Some(v) => acc.push(v.clone()),
                    None => {},
                }
            }
            assert(strings_view(acc@) =~= before + own_source(node@));
            collect_sources_of(children, acc);
            assert(strings_view(acc@) =~= before + sources(node@));
        },
        HtmlNode::Document(children) => collect_sources_of(children, acc),
        HtmlNode::Fragment(children) => collect_sources_of(children, acc),
        _ => {
            assert(strings_view(acc@) =~= strings_view(acc@) + sources(node@));
        },
    }
}

/// Adds the sources of the images in a run of sibling nodes to `acc`.
fn collect_sources_of(nodes: &Vec<HtmlNode>, acc: &mut Vec<String>)
    ensures
        strings_view(final(acc)@) == strings_view(old(acc)@) + sources_of(nodes_view(nodes@)),
    decreases nodes,
{
    let ghost start = strings_view(acc@);
    let mut i: usize = 0;
    while i < nodes.len()
        invariant
            i <= nodes.len(),
            strings_view(acc@) == start + sources_of(nodes_view(nodes@.take(i as int))),
        decreases nodes.len() - i,
    {
        proof {
            lemma_nodes_view_take(nodes@, i as int);
            let v = nodes_view(nodes@.take(i + 1));
            assert(v.drop_last() =~= nodes_view(nodes@.take(i as int)));
        }
        collect_sources(&nodes[i], acc);
        proof {
            let v = nodes_view(nodes@.take(i + 1));
            assert(strings_view(acc@) =~= start + sources_of(v));
        }
        i += 1;
    }
    assert(nodes@.take(nodes@.len() as int) =~= nodes@);
}

/// The sources of all `img` elements of a document that have one, in document order:
/// the images to fetch.
pub fn image_sources(node: &HtmlNode) -> (srcs: Vec<String>)
    ensures
        strings_view(srcs@) == sources(node@),
{
    let mut acc: Vec<String> = Vec::new();
    assert(strings_view(acc@) =~= Seq::<Seq<char>>::empty());
    collect_sources(node, &mut acc);
    assert(strings_view(acc@) =~= sources(node@));
    acc
}

// ---------------------------------------------------------------------------
// Inlining the images.
// ---------------------------------------------------------------------------

/// The data URI of a base64-encoded JPEG image.
pub open spec fn image_data_uri(encoded: Seq<char>) -> Seq<char> {
    "data:image/jpeg;base64, "@ + encoded
}

/// A `src` attribute with the given value.
pub open spec fn src_attr(value: Seq<char>) -> AttrView {
    AttrView { name: NameView { ns: Namespace::Empty, local: "src"@ }, value }
}

/// A node with the images at or below it inlined: each `img` element that has a source
/// is left with one attribute, `src`, the data URI of the next encoded image of `data`,
/// in document order.
pub open spec fn with_inlined(node: NodeView, data: Seq<Seq<char>>) -> NodeView
    decreases node, 1nat,
{
    match node {
        NodeView::Element { name, attrs, children } => {
            let k = own_source(node).len();
            NodeView::Element {
                name,
                attrs: if k == 1 {
                    seq![src_attr(image_data_uri(data[0]))]
                } else {
                    attrs
                },
                children: inlined_children(children, data.skip(k as int)),
            }
        },
        NodeView::Document(children) => NodeView::Document(inlined_children(children, data)),
        NodeView::Fragment(children) => NodeView::Fragment(inlined_children(children, data)),
        _ => node,
    }
}

/// A run of sibling nodes with their images inlined from `data`, in document order.
pub open spec fn inlined_children(nodes: Seq<NodeView>, data: Seq<Seq<char>>) -> Seq<NodeView>
    decreases nodes, 0nat,
{
    if nodes.len() == 0 {
        seq![]
    } else {
        let k = sources_of(nodes.drop_last()).len();
        inlined_children(nodes.drop_last(), data.take(k as int)).push(
            with_inlined(nodes.last(), data.skip(k as int)),
        )
    }
}

/// Whether an element's attributes include `src` (in no namespace).
pub open spec fn has_src_attr(attrs: Seq<AttrView>) -> bool {
    exists|i: int| 0 <= i < attrs.len() && #[trigger] attrs[i].name.ns is Empty && attrs[i].name.local == "src"@
}

/// `b` is `a` with at most the attributes of its `img` elements that have a `src`
/// changed, and those to a single `src` attribute: every other node keeps its kind and
/// contents, every element its name, and every element that is not an `img` with a `src`
/// its attributes.
pub open spec fn only_image_sources_changed(a: NodeView, b: NodeView) -> bool
    decreases a, 1nat,
{
    match a {
        NodeView::Element { name, attrs, children } => match b {
            NodeView::Element { name: name2, attrs: attrs2, children: children2 } => {
                &&& name2 == name
                &&& if name.local == "img"@ && has_src_attr(attrs) {
                    attrs2.len() == 1 && attrs2[0].name.ns is Empty && attrs2[0].name.local == "src"@
                } else {
                    attrs2 == attrs
                }
                &&& only_image_sources_changed_all(children, children2)
            },
            _ => false,
        },
        NodeView::Document(children) => match b {
            NodeView::Document(children2) => only_image_sources_changed_all(children, children2),
            _ => false,
        },
        NodeView::Fragment(children) => match b {
            NodeView::Fragment(children2) => only_image_sources_changed_all(children, children2),
            _ => false,
        },
        _ => b == a,
    }
}

/// `bs` is `as_` node for node, with only the attributes of `img` elements with a `src`
/// changed.
pub open spec fn only_image_sources_changed_all(as_: Seq<NodeView>, bs: Seq<NodeView>) -> bool
    decreases as_, 0nat,
{
    &&& as_.len() == bs.len()
    &&& as_.len() == 0 || (only_image_sources_changed_all(as_.drop_last(), bs.drop_last())
        && only_image_sources_changed(as_.last(), bs.last()))
}

/// There is a `src` attribute exactly when `src_of` finds one.
proof fn lemma_src_of_some(attrs: Seq<AttrView>)
    ensures
        src_of(attrs) is Some <==> has_src_attr(attrs),
    decreases attrs.len(),
{
    if attrs.len() > 0 {
        lemma_src_of_some(attrs.drop_first());
        if has_src_attr(attrs) && !is_src_attr(attrs[0]) {
            let i = choose|i: int| 0 <= i < attrs.len() && #[trigger] attrs[i].name.ns is Empty && attrs[i].name.local == "src"@;
            assert(attrs.drop_first()[i - 1] == attrs[i]);
        }
        if has_src_attr(attrs.drop_first()) {
            let i = choose|i: int| 0 <= i < attrs.drop_first().len() && #[trigger] attrs.drop_first()[i].name.ns is Empty && attrs.drop_first()[i].name.local == "src"@;
            assert(attrs[i + 1] == attrs.drop_first()[i]);
        }
        if is_src_attr(attrs[0]) {
            assert(attrs[0].name.ns is Empty);
        }
    }
}

/// Inlining the images changes nothing but the attributes of the `img` elements that have
/// a `src`: every other element keeps its name and its attributes, every other node its
/// contents, and the tree its shape.
pub proof fn lemma_inlining_changes_only_image_sources(node: NodeView, data: Seq<Seq<char>>)
    ensures
        only_image_sources_changed(node, with_inlined(node, data)),
    decreases node, 1nat,
{
    match node {
        NodeView::Element { name, attrs, children } => {
            lemma_src_of_some(attrs);
            let k = own_source(node).len();
            lemma_inlining_children_changes_only_image_sources(children, data.skip(k as int));
        },
        NodeView::Document(children) => lemma_inlining_children_changes_only_image_sources(children, data),
        NodeView::Fragment(children) => lemma_inlining_children_changes_only_image_sources(children, data),
        _ => {},
    }
}

/// Inlining the images of a run of siblings changes nothing but the attributes of the
/// `img` elements that have a `src`.
pub proof fn lemma_inlining_children_changes_only_image_sources(nodes: Seq<NodeView>, data: Seq<Seq<char>>)
    ensures
        only_image_sources_changed_all(nodes, inlined_children(nodes, data)),
    decreases nodes, 0nat,
{
    if nodes.len() > 0 {
        let k = sources_of(nodes.drop_last()).len();
        lemma_inlining_children_changes_only_image_sources(nodes.drop_last(), data.take(k as int));
        lemma_inlining_changes_only_image_sources(nodes.last(), data.skip(k as int));
        let r = inlined_children(nodes, data);
        assert(r.drop_last() =~= inlined_children(nodes.drop_last(), data.take(k as int)));
    }
}

/// The images of two runs of siblings, one after the other, are those of the first, then
/// those of the second.
pub proof fn lemma_sources_of_append(a: Seq<NodeView>, b: Seq<NodeView>)
    ensures
        sources_of(a + b) == sources_of(a) + sources_of(b),
    decreases b.len(),
{
    if b.len() == 0 {
        assert(a + b =~= a);
        assert(sources_of(a) + sources_of(b) =~= sources_of(a));
    } else {
        lemma_sources_of_append(a, b.drop_last());
        assert((a + b).drop_last() =~= a + b.drop_last());
        assert((a + b).last() == b.last());
        let sa = sources_of(a);
        let sb = sources_of(b.drop_last());
        let sc = sources(b.last());
        assert(sa + sb + sc =~= sa + (sb + sc));
    }
}

/// The images of the first `i` siblings are no more than those of all of them.
proof fn lemma_sources_of_prefix(nodes: Seq<NodeView>, i: int)
    requires
        0 <= i <= nodes.len(),
    ensures
        sources_of(nodes.take(i)).len() <= sources_of(nodes).len(),
    decreases nodes.len(),
{
    if i < nodes.len() {
        lemma_sources_of_prefix(nodes.drop_last(), i);
        assert(nodes.drop_last().take(i) =~= nodes.take(i));
    } else {
        assert(nodes.take(i) =~= nodes);
    }
}

/// The data URI of a base64-encoded JPEG image.
pub fn data_uri(encoded: &str) -> (uri: String)
    ensures
        uri@ == image_data_uri(encoded@),
{
    let mut uri = "data:image/jpeg;base64, ".to_owned();
    uri.append(encoded);
    uri
}

/// A copy of a leaf node (one with no children).
fn copy_leaf(node: &HtmlNode) -> (r: HtmlNode)
    requires
        !(node matches HtmlNode::Element { .. }),
        !(node matches HtmlNode::Document(_)),
        !(node matches HtmlNode::Fragment(_)),
    ensures
        r@ == node@,
{
    match node {
        HtmlNode::Doctype(n) => HtmlNode::Doctype(n.clone()),
        HtmlNode::Text(t) => HtmlNode::Text(t.clone()),
        HtmlNode::Comment(t) => HtmlNode::Comment(t.clone()),
        HtmlNode::ProcessingInstruction(t, d) => HtmlNode::ProcessingInstruction(t.clone(), d.clone()),
        _ => HtmlNode::Text(String::new()),
    }
}

/// A node with its images inlined from `data[start..]`; also how many it used.
fn inline_node(node: &HtmlNode, data: &Vec<String>, start: usize) -> (r: (HtmlNode, usize))
    requires
        start + sources(node@).len() <= data.len(),
    ensures
        r.1 == sources(node@).len(),
        r.0@ == with_inlined(node@, strings_view(data@).subrange(start as int, start + r.1)),
    decreases node,
{
    let ghost sv = strings_view(data@);
    match node {
        HtmlNode::Element { name, attrs, children } => {
            let mut own: usize = 0;
            let mut new_attrs = copy_attrs(attrs);
            if same_text(name.local.as_str(), "img") {
                match find_src(attrs) {
                    Some(_) => {
                        new_attrs = Vec::new();
                        new_attrs.push(
                            Attribute {
                                name: QualName { ns: Namespace::Empty, local: "src".to_owned() },
                                value: data_uri(data[start].as_str()),
                            },
                        );
                        own = 1;
                    },
                    None => {},
                }
            }
            assert(own == own_source(node@).len());
            let (new_children, used) = inline_children(children, data, start + own);
            let ghost d = sv.subrange(start as int, start + own + used);
            proof {
                assert(d.skip(own as int) =~= sv.subrange(start + own, start + own + used));
                if own == 1 {
                    assert(d[0] == sv[start as int]);
                    assert(attrs_view(new_attrs@) =~= seq![src_attr(image_data_uri(d[0]))]);
                }
            }
            (HtmlNode::Element { name: name.copy(), attrs: new_attrs, children: new_children }, own + used)
        },
        HtmlNode::Document(children) => {
            let (new_children, used) = inline_children(children, data, start);
            (HtmlNode::Document(new_children), used)
        },
        HtmlNode::Fragment(children) => {
            let (new_children, used) = inline_children(children, data, start);
            (HtmlNode::Fragment(new_children), used)
        },
        _ => (copy_leaf(node), 0),
    }
}

/// A run of sibling nodes with their images inlined from `data[start..]`; also how many
/// they used.
fn inline_children(nodes: &Vec<HtmlNode>, data: &Vec<String>, start: usize) -> (r: (Vec<HtmlNode>, usize))
    requires
        start + sources_of(nodes_view(nodes@)).len() <= data.len(),
    ensures
        r.1 == sources_of(nodes_view(nodes@)).len(),
        nodes_view(r.0@) == inlined_children(
            nodes_view(nodes@),
            strings_view(data@).subrange(start as int, start + r.1),
        ),
    decreases nodes,
{
    let ghost sv = strings_view(data@);
    let mut out: Vec<HtmlNode> = Vec::new();
    let mut pos: usize = start;
    let mut i: usize = 0;
    while i < nodes.len()
        invariant
            i <= nodes.len(),
            sv == strings_view(data@),
            start + sources_of(nodes_view(nodes@)).len() <= data.len(),
            pos == start + sources_of(nodes_view(nodes@.take(i as int))).len(),
            nodes_view(out@) == inlined_children(
                nodes_view(nodes@.take(i as int)),
                sv.subrange(start as int, pos as int),
            ),
        decreases nodes.len() - i,
    {
        let ghost v = nodes_view(nodes@.take(i + 1));
        proof {
            lemma_nodes_view_take(nodes@, i as int);
            assert(v.drop_last() =~= nodes_view(nodes@.take(i as int)));
            lemma_nodes_view(nodes@);
            lemma_nodes_view(nodes@.take(i + 1));
            assert(nodes_view(nodes@).take(i + 1) =~= v);
            lemma_sources_of_prefix(nodes_view(nodes@), i + 1);
        }
        let (child, used) = inline_node(&nodes[i], data, pos);
        let ghost old_out = out@;
        out.push(child);
        proof {
            lemma_nodes_view_push(old_out, child);
            let d = sv.subrange(start as int, pos + used);
            let k = (pos - start) as int;
            assert(d.take(k) =~= sv.subrange(start as int, pos as int));
            assert(d.skip(k) =~= sv.subrange(pos as int, pos + used));
        }
        pos = pos + used;
        i += 1;
    }
    assert(nodes@.take(nodes@.len() as int) =~= nodes@);
    (out, pos - start)
}

// ---------------------------------------------------------------------------
// Pulling the images out of `<picture>` elements.
// ---------------------------------------------------------------------------

/// The children of a node (none for a leaf).
pub open spec fn children_of(node: NodeView) -> Seq<NodeView> {
    match node {
        NodeView::Element { children, .. } => children,
        NodeView::Document(children) => children,
        NodeView::Fragment(children) => children,
        _ => seq![],
    }
}

/// The attributes of a node (none but for an element).
pub open spec fn attrs_of(node: NodeView) -> Seq<AttrView> {
    match node {
        NodeView::Element { attrs, .. } => attrs,
        _ => seq![],
    }
}

/// The first `img` element at or below a node, in document order.
pub open spec fn first_img(node: NodeView) -> Option<NodeView>
    decreases node, 1nat,
{
    if is_element_named(node, "img"@) {
        Some(node)
    } else {
        match node {
            NodeView::Element { children, .. } => first_img_of(children),
            NodeView::Document(children) => first_img_of(children),
            NodeView::Fragment(children) => first_img_of(children),
            _ => None,
        }
    }
}

/// The first `img` element in a run of sibling nodes and below them, in document order.
pub open spec fn first_img_of(nodes: Seq<NodeView>) -> Option<NodeView>
    decreases nodes, 0nat,
{
    if nodes.len() == 0 {
        None
    } else {
        match first_img(nodes[0]) {
            Some(img) => Some(img),
            None => first_img_of(nodes.drop_first()),
        }
    }
}

/// A new HTML `img` element with only a `src` attribute.
pub open spec fn new_img(src: Seq<char>) -> NodeView {
    NodeView::Element {
        name: NameView { ns: Namespace::Html, local: "img"@ },
        attrs: seq![src_attr(src)],
        children: seq![],
    }
}

/// What is put before a `<picture>` element: a copy of its first image, by its source,
/// when it has one with a source.
pub open spec fn picture_image(picture: NodeView) -> Seq<NodeView> {
    match first_img_of(children_of(picture)) {
        Some(img) => match src_of(attrs_of(img)) {
            Some(src) => seq![new_img(src)],
            None => seq![],
        },
        None => seq![],
    }
}

/// A node with a copy of the first image of every `<picture>` below it put just before
/// that `<picture>`.
pub open spec fn hoisted(node: NodeView) -> NodeView
    decreases node, 1nat,
{
    match node {
        NodeView::Element { name, attrs, children } => NodeView::Element {
            name,
            attrs,
            children: hoisted_children(children),
        },
        NodeView::Document(children) => NodeView::Document(hoisted_children(children)),
        NodeView::Fragment(children) => NodeView::Fragment(hoisted_children(children)),
        _ => node,
    }
}

/// A run of sibling nodes with the images of their `<picture>` elements put before them.
pub open spec fn hoisted_children(nodes: Seq<NodeView>) -> Seq<NodeView>
    decreases nodes, 0nat,
{
    if nodes.len() == 0 {
        seq![]
    } else {
        let last = nodes.last();
        hoisted_children(nodes.drop_last()) + (if is_element_named(last, "picture"@) {
            picture_image(last)
        } else {
            seq![]
        }) + seq![hoisted(last)]
    }
}

/// The model of an optional node.
pub open spec fn opt_node_view(node: Option<&HtmlNode>) -> Option<NodeView> {
    match node {
        Some(n) => Some(n@),
        None => None,
    }
}

/// The first `img` element at or below a node.
fn first_image_in(node: &HtmlNode) -> (r: Option<&HtmlNode>)
    ensures
        opt_node_view(r) == first_img(node@),
    decreases node,
{
    match node {
        HtmlNode::Element { name, children, .. } => {
            if same_text(name.local.as_str(), "img") {
                Some(node)
            } else {
                first_image_of(children)
            }
        },
        HtmlNode::Document(children) => first_image_of(children),
        HtmlNode::Fragment(children) => first_image_of(children),
        _ => None,
    }
}

/// The first `img` element in or below a run of sibling nodes.
fn first_image_of(nodes: &Vec<HtmlNode>) -> (r: Option<&HtmlNode>)
    ensures
        opt_node_view(r) == first_img_of(nodes_view(nodes@)),
    decreases nodes,
{
    let ghost nv = nodes_view(nodes@);
    proof {
        lemma_nodes_view(nodes@);
        assert(nv.skip(0) =~= nv);
    }
    let mut i: usize = 0;
    while i < nodes.len()
        invariant
            i <= nodes.len(),
            nv == nodes_view(nodes@),
            nv.len() == nodes.len(),
            forall|j: int| 0 <= j < nodes.len() ==> #[trigger] nv[j] == node_view(nodes@[j]),
            first_img_of(nv) == first_img_of(nv.skip(i as int)),
        decreases nodes.len() - i,
    {
        let found = first_image_in(&nodes[i]);
        proof {
            assert(nv.skip(i as int)[0] == nv[i as int]);
            assert(nv.skip(i as int).drop_first() =~= nv.skip(i + 1));
        }
        if found.is_some() {
            return found;
        }
        i += 1;
    }
    assert(nv.skip(i as int).len() == 0);
    None
}

/// A new HTML `img` element with only a `src` attribute.
fn make_img(src: &String) -> (img: HtmlNode)
    ensures
        img@ == new_img(src@),
{
    let mut attrs: Vec<Attribute> = Vec::new();
    attrs.push(Attribute { name: QualName { ns: Namespace::Empty, local: "src".to_owned() }, value: src.clone() });
    let img = HtmlNode::Element {
        name: QualName { ns: Namespace::Html, local: "img".to_owned() },
        attrs,
        children: Vec::new(),
    };
    proof {
        assert(attrs_view(attrs@) =~= seq![src_attr(src@)]);
        assert(nodes_view(Seq::<HtmlNode>::empty()) =~= Seq::<NodeView>::empty());
    }
    img
}

/// A node with the first image of every `<picture>` below it put before that `<picture>`.
fn hoist_node(node: &HtmlNode) -> (r: HtmlNode)
    ensures
        r@ == hoisted(node@),
    decreases node,
{
    match node {
        HtmlNode::Element { name, attrs, children } => HtmlNode::Element {
            name: name.copy(),
            attrs: copy_attrs(attrs),
            children: hoist_children(children),
        },
        HtmlNode::Document(children) => HtmlNode::Document(hoist_children(children)),
        HtmlNode::Fragment(children) => HtmlNode::Fragment(hoist_children(children)),
        _ => copy_leaf(node),
    }
}

/// A run of sibling nodes with the images of their `<picture>` elements put before them.
fn hoist_children(nodes: &Vec<HtmlNode>) -> (r: Vec<HtmlNode>)
    ensures
        nodes_view(r@) == hoisted_children(nodes_view(nodes@)),
    decreases nodes,
{
    let mut out: Vec<HtmlNode> = Vec::new();
    let mut i: usize = 0;
    while i < nodes.len()
        invariant
            i <= nodes.len(),
            nodes_view(out@) == hoisted_children(nodes_view(nodes@.take(i as int))),
        decreases nodes.len() - i,
    {
        proof {
            lemma_nodes_view_take(nodes@, i as int);
            let v = nodes_view(nodes@.take(i + 1));
            assert(v.drop_last() =~= nodes_view(nodes@.take(i as int)));
        }
        let ghost before = nodes_view(out@);
        let node = &nodes[i];
        match node {
            HtmlNode::Element { name, children, .. } => {
                if same_text(name.local.as_str(), "picture") {
                    match first_image_of(children) {
                        Some(img) => match img {
                            HtmlNode::Element { attrs, .. } => match find_src(attrs) {
                                Some(src) => {
                                    let ghost o = out@;
                                    let n = make_img(src);
                                    out.push(n);
                                    proof {
                                        lemma_nodes_view_push(o, n);
                                    }
                                },
                                None => {},
                            },
                            _ => {},
                        },
                        None => {},
                    }
                }
            },
            _ => {},
        }
        assert(nodes_view(out@) =~= before + (if is_element_named(node@, "picture"@) {
            picture_image(node@)
        } else {
            seq![]
        }));
        let h = hoist_node(node);
        let ghost o = out@;
        out.push(h);
        proof {
            lemma_nodes_view_push(o, h);
            let v = nodes_view(nodes@.take(i + 1));
            assert(nodes_view(out@) =~= hoisted_children(v));
        }
        i += 1;
    }
    assert(nodes@.take(nodes@.len() as int) =~= nodes@);
    out
}

// ---------------------------------------------------------------------------
// Removing elements.
// ---------------------------------------------------------------------------

/// A node with every element below it that has the given local name removed, with all
/// that is below that element.
pub open spec fn without(node: NodeView, local: Seq<char>) -> NodeView
    decreases node, 1nat,
{
    match node {
        NodeView::Element { name, attrs, children } => NodeView::Element {
            name,
            attrs,
            children: without_of(children, local),
        },
        NodeView::Document(children) => NodeView::Document(without_of(children, local)),
        NodeView::Fragment(children) => NodeView::Fragment(without_of(children, local)),
        _ => node,
    }
}

/// A run of sibling nodes with the elements of the given local name removed, at every depth.
pub open spec fn without_of(nodes: Seq<NodeView>, local: Seq<char>) -> Seq<NodeView>
    decreases nodes, 0nat,
{
    if nodes.len() == 0 {
        seq![]
    } else {
        without_of(nodes.drop_last(), local) + (if is_element_named(nodes.last(), local) {
            seq![]
        } else {
            seq![without(nodes.last(), local)]
        })
    }
}

/// A node with the elements of the given local name below it removed.
fn strip_node(node: &HtmlNode, local: &str) -> (r: HtmlNode)
    ensures
        r@ == without(node@, local@),
    decreases node,
{
    match node {
        HtmlNode::Element { name, attrs, children } => HtmlNode::Element {
            name: name.copy(),
            attrs: copy_attrs(attrs),
            children: strip_children(children, local),
        },
        HtmlNode::Document(children) => HtmlNode::Document(strip_children(children, local)),
        HtmlNode::Fragment(children) => HtmlNode::Fragment(strip_children(children, local)),
        _ => copy_leaf(node),
    }
}

/// A run of sibling nodes with the elements of the given local name removed.
fn strip_children(nodes: &Vec<HtmlNode>, local: &str) -> (r: Vec<HtmlNode>)
    ensures
        nodes_view(r@) == without_of(nodes_view(nodes@), local@),
    decreases nodes,
{
    let mut out: Vec<HtmlNode> = Vec::new();
    let mut i: usize = 0;
    while i < nodes.len()
        invariant
            i <= nodes.len(),
            nodes_view(out@) == without_of(nodes_view(nodes@.take(i as int)), local@),
        decreases nodes.len() - i,
    {
        proof {
            lemma_nodes_view_take(nodes@, i as int);
            let v = nodes_view(nodes@.take(i + 1));
            assert(v.drop_last() =~= nodes_view(nodes@.take(i as int)));
        }
        let node = &nodes[i];
        let named = match node {
            HtmlNode::Element { name, .. } => same_text(name.local.as_str(), local),
            _ => false,
        };
        if !named {
            let ghost o = out@;
            let n = strip_node(node, local);
            out.push(n);
            proof {
                lemma_nodes_view_push(o, n);
            }
        }
        proof {
            let v = nodes_view(nodes@.take(i + 1));
            assert(nodes_view(out@) =~= without_of(v, local@));
        }
        i += 1;
    }
    assert(nodes@.take(nodes@.len() as int) =~= nodes@);
    out
}

/// Whether a node is an HTML `img` element with no children and a single attribute,
/// `src` (in no namespace): the kind of element put before a `<picture>`.
pub open spec fn is_added_image(node: NodeView) -> bool {
    match node {
        NodeView::Element { name, attrs, children } => {
            &&& name.ns is Html
            &&& name.local == "img"@
            &&& attrs.len() == 1
            &&& attrs[0].name.ns is Empty
            &&& attrs[0].name.local == "src"@
            &&& children.len() == 0
        },
        _ => false,
    }
}

/// `b` keeps what it keeps of `a` unchanged: the same kind of node, an element with the
/// same name and the same attributes, a leaf with the same contents; below it, nodes of
/// `a` may be dropped and new images added, and the nodes kept stay in order and are
/// kept the same way.
pub open spec fn keeps_nodes(a: NodeView, b: NodeView) -> bool
    decreases a, 0nat,
{
    match a {
        NodeView::Element { name, attrs, children } => match b {
            NodeView::Element { name: name2, attrs: attrs2, children: children2 } => {
                &&& name2 == name
                &&& attrs2 == attrs
                &&& keeps_nodes_all(children, children2)
            },
            _ => false,
        },
        NodeView::Document(children) => match b {
            NodeView::Document(children2) => keeps_nodes_all(children, children2),
            _ => false,
        },
        NodeView::Fragment(children) => match b {
            NodeView::Fragment(children2) => keeps_nodes_all(children, children2),
            _ => false,
        },
        _ => b == a,
    }
}

/// `bs` is `as_` with some nodes dropped and new images added, each node kept being
/// kept unchanged in the sense of `keeps_nodes`, in order.
pub open spec fn keeps_nodes_all(as_: Seq<NodeView>, bs: Seq<NodeView>) -> bool
    decreases as_, bs.len(),
{
    if bs.len() == 0 {
        true
    } else {
        ||| (is_added_image(bs.last()) && keeps_nodes_all(as_, bs.drop_last()))
        ||| (as_.len() > 0 && keeps_nodes_all(as_.drop_last(), bs))
        ||| (as_.len() > 0 && keeps_nodes(as_.last(), bs.last()) && keeps_nodes_all(
            as_.drop_last(),
            bs.drop_last(),
        ))
    }
}

/// Removing the elements of a name keeps every other node unchanged: each element kept
/// has its name and its attributes, each leaf its contents.
pub proof fn lemma_removal_keeps_nodes(node: NodeView, local: Seq<char>)
    ensures
        keeps_nodes(node, without(node, local)),
    decreases node, 1nat,
{
    match node {
        NodeView::Element { children, .. } => lemma_removal_keeps_nodes_all(children, local),
        NodeView::Document(children) => lemma_removal_keeps_nodes_all(children, local),
        NodeView::Fragment(children) => lemma_removal_keeps_nodes_all(children, local),
        _ => {},
    }
}

/// Removing the elements of a name from a run of siblings keeps the others unchanged.
pub proof fn lemma_removal_keeps_nodes_all(nodes: Seq<NodeView>, local: Seq<char>)
    ensures
        keeps_nodes_all(nodes, without_of(nodes, local)),
    decreases nodes, 0nat,
{
    if nodes.len() > 0 {
        let dl = nodes.drop_last();
        lemma_removal_keeps_nodes_all(dl, local);
        let w = without_of(nodes, local);
        if !is_element_named(nodes.last(), local) {
            lemma_removal_keeps_nodes(nodes.last(), local);
            assert(w.drop_last() =~= without_of(dl, local));
            assert(w.last() == without(nodes.last(), local));
        } else {
            assert(w =~= without_of(dl, local));
        }
    }
}

/// Putting images before the `<picture>` elements keeps every node unchanged and only
/// adds images.
pub proof fn lemma_hoisting_keeps_nodes(node: NodeView)
    ensures
        keeps_nodes(node, hoisted(node)),
    decreases node, 1nat,
{
    match node {
        NodeView::Element { children, .. } => lemma_hoisting_keeps_nodes_all(children),
        NodeView::Document(children) => lemma_hoisting_keeps_nodes_all(children),
        NodeView::Fragment(children) => lemma_hoisting_keeps_nodes_all(children),
        _ => {},
    }
}

/// Putting images before the `<picture>` elements of a run of siblings keeps the siblings
/// unchanged and only adds images.
pub proof fn lemma_hoisting_keeps_nodes_all(nodes: Seq<NodeView>)
    ensures
        keeps_nodes_all(nodes, hoisted_children(nodes)),
    decreases nodes, 0nat,
{
    if nodes.len() > 0 {
        let dl = nodes.drop_last();
        let last = nodes.last();
        lemma_hoisting_keeps_nodes_all(dl);
        lemma_hoisting_keeps_nodes(last);
        let h = hoisted_children(dl);
        let p: Seq<NodeView> = if is_element_named(last, "picture"@) {
            picture_image(last)
        } else {
            seq![]
        };
        let r = hoisted_children(nodes);
        assert(r == h + p + seq![hoisted(last)]);
        assert(r.drop_last() =~= h + p);
        if p.len() == 1 {
            assert(is_added_image(p[0]));
            assert((h + p).drop_last() =~= h);
            assert((h + p).last() == p[0]);
            assert(keeps_nodes_all(dl, h + p));
        } else {
            assert(h + p =~= h);
        }
        assert(r.last() == hoisted(last));
        assert(keeps_nodes_all(dl, r.drop_last()));
    }
}

/// Removing the elements of a name changes nothing where there is none of them.
pub proof fn lemma_removal_of_absent_name(node: NodeView, local: Seq<char>)
    requires
        !has_named_below(node, local),
    ensures
        without(node, local) == node,
    decreases node, 1nat,
{
    match node {
        NodeView::Element { children, .. } => lemma_removal_of_absent_name_all(children, local),
        NodeView::Document(children) => lemma_removal_of_absent_name_all(children, local),
        NodeView::Fragment(children) => lemma_removal_of_absent_name_all(children, local),
        _ => {},
    }
}

/// Removing the elements of a name from a run of siblings changes nothing where there is
/// none of them.
pub proof fn lemma_removal_of_absent_name_all(nodes: Seq<NodeView>, local: Seq<char>)
    requires
        !has_named_in(nodes, local),
    ensures
        without_of(nodes, local) == nodes,
    decreases nodes, 0nat,
{
    if nodes.len() > 0 {
        lemma_removal_of_absent_name_all(nodes.drop_last(), local);
        lemma_removal_of_absent_name(nodes.last(), local);
        assert(without_of(nodes, local) =~= nodes.drop_last().push(nodes.last()));
        assert(nodes.drop_last().push(nodes.last()) =~= nodes);
    }
}

/// Putting images before `<picture>` elements changes nothing where there is no
/// `<picture>`.
pub proof fn lemma_hoisting_without_pictures(node: NodeView)
    requires
        !has_named_below(node, "picture"@),
    ensures
        hoisted(node) == node,
    decreases node, 1nat,
{
    match node {
        NodeView::Element { children, .. } => lemma_hoisting_without_pictures_all(children),
        NodeView::Document(children) => lemma_hoisting_without_pictures_all(children),
        NodeView::Fragment(children) => lemma_hoisting_without_pictures_all(children),
        _ => {},
    }
}

/// Putting images before the `<picture>` elements of a run of siblings changes nothing
/// where there is no `<picture>`.
pub proof fn lemma_hoisting_without_pictures_all(nodes: Seq<NodeView>)
    requires
        !has_named_in(nodes, "picture"@),
    ensures
        hoisted_children(nodes) == nodes,
    decreases nodes, 0nat,
{
    if nodes.len() > 0 {
        lemma_hoisting_without_pictures_all(nodes.drop_last());
        lemma_hoisting_without_pictures(nodes.last());
        assert(hoisted_children(nodes) =~= nodes.drop_last() + seq![nodes.last()]);
        assert(nodes.drop_last() + seq![nodes.last()] =~= nodes);
    }
}

// ---------------------------------------------------------------------------
// The whole transformation.
// ---------------------------------------------------------------------------

/// The options the page is serialized with: the defaults.
pub open spec fn page_opts() -> SerializeOpts {
    SerializeOpts {
        scripting_enabled: true,
        traversal_scope: TraversalScope::ChildrenOnly(None),
        create_missing_parent: false,
    }
}

/// The document once ready for kindle: images inlined from `encoded`, the first image of
/// each `<picture>` put before it when it has one with a source, then every `<picture>`
/// and every `<iframe>` removed.
pub open spec fn ready_document(doc: NodeView, encoded: Seq<Seq<char>>) -> NodeView {
    without(without(hoisted(with_inlined(doc, encoded)), "picture"@), "iframe"@)
}

/// Makes a parsed page ready for kindle and serializes it: the images inlined as data
/// URIs, the first image of each `<picture>` (when it has one with a source) put before
/// it, then every `<picture>`, with or without an image, and every `<iframe>` removed.
/// `encoded` holds the base64 JPEG encodings of the images that `image_sources` lists, in
/// that order.
pub fn inline_images(doc: &HtmlNode, encoded: &Vec<String>) -> (html: String)
    requires
        encoded@.len() == sources(doc@).len(),
    ensures
        html@ == serialization(ready_document(doc@, strings_view(encoded@)), page_opts()),
{
    let (inlined, _) = inline_node(doc, encoded, 0);
    assert(strings_view(encoded@).subrange(0, encoded@.len() as int) =~= strings_view(encoded@));
    let hoisted_doc = hoist_node(&inlined);
    let no_pictures = strip_node(&hoisted_doc, "picture");
    let ready = strip_node(&no_pictures, "iframe");
    let opts = SerializeOpts {
        scripting_enabled: true,
        traversal_scope: TraversalScope::ChildrenOnly(None),
        create_missing_parent: false,
    };
    serialize(&ready, opts)
}

// ---------------------------------------------------------------------------
// Image URLs.
// ---------------------------------------------------------------------------

/// Whether an encoded space, `%20`, starts at position `i` of `s`.
pub open spec fn encoded_space_at(s: Seq<char>, i: int) -> bool {
    0 <= i && i + 3 <= s.len() && s[i] == '%' && s[i + 1] == '2' && s[i + 2] == '0'
}

/// What comes before the first `%20` of a URL; the whole URL when it has none.
pub open spec fn before_encoded_space(s: Seq<char>) -> Seq<char>
    decreases s.len(),
{
    if s.len() == 0 {
        s
    } else if encoded_space_at(s, 0) {
        seq![]
    } else {
        seq![s[0]] + before_encoded_space(s.drop_first())
    }
}

/// Cutting at the first `%20` after `i` characters without one keeps those characters.
proof fn lemma_before_encoded_space(s: Seq<char>, i: int)
    requires
        0 <= i <= s.len(),
        forall|j: int| 0 <= j < i ==> !encoded_space_at(s, j),
    ensures
        before_encoded_space(s) == s.take(i) + before_encoded_space(s.skip(i)),
    decreases i,
{
    if i > 0 {
        assert(!encoded_space_at(s, 0));
        let t = s.drop_first();
        assert forall|j: int| 0 <= j < i - 1 implies !encoded_space_at(t, j) by {
            assert(!encoded_space_at(s, j + 1));
        }
        lemma_before_encoded_space(t, i - 1);
        assert(t.skip(i - 1) =~= s.skip(i));
        assert(seq![s[0]] + t.take(i - 1) =~= s.take(i));
    } else {
        assert(s.skip(0) =~= s);
        assert(s.take(0) + before_encoded_space(s) =~= before_encoded_space(s));
    }
}

/// The URL to fetch is the part of the `src` value before its first `%20`: a prefix of
/// it that holds no `%20`, followed in the value by `%20`, or the whole value when it
/// holds none.
pub proof fn lemma_before_encoded_space_is_cut(s: Seq<char>)
    ensures
        s.take(before_encoded_space(s).len() as int) == before_encoded_space(s),
        forall|i: int|
            0 <= i && i + 3 <= before_encoded_space(s).len() + 2 && i + 3 <= s.len() ==> !(#[trigger] s[i]
                == '%' && s[i + 1] == '2' && s[i + 2] == '0'),
        before_encoded_space(s).len() == s.len() || {
            let k = before_encoded_space(s).len() as int;
            k + 3 <= s.len() && s[k] == '%' && s[k + 1] == '2' && s[k + 2] == '0'
        },
        (forall|i: int| 0 <= i && i + 3 <= s.len() ==> !(#[trigger] s[i] == '%' && s[i + 1] == '2'
            && s[i + 2] == '0')) ==> before_encoded_space(s) == s,
    decreases s.len(),
{
    let r = before_encoded_space(s);
    if s.len() == 0 {
    } else if s.len() >= 3 && s[0] == '%' && s[1] == '2' && s[2] == '0' {
        assert(r.len() == 0);
        assert(s.take(0) =~= r);
    } else {
        let t = s.drop_first();
        lemma_before_encoded_space_is_cut(t);
        let rt = before_encoded_space(t);
        assert(r == seq![s[0]] + rt);
        assert(s.take(r.len() as int) =~= r) by {
            assert(t.take(rt.len() as int) == rt);
        }
        assert forall|i: int|
            0 <= i && i + 3 <= r.len() + 2 && i + 3 <= s.len() implies !(#[trigger] s[i] == '%' && s[i
                + 1] == '2' && s[i + 2] == '0') by {
            if i > 0 {
                assert(t[i - 1] == s[i]);
                assert(t[i] == s[i + 1]);
                assert(t[i + 1] == s[i + 2]);
            }
        }
        if rt.len() < t.len() {
            let k = rt.len() as int;
            assert(t[k] == s[k + 1] && t[k + 1] == s[k + 2] && t[k + 2] == s[k + 3]);
        }
        if forall|i: int| 0 <= i && i + 3 <= s.len() ==> !(#[trigger] s[i] == '%' && s[i + 1] == '2'
            && s[i + 2] == '0') {
            assert forall|i: int| 0 <= i && i + 3 <= t.len() implies !(#[trigger] t[i] == '%' && t[i
                + 1] == '2' && t[i + 2] == '0') by {
                assert(t[i] == s[i + 1] && t[i + 1] == s[i + 2] && t[i + 2] == s[i + 3]);
            }
            assert(r =~= s);
        }
    }
}

/// The image URL to fetch: what comes before the first encoded space (`%20`) of the
/// `src` value, or all of it when it has none.
pub fn sanitize_image_url(url: &str) -> (r: &str)
    ensures
        r@ == before_encoded_space(url@),
{
    let cs = chars_of(url);
    let n: usize = cs.len();
    let mut i: usize = 0;
    while i < n
        invariant
            cs@ == url@,
            n == cs.len(),
            i <= n,
            forall|j: int| 0 <= j < i ==> !encoded_space_at(url@, j),
        decreases n - i,
    {
        if n - i >= 3 && cs[i] == '%' && cs[i + 1] == '2' && cs[i + 2] == '0' {
            proof {
                lemma_before_encoded_space(url@, i as int);
                assert(encoded_space_at(url@.skip(i as int), 0));
            }
            return url.substring_char(0, i);
        }
        i += 1;
    }
    proof {
        lemma_before_encoded_space(url@, n as int);
        assert(url@.skip(n as int).len() == 0);
        assert(url@.take(n as int) =~= url@);
    }
    url
}

// ---------------------------------------------------------------------------
// Encoding the fetched images.
// ---------------------------------------------------------------------------

/// The error type of the `image` crate.
#[verifier::external_type_specification]
#[verifier::external_body]
pub struct ExImageError(image::ImageError);

/// What the `image` crate makes of an image file and a box: its format guessed from its
/// first bytes, decoded, turned to grayscale, resized (nearest neighbour, aspect ratio
/// kept) to fit within `width` x `height`, and written as JPEG; `None` where one of these
/// steps fails.
pub uninterp spec fn grayscale_jpeg_within(input: Seq<u8>, width: u32, height: u32) -> Option<Seq<u8>>;

/// Converts an image to a grayscale JPEG that fits a box.
/// Trusted: `image::guess_format`, `image::load`, `DynamicImage::grayscale`,
/// `DynamicImage::resize` with `FilterType::Nearest`, and `DynamicImage::write_to` with
/// `ImageFormat::Jpeg`; the contract claims that the outcome is a function of the bytes
/// and the box alone, named `grayscale_jpeg_within`.
#[verifier::external_body]
fn grayscale_jpeg_fit(input: &[u8], width: u32, height: u32) -> (r: Result<Vec<u8>, image::ImageError>)
    ensures
        match r {
            Ok(v) => grayscale_jpeg_within(input@, width, height) == Some(v@),
            Err(_) => grayscale_jpeg_within(input@, width, height) is None,
        },
{
    let format = image::guess_format(input)?;
    let output = image::load(std::io::Cursor::new(input), format)?;
    let output = output.grayscale().resize(width, height, image::imageops::FilterType::Nearest);
    let mut buf = std::io::Cursor::new(Vec::new());
    output.write_to(&mut buf, image::ImageFormat::Jpeg)?;
    Ok(buf.into_inner())
}

/// The width of kindle's page, in pixels, that images are made to fit.
pub const KINDLE_WIDTH: u32 = 1080;

/// The height of kindle's page, in pixels, that images are made to fit.
pub const KINDLE_HEIGHT: u32 = 1430;

/// Compresses an image for kindle: grayscale JPEG within 1080 x 1430.
fn compress_image(input: &[u8]) -> (r: Result<Vec<u8>, image::ImageError>)
    ensures
        match r {
            Ok(v) => grayscale_jpeg_within(input@, 1080, 1430) == Some(v@),
            Err(_) => grayscale_jpeg_within(input@, 1080, 1430) is None,
        },
{
    grayscale_jpeg_fit(input, KINDLE_WIDTH, KINDLE_HEIGHT)
}

/// The character of the standard base64 alphabet for a 6-bit value.
pub open spec fn base64_digit(v: int) -> char {
    if v < 26 {
        (65 + v) as char
    } else if v < 52 {
        (97 + v - 26) as char
    } else if v < 62 {
        (48 + v - 52) as char
    } else if v == 62 {
        '+'
    } else {
        '/'
    }
}

/// Standard base64 with `=` padding: each group of three bytes becomes four characters.
pub open spec fn base64_of(b: Seq<u8>) -> Seq<char>
    decreases b.len(),
{
    if b.len() == 0 {
        seq![]
    } else if b.len() == 1 {
        seq![base64_digit(b[0] as int / 4), base64_digit((b[0] as int % 4) * 16), '=', '=']
    } else if b.len() == 2 {
        seq![
            base64_digit(b[0] as int / 4),
            base64_digit((b[0] as int % 4) * 16 + b[1] as int / 16),
            base64_digit((b[1] as int % 16) * 4),
            '=',
        ]
    } else {
        seq![
            base64_digit(b[0] as int / 4),
            base64_digit((b[0] as int % 4) * 16 + b[1] as int / 16),
            base64_digit((b[1] as int % 16) * 4 + b[2] as int / 64),
            base64_digit(b[2] as int % 64),
        ] + base64_of(b.skip(3))
    }
}

/// Base64 writes four characters for every three bytes or part of three bytes.
pub proof fn lemma_base64_length(b: Seq<u8>)
    ensures
        base64_of(b).len() == 4 * ((b.len() + 2) / 3),
    decreases b.len(),
{
    if b.len() >= 3 {
        lemma_base64_length(b.skip(3));
    }
}

/// Encodes bytes in base64.
/// Trusted: `base64::Engine::encode` with the `STANDARD` engine (standard alphabet, with
/// padding), as the crate documents it.
#[verifier::external_body]
fn base64_encode(bytes: &[u8]) -> (r: String)
    ensures
        r@ == base64_of(bytes@),
{
    base64::Engine::encode(&base64::engine::general_purpose::STANDARD, bytes)
}

/// Why a fetched image could not be encoded.
pub enum EncodeError {
    /// The `image` crate could not guess, decode or re-encode it.
    Image(image::ImageError),
}

/// The base64 text of the grayscale JPEG that a fetched image is compressed to.
pub fn encode_image(fetched: &Vec<u8>) -> (r: Result<String, EncodeError>)
    ensures
        match r {
            Ok(text) => grayscale_jpeg_within(fetched@, 1080, 1430) is Some && text@ == base64_of(
                grayscale_jpeg_within(fetched@, 1080, 1430)->0,
            ),
            Err(_) => grayscale_jpeg_within(fetched@, 1080, 1430) is None,
        },
{
    match compress_image(fetched.as_slice()) {
        Ok(jpeg) => Ok(base64_encode(jpeg.as_slice())),
        Err(e) => Err(EncodeError::Image(e)),
    }
}

// ---------------------------------------------------------------------------
// Laws of the transformation.
// ---------------------------------------------------------------------------

/// The data URIs of a list of encoded images.
pub open spec fn data_uris(encoded: Seq<Seq<char>>) -> Seq<Seq<char>> {
    encoded.map_values(|e: Seq<char>| image_data_uri(e))
}

/// The sources of a run of nodes with one more node at the end.
proof fn lemma_sources_of_push(nodes: Seq<NodeView>, node: NodeView)
    ensures
        sources_of(nodes.push(node)) == sources_of(nodes) + sources(node),
{
    assert(nodes.push(node).drop_last() =~= nodes);
}

/// After inlining, the sources of the images of a node are exactly the data URIs of the
/// encoded images, one per image, in document order.
pub proof fn lemma_inlined_sources(node: NodeView, data: Seq<Seq<char>>)
    requires
        data.len() == sources(node).len(),
    ensures
        sources(with_inlined(node, data)) == data_uris(data),
    decreases node, 1nat,
{
    match node {
        NodeView::Element { name, attrs, children } => {
            let k = own_source(node).len();
            lemma_inlined_children_sources(children, data.skip(k as int));
            let n2 = with_inlined(node, data);
            if k == 1 {
                let a2 = seq![src_attr(image_data_uri(data[0]))];
                assert(src_of(a2.drop_first()) is None);
                assert(src_of(a2) == Some(image_data_uri(data[0])));
                assert(own_source(n2) == seq![image_data_uri(data[0])]);
                assert(data_uris(data) =~= seq![image_data_uri(data[0])] + data_uris(data.skip(1)));
            } else {
                assert(own_source(n2) == own_source(node));
                assert(data.skip(0) =~= data);
                assert(data_uris(data) =~= seq![] + data_uris(data));
            }
        },
        NodeView::Document(children) => lemma_inlined_children_sources(children, data),
        NodeView::Fragment(children) => lemma_inlined_children_sources(children, data),
        _ => {
            assert(data_uris(data) =~= seq![]);
        },
    }
}

/// After inlining, the sources of the images of a run of siblings are the data URIs of the
/// encoded images, in order.
pub proof fn lemma_inlined_children_sources(nodes: Seq<NodeView>, data: Seq<Seq<char>>)
    requires
        data.len() == sources_of(nodes).len(),
    ensures
        sources_of(inlined_children(nodes, data)) == data_uris(data),
    decreases nodes, 0nat,
{
    if nodes.len() == 0 {
        assert(data_uris(data) =~= seq![]);
    } else {
        let k = sources_of(nodes.drop_last()).len();
        lemma_inlined_children_sources(nodes.drop_last(), data.take(k as int));
        lemma_inlined_sources(nodes.last(), data.skip(k as int));
        lemma_sources_of_push(
            inlined_children(nodes.drop_last(), data.take(k as int)),
            with_inlined(nodes.last(), data.skip(k as int)),
        );
        assert(data_uris(data) =~= data_uris(data.take(k as int)) + data_uris(data.skip(k as int)));
    }
}

/// Whether an element with the given local name stands below a node.
pub open spec fn has_named_below(node: NodeView, local: Seq<char>) -> bool
    decreases node, 1nat,
{
    match node {
        NodeView::Element { children, .. } => has_named_in(children, local),
        NodeView::Document(children) => has_named_in(children, local),
        NodeView::Fragment(children) => has_named_in(children, local),
        _ => false,
    }
}

/// Whether an element with the given local name stands in or below a run of siblings.
pub open spec fn has_named_in(nodes: Seq<NodeView>, local: Seq<char>) -> bool
    decreases nodes, 0nat,
{
    nodes.len() > 0 && (has_named_in(nodes.drop_last(), local) || is_element_named(nodes.last(), local)
        || has_named_below(nodes.last(), local))
}

/// A run of siblings with one more at the end holds a named element where either part does.
proof fn lemma_has_named_in_append(nodes: Seq<NodeView>, more: Seq<NodeView>, local: Seq<char>)
    ensures
        has_named_in(nodes + more, local) == (has_named_in(nodes, local) || has_named_in(more, local)),
    decreases more.len(),
{
    if more.len() == 0 {
        assert(nodes + more =~= nodes);
    } else {
        lemma_has_named_in_append(nodes, more.drop_last(), local);
        assert((nodes + more).drop_last() =~= nodes + more.drop_last());
    }
}

/// Removing the elements of one name removes all of them: none is left below the node,
/// and removing them keeps out any other name that was already absent.
pub proof fn lemma_without_removes(node: NodeView, local: Seq<char>, other: Seq<char>)
    ensures
        !has_named_below(without(node, local), local),
        !has_named_below(node, other) ==> !has_named_below(without(node, local), other),
    decreases node, 1nat,
{
    match node {
        NodeView::Element { children, .. } => lemma_without_of_removes(children, local, other),
        NodeView::Document(children) => lemma_without_of_removes(children, local, other),
        NodeView::Fragment(children) => lemma_without_of_removes(children, local, other),
        _ => {},
    }
}

/// Removing the elements of one name from a run of siblings removes all of them.
pub proof fn lemma_without_of_removes(nodes: Seq<NodeView>, local: Seq<char>, other: Seq<char>)
    ensures
        !has_named_in(without_of(nodes, local), local),
        !has_named_in(nodes, other) ==> !has_named_in(without_of(nodes, local), other),
    decreases nodes, 0nat,
{
    if nodes.len() > 0 {
        let last = nodes.last();
        lemma_without_of_removes(nodes.drop_last(), local, other);
        lemma_without_removes(last, local, other);
        let tail: Seq<NodeView> = if is_element_named(last, local) {
            seq![]
        } else {
            seq![without(last, local)]
        };
        lemma_has_named_in_append(without_of(nodes.drop_last(), local), tail, local);
        lemma_has_named_in_append(without_of(nodes.drop_last(), local), tail, other);
        assert(without_of(nodes, local) == without_of(nodes.drop_last(), local) + tail);
        if tail.len() == 1 {
            let w = without(last, local);
            assert(tail.drop_last() =~= Seq::<NodeView>::empty());
            assert(!has_named_in(tail.drop_last(), local));
            assert(!has_named_in(tail.drop_last(), other));
            assert(tail.last() == w);
            assert(is_element_named(w, local) == is_element_named(last, local));
            assert(is_element_named(w, other) == is_element_named(last, other));
            assert(has_named_in(tail, local) == (is_element_named(w, local) || has_named_below(w, local)));
            assert(has_named_in(tail, other) == (is_element_named(w, other) || has_named_below(w, other)));
        } else {
            assert(!has_named_in(tail, local));
            assert(!has_named_in(tail, other));
        }
    }
}

/// The document made ready for kindle holds no `<picture>` and no `<iframe>` element.
pub proof fn lemma_ready_document_clean(doc: NodeView, encoded: Seq<Seq<char>>)
    ensures
        !has_named_below(ready_document(doc, encoded), "picture"@),
        !has_named_below(ready_document(doc, encoded), "iframe"@),
{
    let h = hoisted(with_inlined(doc, encoded));
    lemma_without_removes(h, "picture"@, "iframe"@);
    lemma_without_removes(without(h, "picture"@), "iframe"@, "picture"@);
}

} // verus!
