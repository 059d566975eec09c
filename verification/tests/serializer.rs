use tlrl::dom::{Attribute, HtmlNode, Namespace, QualName};
use tlrl::serializer::{serialize, HtmlSerializer, SerializeOpts, TraversalScope};

fn html(local: &str) -> QualName {
    QualName { ns: Namespace::Html, local: local.to_string() }
}

fn attr(ns: Namespace, local: &str, value: &str) -> Attribute {
    Attribute { name: QualName { ns, local: local.to_string() }, value: value.to_string() }
}

fn el(local: &str, attrs: Vec<Attribute>, children: Vec<HtmlNode>) -> HtmlNode {
    HtmlNode::Element { name: html(local), attrs, children }
}

fn text(t: &str) -> HtmlNode {
    HtmlNode::Text(t.to_string())
}

fn doc(children: Vec<HtmlNode>) -> HtmlNode {
    HtmlNode::Document(children)
}

#[test]
fn text_is_escaped_with_kindle_entities() {
    let d = doc(vec![el("p", vec![], vec![text("a < b & c > d \u{2014} \u{201C}q\u{201D} \u{2026} \"x\"")])]);
    let out = serialize(&d, SerializeOpts::default());
    assert_eq!(out, "<p>a &lt; b &amp; c &gt; d &mdash; &ldquo;q&rdquo; &hellip; \"x\"</p>");
}

#[test]
fn every_named_entity() {
    let input = "&\u{00A0}\u{2002}\u{2003}\u{2009}\u{200C}\u{200D}\u{200E}\u{200F}\u{2013}\u{2014}\u{2018}\u{2019}\u{201A}\u{201C}\u{201D}\u{201E}\u{2020}\u{2021}\u{2030}\u{2039}\u{203A}\u{2022}\u{2026}\u{2032}\u{2033}\u{203E}\u{2044}";
    let d = doc(vec![text(input)]);
    let out = serialize(&d, SerializeOpts::default());
    assert_eq!(
        out,
        "&amp;&nbsp;&ensp;&emsp;&thinsp;&zwnj;&zwj;&lrm;&rlm;&ndash;&mdash;&lsquo;&rsquo;&sbquo;&ldquo;&rdquo;&bdquo;&dagger;&Dagger;&permil;&lsaquo;&rsaquo;&bull;&hellip;&prime;&Prime;&oline;&frasl;"
    );
}

#[test]
fn attribute_values_escape_quotes_not_brackets() {
    let d = doc(vec![el("a", vec![attr(Namespace::Empty, "title", "say \"<hi>\" & go")], vec![])]);
    let out = serialize(&d, SerializeOpts::default());
    assert_eq!(out, "<a title=\"say &quot;<hi>&quot; &amp; go\"></a>");
}

#[test]
fn attribute_namespace_prefixes() {
    let d = doc(vec![el(
        "svg",
        vec![
            attr(Namespace::Xml, "lang", "en"),
            attr(Namespace::XmlNs, "xmlns", "u1"),
            attr(Namespace::XmlNs, "xlink", "u2"),
            attr(Namespace::XLink, "href", "#a"),
            attr(Namespace::Other("urn:x".to_string()), "k", "v"),
        ],
        vec![],
    )]);
    let out = serialize(&d, SerializeOpts::default());
    assert_eq!(
        out,
        "<svg xml:lang=\"en\" xmlns=\"u1\" xmlns:xlink=\"u2\" xlink:href=\"#a\" unknown_namespace:k=\"v\"></svg>"
    );
}

#[test]
fn void_elements_have_no_end_tag() {
    let d = doc(vec![el("p", vec![], vec![
        text("a"),
        el("br", vec![], vec![]),
        el("img", vec![attr(Namespace::Empty, "src", "x.png")], vec![]),
    ])]);
    let out = serialize(&d, SerializeOpts::default());
    assert_eq!(out, "<p>a<br><img src=\"x.png\"></p>");
}

#[test]
fn children_of_void_elements_are_not_written_as_tags() {
    let d = doc(vec![el("br", vec![], vec![el("b", vec![], vec![text("x")])])]);
    let out = serialize(&d, SerializeOpts::default());
    assert_eq!(out, "<br>x");
}

#[test]
fn void_name_outside_html_namespace_is_closed() {
    let d = doc(vec![HtmlNode::Element {
        name: QualName { ns: Namespace::Svg, local: "img".to_string() },
        attrs: vec![],
        children: vec![],
    }]);
    assert_eq!(serialize(&d, SerializeOpts::default()), "<img></img>");
}

#[test]
fn raw_text_elements_are_not_escaped() {
    let d = doc(vec![
        el("script", vec![], vec![text("if (a < b && c) {}")]),
        el("style", vec![], vec![text("a > b")]),
    ]);
    let out = serialize(&d, SerializeOpts::default());
    assert_eq!(out, "<script>if (a < b && c) {}</script><style>a > b</style>");
}

#[test]
fn noscript_depends_on_scripting() {
    let d = doc(vec![el("noscript", vec![], vec![text("<b>")])]);
    assert_eq!(serialize(&d, SerializeOpts::default()), "<noscript><b></noscript>");
    let opts = SerializeOpts {
        scripting_enabled: false,
        traversal_scope: TraversalScope::ChildrenOnly(None),
        create_missing_parent: false,
    };
    assert_eq!(serialize(&d, opts), "<noscript>&lt;b&gt;</noscript>");
}

#[test]
fn comments_doctypes_and_processing_instructions() {
    let d = doc(vec![
        HtmlNode::Doctype("html".to_string()),
        HtmlNode::Comment(" c < d ".to_string()),
        HtmlNode::ProcessingInstruction("xml".to_string(), "v=1".to_string()),
    ]);
    assert_eq!(serialize(&d, SerializeOpts::default()), "<!DOCTYPE html><!-- c < d --><?xml v=1>");
}

#[test]
fn traversal_scopes() {
    let p = el("p", vec![], vec![text("a<")]);
    assert_eq!(serialize(&p, SerializeOpts::default()), "a&lt;");
    let whole = SerializeOpts {
        scripting_enabled: true,
        traversal_scope: TraversalScope::IncludeNode,
        create_missing_parent: false,
    };
    assert_eq!(serialize(&p, whole), "<p>a&lt;</p>");
    let in_script = SerializeOpts {
        scripting_enabled: true,
        traversal_scope: TraversalScope::ChildrenOnly(Some(html("script"))),
        create_missing_parent: false,
    };
    assert_eq!(serialize(&p, in_script), "a<");
    let t = text("x");
    assert_eq!(serialize(&t, SerializeOpts::default()), "");
}

#[test]
fn serializer_events_directly() {
    let mut s = HtmlSerializer::new(SerializeOpts::default());
    s.start_elem(html("div"), &vec![attr(Namespace::Empty, "id", "m")]);
    s.write_text("1 & 2");
    s.start_elem(html("hr"), &vec![]);
    s.end_elem(html("hr"));
    s.write_comment("k");
    s.write_doctype("html");
    s.write_processing_instruction("t", "d");
    s.end_elem(html("div"));
    assert_eq!(s.into_string(), "<div id=\"m\">1 &amp; 2<hr><!--k--><!DOCTYPE html><?t d></div>");
}

#[test]
fn missing_parent_is_tolerated_when_asked() {
    let opts = SerializeOpts {
        scripting_enabled: true,
        traversal_scope: TraversalScope::IncludeNode,
        create_missing_parent: true,
    };
    let mut s = HtmlSerializer::new(opts);
    s.end_elem(html("p"));
    s.end_elem(html("div"));
    s.write_text("<");
    s.start_elem(html("b"), &vec![]);
    assert_eq!(s.into_string(), "</p></div>&lt;<b>");
}

#[test]
fn nested_elements_balance() {
    let d = doc(vec![el("div", vec![], vec![
        el("ul", vec![], vec![el("li", vec![], vec![text("1")]), el("li", vec![], vec![text("2")])]),
        el("p", vec![], vec![]),
    ])]);
    assert_eq!(
        serialize(&d, SerializeOpts::default()),
        "<div><ul><li>1</li><li>2</li></ul><p></p></div>"
    );
}

#[test]
fn namespace_from_url() {
    assert!(matches!(Namespace::from_url("http://www.w3.org/1999/xhtml"), Namespace::Html));
    assert!(matches!(Namespace::from_url(""), Namespace::Empty));
    assert!(matches!(Namespace::from_url("http://www.w3.org/2000/svg"), Namespace::Svg));
    assert!(matches!(Namespace::from_url("http://www.w3.org/1998/Math/MathML"), Namespace::MathMl));
    assert!(matches!(Namespace::from_url("http://www.w3.org/XML/1998/namespace"), Namespace::Xml));
    assert!(matches!(Namespace::from_url("http://www.w3.org/2000/xmlns/"), Namespace::XmlNs));
    assert!(matches!(Namespace::from_url("http://www.w3.org/1999/xlink"), Namespace::XLink));
    match Namespace::from_url("urn:other") {
        Namespace::Other(u) => assert_eq!(u, "urn:other"),
        _ => panic!("expected another namespace"),
    }
}
