use tlrl::dom::{Attribute, HtmlNode, Namespace, QualName};
use tlrl::parser::{data_uri, encode_image, find_src, image_sources, inline_images, parse_page, sanitize_image_url};
use tlrl::serializer::{serialize, SerializeOpts};

fn name(local: &str) -> QualName {
    QualName { ns: Namespace::Html, local: local.to_string() }
}

fn attr(local: &str, value: &str) -> Attribute {
    Attribute { name: QualName { ns: Namespace::Empty, local: local.to_string() }, value: value.to_string() }
}

fn el(local: &str, attrs: Vec<Attribute>, children: Vec<HtmlNode>) -> HtmlNode {
    HtmlNode::Element { name: name(local), attrs, children }
}

fn text(t: &str) -> HtmlNode {
    HtmlNode::Text(t.to_string())
}

#[test]
fn sanitize_cuts_at_first_encoded_space() {
    assert_eq!(sanitize_image_url("http://a/b.jpg%20800w,%20c.jpg"), "http://a/b.jpg");
    assert_eq!(sanitize_image_url("http://a/b.jpg"), "http://a/b.jpg");
    assert_eq!(sanitize_image_url("%20x"), "");
    assert_eq!(sanitize_image_url(""), "");
    assert_eq!(sanitize_image_url("a%2"), "a%2");
    assert_eq!(sanitize_image_url("a%2%20b"), "a%2");
}

#[test]
fn find_src_takes_the_plain_src_attribute() {
    let attrs = vec![
        Attribute { name: QualName { ns: Namespace::XLink, local: "src".to_string() }, value: "no".to_string() },
        attr("alt", "x"),
        attr("src", "yes"),
    ];
    assert_eq!(find_src(&attrs).map(|s| s.as_str()), Some("yes"));
    assert!(find_src(&vec![attr("alt", "x")]).is_none());
}

#[test]
fn image_sources_in_document_order() {
    let d = HtmlNode::Document(vec![
        el("img", vec![attr("src", "1.png")], vec![]),
        el("div", vec![], vec![
            el("img", vec![attr("alt", "no source")], vec![]),
            el("picture", vec![], vec![el("img", vec![attr("src", "2.png")], vec![])]),
        ]),
        el("img", vec![attr("alt", "a"), attr("src", "3.png")], vec![]),
    ]);
    assert_eq!(image_sources(&d), vec!["1.png".to_string(), "2.png".to_string(), "3.png".to_string()]);
}

#[test]
fn data_uri_has_jpeg_prefix() {
    assert_eq!(data_uri("QUJD"), "data:image/jpeg;base64, QUJD");
}

#[test]
fn inline_replaces_attributes_by_data_uri() {
    let d = HtmlNode::Document(vec![el("p", vec![], vec![
        text("x"),
        el("img", vec![attr("alt", "a"), attr("src", "1.png"), attr("width", "3")], vec![]),
        el("img", vec![attr("alt", "kept")], vec![]),
    ])]);
    let out = inline_images(&d, &vec!["QUJD".to_string()]);
    assert_eq!(
        out,
        "<p>x<img src=\"data:image/jpeg;base64, QUJD\"><img alt=\"kept\"></p>"
    );
}

#[test]
fn pictures_are_replaced_by_their_first_image() {
    let d = HtmlNode::Document(vec![el("div", vec![], vec![
        text("a"),
        el("picture", vec![], vec![
            el("source", vec![attr("srcset", "s.webp")], vec![]),
            el("img", vec![attr("src", "1.png")], vec![]),
            el("img", vec![attr("src", "2.png")], vec![]),
        ]),
        text("b"),
    ])]);
    let out = inline_images(&d, &vec!["AAA".to_string(), "BBB".to_string()]);
    assert_eq!(out, "<div>a<img src=\"data:image/jpeg;base64, AAA\">b</div>");
}

#[test]
fn picture_without_image_is_removed() {
    let d = HtmlNode::Document(vec![text("a"), el("picture", vec![], vec![el("source", vec![], vec![])]), text("b")]);
    assert_eq!(inline_images(&d, &vec![]), "ab");
    let page = parse_page("<picture></picture>");
    assert_eq!(inline_images(&page, &vec![]), "<html><head></head><body></body></html>");
}

#[test]
fn picture_whose_image_has_no_source_just_goes() {
    let d = HtmlNode::Document(vec![el("picture", vec![], vec![el("img", vec![attr("alt", "x")], vec![])]), text("t")]);
    assert_eq!(inline_images(&d, &vec![]), "t");
}

#[test]
fn iframes_are_removed() {
    let d = HtmlNode::Document(vec![
        el("p", vec![], vec![text("1")]),
        el("iframe", vec![attr("src", "http://video")], vec![text("fallback")]),
        el("div", vec![], vec![el("iframe", vec![], vec![]), text("2")]),
    ]);
    assert_eq!(inline_images(&d, &vec![]), "<p>1</p><div>2</div>");
}

#[test]
fn nested_pictures_leave_one_image() {
    let d = HtmlNode::Document(vec![el("picture", vec![], vec![
        el("picture", vec![], vec![el("img", vec![attr("src", "1.png")], vec![])]),
    ])]);
    assert_eq!(
        inline_images(&d, &vec!["Zg==".to_string()]),
        "<img src=\"data:image/jpeg;base64, Zg==\">"
    );
}

fn png_bytes() -> Vec<u8> {
    let img = image::RgbImage::from_fn(4, 3, |x, y| image::Rgb([(x * 60) as u8, (y * 80) as u8, 200]));
    let mut buf = std::io::Cursor::new(Vec::new());
    image::DynamicImage::ImageRgb8(img).write_to(&mut buf, image::ImageFormat::Png).unwrap();
    buf.into_inner()
}

#[test]
fn encode_image_gives_base64_grayscale_jpeg() {
    let png = png_bytes();
    let text = encode_image(&png).ok().unwrap();
    assert!(text.starts_with("/9j/"));
    let jpeg = base64::Engine::decode(&base64::engine::general_purpose::STANDARD, text.as_bytes()).unwrap();
    assert_eq!(&jpeg[..2], &[0xFF, 0xD8]);
    let back = image::load_from_memory(&jpeg).unwrap();
    assert_eq!(back.color(), image::ColorType::L8);
    assert_eq!((back.width(), back.height()), (1080, 810));
}

#[test]
fn encode_image_rejects_what_is_not_an_image() {
    assert!(encode_image(&b"not an image at all".to_vec()).is_err());
}

#[test]
fn empty_document_gives_empty_page() {
    let d = HtmlNode::Document(vec![]);
    assert!(image_sources(&d).is_empty());
    assert_eq!(inline_images(&d, &vec![]), "");
}

#[test]
fn parsed_page_keeps_structure_and_sources() {
    let d = parse_page("<p>a &amp; b<img src=\"x.png\" alt=\"y\"><picture><img src=\"z\"></picture></p>");
    assert!(matches!(d, HtmlNode::Document(_)));
    assert_eq!(image_sources(&d), vec!["x.png".to_string(), "z".to_string()]);
    assert_eq!(
        serialize(&d, SerializeOpts::default()),
        "<html><head></head><body><p>a &amp; b<img alt=\"y\" src=\"x.png\"><picture><img src=\"z\"></picture></p></body></html>"
    );
}

#[test]
fn page_from_text_to_kindle_html() {
    let d = parse_page("<div><iframe src=\"v\"></iframe><img src=\"a.png\"></div>");
    assert_eq!(
        inline_images(&d, &vec!["QQ==".to_string()]),
        "<html><head></head><body><div><img src=\"data:image/jpeg;base64, QQ==\"></div></body></html>"
    );
}
