//! An HTML serializer tuned for kindle: the typographic characters that kindle shows
//! badly are written as named entities.
use vstd::prelude::*;
use crate::dom::{
    attrs_view, lemma_nodes_view_take, nodes_view, AttrView, Attribute, HtmlNode,
    NameView, Namespace, NodeView, QualName,
};
use crate::text::{push_char, same_text};

verus! {

broadcast use vstd::string::group_string_axioms;

/// Which part of the root node is written.
pub enum TraversalScope {
    /// The root node itself and everything below it.
    IncludeNode,
    /// Only the children of the root node; the name, when given, is that of the root
    /// element, so that text directly below it is escaped as it would be inside it.
    ChildrenOnly(Option<QualName>),
}

/// Options of the serializer.
pub struct SerializeOpts {
    /// Whether `<noscript>` content is raw text (scripting enabled) or escaped.
    pub scripting_enabled: bool,
    /// Which part of the root node is written.
    pub traversal_scope: TraversalScope,
    /// Whether an unbalanced end tag is tolerated (true) or a caller error (false).
    pub create_missing_parent: bool,
}

/// What the serializer knows of each open element.
pub struct ElemInfo {
    /// The local name, for elements in the HTML namespace.
    pub html_name: Option<String>,
    /// Whether the element is void, so that what is below it is not written as tags.
    pub ignore_children: bool,
    /// Whether a child element has been written below it.
    pub processed_first_child: bool,
}

/// A stack entry as the model sees it.
pub struct InfoView {
    pub html_name: Option<Seq<char>>,
    pub ignore_children: bool,
    pub processed_first_child: bool,
}

/// The model of an optional name.
pub open spec fn opt_view(name: Option<String>) -> Option<Seq<char>> {
    match name {
        Some(n) => Some(n@),
        None => None,
    }
}

impl View for ElemInfo {
    type V = InfoView;

    open spec fn view(&self) -> InfoView {
        InfoView {
            html_name: opt_view(self.html_name),
            ignore_children: self.ignore_children,
            processed_first_child: self.processed_first_child,
        }
    }
}

/// The serializer: the stack of open elements and the text written so far.
pub struct HtmlSerializer {
    opts: SerializeOpts,
    stack: Vec<ElemInfo>,
    out: String,
}

// ---------------------------------------------------------------------------
// What is written, as spec functions.
// ---------------------------------------------------------------------------

/// Whether a character is written as a named entity: the characters that kindle shows
/// badly and `&` always, the quote in attribute values, the angle brackets in text.
pub open spec fn has_entity(c: char, attr_mode: bool) -> bool {
    ||| c == '&'
    ||| c == '\u{00A0}'
    ||| c == '\u{2002}'
    ||| c == '\u{2003}'
    ||| c == '\u{2009}'
    ||| c == '\u{200C}'
    ||| c == '\u{200D}'
    ||| c == '\u{200E}'
    ||| c == '\u{200F}'
    ||| c == '\u{2013}'
    ||| c == '\u{2014}'
    ||| c == '\u{2018}'
    ||| c == '\u{2019}'
    ||| c == '\u{201A}'
    ||| c == '\u{201C}'
    ||| c == '\u{201D}'
    ||| c == '\u{201E}'
    ||| c == '\u{2020}'
    ||| c == '\u{2021}'
    ||| c == '\u{2030}'
    ||| c == '\u{2039}'
    ||| c == '\u{203A}'
    ||| c == '\u{2022}'
    ||| c == '\u{2026}'
    ||| c == '\u{2032}'
    ||| c == '\u{2033}'
    ||| c == '\u{203E}'
    ||| c == '\u{2044}'
    ||| c == '"' && attr_mode
    ||| c == '<' && !attr_mode
    ||| c == '>' && !attr_mode
}

/// The name of the entity that a character is written as.
pub open spec fn entity_name(c: char) -> Seq<char> {
    if c == '&' {
        "amp"@
    } else if c == '\u{00A0}' {
        "nbsp"@
    } else if c == '\u{2002}' {
        "ensp"@
    } else if c == '\u{2003}' {
        "emsp"@
    } else if c == '\u{2009}' {
        "thinsp"@
    } else if c == '\u{200C}' {
        "zwnj"@
    } else if c == '\u{200D}' {
        "zwj"@
    } else if c == '\u{200E}' {
        "lrm"@
    } else if c == '\u{200F}' {
        "rlm"@
    } else if c == '\u{2013}' {
        "ndash"@
    } else if c == '\u{2014}' {
        "mdash"@
    } else if c == '\u{2018}' {
        "lsquo"@
    } else if c == '\u{2019}' {
        "rsquo"@
    } else if c == '\u{201A}' {
        "sbquo"@
    } else if c == '\u{201C}' {
        "ldquo"@
    } else if c == '\u{201D}' {
        "rdquo"@
    } else if c == '\u{201E}' {
        "bdquo"@
    } else if c == '\u{2020}' {
        "dagger"@
    } else if c == '\u{2021}' {
        "Dagger"@
    } else if c == '\u{2030}' {
        "permil"@
    } else if c == '\u{2039}' {
        "lsaquo"@
    } else if c == '\u{203A}' {
        "rsaquo"@
    } else if c == '\u{2022}' {
        "bull"@
    } else if c == '\u{2026}' {
        "hellip"@
    } else if c == '\u{2032}' {
        "prime"@
    } else if c == '\u{2033}' {
        "Prime"@
    } else if c == '\u{203E}' {
        "oline"@
    } else if c == '\u{2044}' {
        "frasl"@
    } else if c == '"' {
        "quot"@
    } else if c == '<' {
        "lt"@
    } else {
        "gt"@
    }
}

/// The text written for one character: its named entity when it has one, else the
/// character itself.
pub open spec fn escape_char(c: char, attr_mode: bool) -> Seq<char> {
    if has_entity(c, attr_mode) {
        seq!['&'] + entity_name(c) + seq![';']
    } else {
        seq![c]
    }
}

/// The character that an entity name stands for, among those the serializer writes,
/// read letter by letter.
pub open spec fn entity_char(name: Seq<char>) -> Option<char> {
    if name.len() == 3 && name[0] == 'a' && name[1] == 'm' && name[2] == 'p' {
        Some('&')
    } else if name.len() == 4 && name[0] == 'n' && name[1] == 'b' && name[2] == 's' && name[3] == 'p' {
        Some('\u{00A0}')
    } else if name.len() == 4 && name[0] == 'e' && name[1] == 'n' && name[2] == 's' && name[3] == 'p' {
        Some('\u{2002}')
    } else if name.len() == 4 && name[0] == 'e' && name[1] == 'm' && name[2] == 's' && name[3] == 'p' {
        Some('\u{2003}')
    } else if name.len() == 6 && name[0] == 't' && name[1] == 'h' && name[2] == 'i' && name[3] == 'n' && name[4] == 's' && name[5] == 'p' {
        Some('\u{2009}')
    } else if name.len() == 4 && name[0] == 'z' && name[1] == 'w' && name[2] == 'n' && name[3] == 'j' {
        Some('\u{200C}')
    } else if name.len() == 3 && name[0] == 'z' && name[1] == 'w' && name[2] == 'j' {
        Some('\u{200D}')
    } else if name.len() == 3 && name[0] == 'l' && name[1] == 'r' && name[2] == 'm' {
        Some('\u{200E}')
    } else if name.len() == 3 && name[0] == 'r' && name[1] == 'l' && name[2] == 'm' {
        Some('\u{200F}')
    } else if name.len() == 5 && name[0] == 'n' && name[1] == 'd' && name[2] == 'a' && name[3] == 's' && name[4] == 'h' {
        Some('\u{2013}')
    } else if name.len() == 5 && name[0] == 'm' && name[1] == 'd' && name[2] == 'a' && name[3] == 's' && name[4] == 'h' {
        Some('\u{2014}')
    } else if name.len() == 5 && name[0] == 'l' && name[1] == 's' && name[2] == 'q' && name[3] == 'u' && name[4] == 'o' {
        Some('\u{2018}')
    } else if name.len() == 5 && name[0] == 'r' && name[1] == 's' && name[2] == 'q' && name[3] == 'u' && name[4] == 'o' {
        Some('\u{2019}')
    } else if name.len() == 5 && name[0] == 's' && name[1] == 'b' && name[2] == 'q' && name[3] == 'u' && name[4] == 'o' {
        Some('\u{201A}')
    } else if name.len() == 5 && name[0] == 'l' && name[1] == 'd' && name[2] == 'q' && name[3] == 'u' && name[4] == 'o' {
        Some('\u{201C}')
    } else if name.len() == 5 && name[0] == 'r' && name[1] == 'd' && name[2] == 'q' && name[3] == 'u' && name[4] == 'o' {
        Some('\u{201D}')
    } else if name.len() == 5 && name[0] == 'b' && name[1] == 'd' && name[2] == 'q' && name[3] == 'u' && name[4] == 'o' {
        Some('\u{201E}')
    } else if name.len() == 6 && name[0] == 'd' && name[1] == 'a' && name[2] == 'g' && name[3] == 'g' && name[4] == 'e' && name[5] == 'r' {
        Some('\u{2020}')
    } else if name.len() == 6 && name[0] == 'D' && name[1] == 'a' && name[2] == 'g' && name[3] == 'g' && name[4] == 'e' && name[5] == 'r' {
        Some('\u{2021}')
    } else if name.len() == 6 && name[0] == 'p' && name[1] == 'e' && name[2] == 'r' && name[3] == 'm' && name[4] == 'i' && name[5] == 'l' {
        Some('\u{2030}')
    } else if name.len() == 6 && name[0] == 'l' && name[1] == 's' && name[2] == 'a' && name[3] == 'q' && name[4] == 'u' && name[5] == 'o' {
        Some('\u{2039}')
    } else if name.len() == 6 && name[0] == 'r' && name[1] == 's' && name[2] == 'a' && name[3] == 'q' && name[4] == 'u' && name[5] == 'o' {
        Some('\u{203A}')
    } else if name.len() == 4 && name[0] == 'b' && name[1] == 'u' && name[2] == 'l' && name[3] == 'l' {
        Some('\u{2022}')
    } else if name.len() == 6 && name[0] == 'h' && name[1] == 'e' && name[2] == 'l' && name[3] == 'l' && name[4] == 'i' && name[5] == 'p' {
        Some('\u{2026}')
    } else if name.len() == 5 && name[0] == 'p' && name[1] == 'r' && name[2] == 'i' && name[3] == 'm' && name[4] == 'e' {
        Some('\u{2032}')
    } else if name.len() == 5 && name[0] == 'P' && name[1] == 'r' && name[2] == 'i' && name[3] == 'm' && name[4] == 'e' {
        Some('\u{2033}')
    } else if name.len() == 5 && name[0] == 'o' && name[1] == 'l' && name[2] == 'i' && name[3] == 'n' && name[4] == 'e' {
        Some('\u{203E}')
    } else if name.len() == 5 && name[0] == 'f' && name[1] == 'r' && name[2] == 'a' && name[3] == 's' && name[4] == 'l' {
        Some('\u{2044}')
    } else if name.len() == 4 && name[0] == 'q' && name[1] == 'u' && name[2] == 'o' && name[3] == 't' {
        Some('"')
    } else if name.len() == 2 && name[0] == 'l' && name[1] == 't' {
        Some('<')
    } else if name.len() == 2 && name[0] == 'g' && name[1] == 't' {
        Some('>')
    } else {
        None
    }
}

/// How many characters come before the first `;` (all of them when there is none).
pub open spec fn name_len(s: Seq<char>) -> nat
    decreases s.len(),
{
    if s.len() == 0 || s[0] == ';' {
        0
    } else {
        1 + name_len(s.drop_first())
    }
}

/// A text with each entity that the serializer writes (`&name;`) replaced by its
/// character; any other character, a lone `&` included, is kept.
pub open spec fn unescaped(s: Seq<char>) -> Seq<char>
    decreases s.len(),
{
    if s.len() == 0 {
        s
    } else if s[0] != '&' {
        seq![s[0]] + unescaped(s.drop_first())
    } else {
        let t = s.drop_first();
        let k = name_len(t);
        if k < t.len() && entity_char(t.take(k as int)) is Some {
            seq![entity_char(t.take(k as int))->0] + unescaped(t.skip((k + 1) as int))
        } else {
            seq!['&'] + unescaped(t)
        }
    }
}

/// The escaped form of a text: each character escaped in turn.
pub open spec fn escaped(text: Seq<char>, attr_mode: bool) -> Seq<char>
    decreases text.len(),
{
    if text.len() == 0 {
        seq![]
    } else {
        escaped(text.drop_last(), attr_mode) + escape_char(text.last(), attr_mode)
    }
}

/// The void elements of HTML: they have no end tag, and nothing below them is written
/// as tags.
pub open spec fn is_void_name(local: Seq<char>) -> bool {
    ||| local == "area"@
    ||| local == "base"@
    ||| local == "basefont"@
    ||| local == "bgsound"@
    ||| local == "br"@
    ||| local == "col"@
    ||| local == "embed"@
    ||| local == "frame"@
    ||| local == "hr"@
    ||| local == "img"@
    ||| local == "input"@
    ||| local == "keygen"@
    ||| local == "link"@
    ||| local == "meta"@
    ||| local == "param"@
    ||| local == "source"@
    ||| local == "track"@
    ||| local == "wbr"@
}

/// The elements whose text content is written as it is, not escaped.
pub open spec fn is_raw_text_name(local: Seq<char>) -> bool {
    ||| local == "style"@
    ||| local == "script"@
    ||| local == "xmp"@
    ||| local == "iframe"@
    ||| local == "noembed"@
    ||| local == "noframes"@
    ||| local == "plaintext"@
}

/// The name kept on the stack for an element: its local name when it is an HTML element.
pub open spec fn html_name_of(name: NameView) -> Option<Seq<char>> {
    if name.ns is Html {
        Some(name.local)
    } else {
        None
    }
}

/// Whether nothing below an element with this name is written as tags.
pub open spec fn ignores_children(name: NameView) -> bool {
    name.ns is Html && is_void_name(name.local)
}

/// What an element with no parent information is taken to be.
pub open spec fn default_info() -> InfoView {
    InfoView { html_name: None, ignore_children: false, processed_first_child: false }
}

/// The stack once a parent is sure to be there: a default one when it was empty.
pub open spec fn ready(stack: Seq<InfoView>) -> Seq<InfoView> {
    if stack.len() == 0 {
        seq![default_info()]
    } else {
        stack
    }
}

/// The prefix written before an attribute's local name, by its namespace.
pub open spec fn attr_prefix(name: NameView) -> Seq<char> {
    match name.ns {
        Namespace::Empty => seq![],
        Namespace::Xml => "xml:"@,
        Namespace::XmlNs => if name.local == "xmlns"@ {
            seq![]
        } else {
            "xmlns:"@
        },
        Namespace::XLink => "xlink:"@,
        _ => "unknown_namespace:"@,
    }
}

/// The text of one attribute inside a start tag.
pub open spec fn attr_text(attr: AttrView) -> Seq<char> {
    " "@ + attr_prefix(attr.name) + attr.name.local + "=\""@ + escaped(attr.value, true)
        + "\""@
}

/// The text of the attributes of a start tag, in their order.
pub open spec fn attrs_text(attrs: Seq<AttrView>) -> Seq<char>
    decreases attrs.len(),
{
    if attrs.len() == 0 {
        seq![]
    } else {
        attrs_text(attrs.drop_last()) + attr_text(attrs.last())
    }
}

/// A start tag.
pub open spec fn start_tag(name: NameView, attrs: Seq<AttrView>) -> Seq<char> {
    "<"@ + name.local + attrs_text(attrs) + ">"@
}

/// An end tag.
pub open spec fn end_tag(name: NameView) -> Seq<char> {
    "</"@ + name.local + ">"@
}

/// The stack entry pushed for an element that is written.
pub open spec fn entry_for(name: NameView) -> InfoView {
    InfoView {
        html_name: html_name_of(name),
        ignore_children: ignores_children(name),
        processed_first_child: false,
    }
}

/// The stack after a start tag.
pub open spec fn stack_after_start(stack: Seq<InfoView>, name: NameView) -> Seq<InfoView> {
    let s = ready(stack);
    let parent = s.last();
    if parent.ignore_children {
        s.push(InfoView { html_name: html_name_of(name), ignore_children: true, processed_first_child: false })
    } else {
        s.update(
            s.len() - 1,
            InfoView { processed_first_child: true, ..parent },
        ).push(entry_for(name))
    }
}

/// The text written for a start tag.
pub open spec fn text_of_start(stack: Seq<InfoView>, name: NameView, attrs: Seq<AttrView>) -> Seq<char> {
    if ready(stack).last().ignore_children {
        seq![]
    } else {
        start_tag(name, attrs)
    }
}

/// The stack after an end tag.
pub open spec fn stack_after_end(stack: Seq<InfoView>) -> Seq<InfoView> {
    if stack.len() == 0 {
        stack
    } else {
        stack.drop_last()
    }
}

/// The text written for an end tag.
pub open spec fn text_of_end(stack: Seq<InfoView>, name: NameView) -> Seq<char> {
    if stack.len() != 0 && stack.last().ignore_children {
        seq![]
    } else {
        end_tag(name)
    }
}

/// Whether text below an element with this stack entry is escaped.
pub open spec fn escapes_text(html_name: Option<Seq<char>>, scripting_enabled: bool) -> bool {
    match html_name {
        Some(n) => if is_raw_text_name(n) {
            false
        } else if n == "noscript"@ {
            !scripting_enabled
        } else {
            true
        },
        None => true,
    }
}

/// The text written for a text node.
pub open spec fn text_of_text(stack: Seq<InfoView>, scripting_enabled: bool, text: Seq<char>) -> Seq<char> {
    if escapes_text(ready(stack).last().html_name, scripting_enabled) {
        escaped(text, false)
    } else {
        text
    }
}

/// The text written for a comment.
pub open spec fn comment_text(text: Seq<char>) -> Seq<char> {
    "<!--"@ + text + "-->"@
}

/// The text written for a doctype.
pub open spec fn doctype_text(name: Seq<char>) -> Seq<char> {
    "<!DOCTYPE "@ + name + ">"@
}

/// The text written for a processing instruction.
pub open spec fn pi_text(target: Seq<char>, data: Seq<char>) -> Seq<char> {
    "<?"@ + target + " "@ + data + ">"@
}

/// The stack entry the serializer starts with, for a traversal scope.
pub open spec fn root_entry(scope: TraversalScope) -> InfoView {
    match scope {
        TraversalScope::ChildrenOnly(Some(n)) => InfoView {
            html_name: Some(n.local@),
            ignore_children: false,
            processed_first_child: false,
        },
        _ => default_info(),
    }
}

/// No character is escaped into a markup character of the mode it is escaped for.
pub proof fn lemma_escape_char_safe(c: char, attr_mode: bool)
    ensures
        !attr_mode ==> !escape_char(c, attr_mode).contains('<'),
        !attr_mode ==> !escape_char(c, attr_mode).contains('>'),
        attr_mode ==> !escape_char(c, attr_mode).contains('"'),
{
    let e = escape_char(c, attr_mode);
    if has_entity(c, attr_mode) {
        lemma_entity_name(c, attr_mode);
        let n = entity_name(c);
        assert forall|i: int| 0 <= i < e.len() implies e[i] != '<' && e[i] != '>' && e[i] != '"' by {
            if 1 <= i < e.len() - 1 {
                assert(e[i] == n[i - 1]);
            }
        }
    }
}

/// Facts on the entity names: none holds `;` or a markup character, and each stands for
/// its character.
pub proof fn lemma_entity_name(c: char, attr_mode: bool)
    requires
        has_entity(c, attr_mode),
    ensures
        entity_char(entity_name(c)) == Some(c),
        forall|i: int| 0 <= i < entity_name(c).len() ==> {
            let x = #[trigger] entity_name(c)[i];
            x != ';' && x != '<' && x != '>' && x != '"' && x != '&'
        },
{
    reveal_strlit("amp");
    reveal_strlit("nbsp");
    reveal_strlit("ensp");
    reveal_strlit("emsp");
    reveal_strlit("thinsp");
    reveal_strlit("zwnj");
    reveal_strlit("zwj");
    reveal_strlit("lrm");
    reveal_strlit("rlm");
    reveal_strlit("ndash");
    reveal_strlit("mdash");
    reveal_strlit("lsquo");
    reveal_strlit("rsquo");
    reveal_strlit("sbquo");
    reveal_strlit("ldquo");
    reveal_strlit("rdquo");
    reveal_strlit("bdquo");
    reveal_strlit("dagger");
    reveal_strlit("Dagger");
    reveal_strlit("permil");
    reveal_strlit("lsaquo");
    reveal_strlit("rsaquo");
    reveal_strlit("bull");
    reveal_strlit("hellip");
    reveal_strlit("prime");
    reveal_strlit("Prime");
    reveal_strlit("oline");
    reveal_strlit("frasl");
    reveal_strlit("quot");
    reveal_strlit("lt");
    reveal_strlit("gt");
}

/// Escaped text holds no raw `<` or `>`, and an escaped attribute value holds no raw `"`:
/// what is written from a text node can never open or close a tag, and what is written
/// from an attribute value can never end the value.
pub proof fn lemma_escaped_is_safe(text: Seq<char>, attr_mode: bool)
    ensures
        !attr_mode ==> !escaped(text, attr_mode).contains('<'),
        !attr_mode ==> !escaped(text, attr_mode).contains('>'),
        attr_mode ==> !escaped(text, attr_mode).contains('"'),
    decreases text.len(),
{
    if text.len() > 0 {
        lemma_escaped_is_safe(text.drop_last(), attr_mode);
        lemma_escape_char_safe(text.last(), attr_mode);
        let a = escaped(text.drop_last(), attr_mode);
        let b = escape_char(text.last(), attr_mode);
        let e = escaped(text, attr_mode);
        assert(e == a + b);
        assert forall|i: int| 0 <= i < e.len() implies (!attr_mode ==> e[i] != '<' && e[i] != '>')
            && (attr_mode ==> e[i] != '"') by {
            if i < a.len() {
                assert(e[i] == a[i]);
            } else {
                assert(e[i] == b[i - a.len()]);
            }
        }
    }
}

/// Before a name with no `;`, its `;` and anything after, there are as many characters
/// before the first `;` as the name has.
proof fn lemma_name_len(name: Seq<char>, rest: Seq<char>)
    requires
        forall|i: int| 0 <= i < name.len() ==> name[i] != ';',
    ensures
        name_len(name + seq![';'] + rest) == name.len(),
    decreases name.len(),
{
    let s = name + seq![';'] + rest;
    if name.len() > 0 {
        lemma_name_len(name.drop_first(), rest);
        assert(s.drop_first() =~= name.drop_first() + seq![';'] + rest);
    } else {
        assert(s[0] == ';');
    }
}

/// Escaping a text is escaping its first character, then the rest.
proof fn lemma_escaped_front(text: Seq<char>, attr_mode: bool)
    requires
        text.len() > 0,
    ensures
        escaped(text, attr_mode) == escape_char(text[0], attr_mode) + escaped(text.drop_first(), attr_mode),
    decreases text.len(),
{
    if text.len() > 1 {
        lemma_escaped_front(text.drop_last(), attr_mode);
        assert(text.drop_last().drop_first() =~= text.drop_first().drop_last());
        assert(text.drop_first().last() == text.last());
        assert(text.drop_last()[0] == text[0]);
    } else {
        assert(text.drop_last() =~= Seq::<char>::empty());
        assert(text.drop_first() =~= Seq::<char>::empty());
    }
}

/// Unescaping what one escaped character is followed by more text gives that character,
/// then the unescaped rest.
proof fn lemma_unescape_char(c: char, attr_mode: bool, rest: Seq<char>)
    ensures
        unescaped(escape_char(c, attr_mode) + rest) == seq![c] + unescaped(rest),
{
    let s = escape_char(c, attr_mode) + rest;
    if has_entity(c, attr_mode) {
        lemma_entity_name(c, attr_mode);
        let n = entity_name(c);
        let t = s.drop_first();
        assert(t =~= n + seq![';'] + rest);
        lemma_name_len(n, rest);
        assert(t.take(n.len() as int) =~= n);
        assert(t.skip((n.len() + 1) as int) =~= rest);
    } else {
        assert(c != '&');
        assert(s.drop_first() =~= rest);
    }
}

/// Escaping loses nothing: replacing each entity of the escaped text by its character
/// gives back the text, in either mode.
pub proof fn lemma_escaped_unescapes(text: Seq<char>, attr_mode: bool)
    ensures
        unescaped(escaped(text, attr_mode)) == text,
    decreases text.len(),
{
    if text.len() > 0 {
        lemma_escaped_front(text, attr_mode);
        lemma_unescape_char(text[0], attr_mode, escaped(text.drop_first(), attr_mode));
        lemma_escaped_unescapes(text.drop_first(), attr_mode);
        assert(seq![text[0]] + text.drop_first() =~= text);
    }
}

/// Escaping works character by character: escaping two texts one after the other is
/// escaping the two together.
pub proof fn lemma_escaped_append(a: Seq<char>, b: Seq<char>, attr_mode: bool)
    ensures
        escaped(a + b, attr_mode) == escaped(a, attr_mode) + escaped(b, attr_mode),
    decreases b.len(),
{
    if b.len() == 0 {
        assert(a + b =~= a);
        assert(escaped(a, attr_mode) + escaped(b, attr_mode) =~= escaped(a, attr_mode));
    } else {
        lemma_escaped_append(a, b.drop_last(), attr_mode);
        assert((a + b).drop_last() =~= a + b.drop_last());
        assert((a + b).last() == b.last());
        let ea = escaped(a, attr_mode);
        let eb = escaped(b.drop_last(), attr_mode);
        let ec = escape_char(b.last(), attr_mode);
        assert(ea + eb + ec =~= ea + (eb + ec));
    }
}

/// The attributes of a start tag are written one after the other, in their order.
pub proof fn lemma_attrs_text_append(a: Seq<AttrView>, b: Seq<AttrView>)
    ensures
        attrs_text(a + b) == attrs_text(a) + attrs_text(b),
    decreases b.len(),
{
    if b.len() == 0 {
        assert(a + b =~= a);
        assert(attrs_text(a) + attrs_text(b) =~= attrs_text(a));
    } else {
        lemma_attrs_text_append(a, b.drop_last());
        assert((a + b).drop_last() =~= a + b.drop_last());
        assert((a + b).last() == b.last());
        let ta = attrs_text(a);
        let tb = attrs_text(b.drop_last());
        let tc = attr_text(b.last());
        assert(ta + tb + tc =~= ta + (tb + tc));
    }
}

// ---------------------------------------------------------------------------
// The serializer.
// ---------------------------------------------------------------------------

impl Default for SerializeOpts {
    /// Scripting enabled, only the children of the root written, unbalanced end tags a
    /// caller error.
    fn default() -> (opts: SerializeOpts)
        ensures
            opts.scripting_enabled,
            opts.traversal_scope == TraversalScope::ChildrenOnly(None),
            !opts.create_missing_parent,
    {
        SerializeOpts {
            scripting_enabled: true,
            traversal_scope: TraversalScope::ChildrenOnly(None),
            create_missing_parent: false,
        }
    }
}

impl ElemInfo {
    /// A copy of this entry.
    pub fn copy(&self) -> (e: ElemInfo)
        ensures
            e == *self,
    {
        let html_name = match &self.html_name {
            Some(n) => Some(n.clone()),
            None => None,
        };
        ElemInfo {
            html_name,
            ignore_children: self.ignore_children,
            processed_first_child: self.processed_first_child,
        }
    }
}

/// Whether nothing below an element with this name is written as tags.
pub fn is_void_element(name: &QualName) -> (r: bool)
    ensures
        r == ignores_children(name@),
{
    match name.ns {
        Namespace::Html => {
            let l = name.local.as_str();
            same_text(l, "area") || same_text(l, "base") || same_text(l, "basefont")
                || same_text(l, "bgsound") || same_text(l, "br") || same_text(l, "col")
                || same_text(l, "embed") || same_text(l, "frame") || same_text(l, "hr")
                || same_text(l, "img") || same_text(l, "input") || same_text(l, "keygen")
                || same_text(l, "link") || same_text(l, "meta") || same_text(l, "param")
                || same_text(l, "source") || same_text(l, "track") || same_text(l, "wbr")
        },
        _ => false,
    }
}

/// Whether text below an element with this stack entry is escaped.
pub fn text_is_escaped(html_name: &Option<String>, scripting_enabled: bool) -> (r: bool)
    ensures
        r == escapes_text(opt_view(*html_name), scripting_enabled),
{
    match html_name {
        Some(n) => {
            let l = n.as_str();
            if same_text(l, "style") || same_text(l, "script") || same_text(l, "xmp")
                || same_text(l, "iframe") || same_text(l, "noembed") || same_text(l, "noframes")
                || same_text(l, "plaintext") {
                false
            } else if same_text(l, "noscript") {
                !scripting_enabled
            } else {
                true
            }
        },
        None => true,
    }
}

/// The name of the entity that a character is written as, when it has one.
pub fn entity_of(c: char, attr_mode: bool) -> (r: Option<&'static str>)
    ensures
        match r {
            Some(name) => has_entity(c, attr_mode) && name@ == entity_name(c),
            None => !has_entity(c, attr_mode),
        },
{
    if c == '&' {
        Some("amp")
    } else if c == '\u{00A0}' {
        Some("nbsp")
    } else if c == '\u{2002}' {
        Some("ensp")
    } else if c == '\u{2003}' {
        Some("emsp")
    } else if c == '\u{2009}' {
        Some("thinsp")
    } else if c == '\u{200C}' {
        Some("zwnj")
    } else if c == '\u{200D}' {
        Some("zwj")
    } else if c == '\u{200E}' {
        Some("lrm")
    } else if c == '\u{200F}' {
        Some("rlm")
    } else if c == '\u{2013}' {
        Some("ndash")
    } else if c == '\u{2014}' {
        Some("mdash")
    } else if c == '\u{2018}' {
        Some("lsquo")
    } else if c == '\u{2019}' {
        Some("rsquo")
    } else if c == '\u{201A}' {
        Some("sbquo")
    } else if c == '\u{201C}' {
        Some("ldquo")
    } else if c == '\u{201D}' {
        Some("rdquo")
    } else if c == '\u{201E}' {
        Some("bdquo")
    } else if c == '\u{2020}' {
        Some("dagger")
    } else if c == '\u{2021}' {
        Some("Dagger")
    } else if c == '\u{2030}' {
        Some("permil")
    } else if c == '\u{2039}' {
        Some("lsaquo")
    } else if c == '\u{203A}' {
        Some("rsaquo")
    } else if c == '\u{2022}' {
        Some("bull")
    } else if c == '\u{2026}' {
        Some("hellip")
    } else if c == '\u{2032}' {
        Some("prime")
    } else if c == '\u{2033}' {
        Some("Prime")
    } else if c == '\u{203E}' {
        Some("oline")
    } else if c == '\u{2044}' {
        Some("frasl")
    } else if c == '"' && attr_mode {
        Some("quot")
    } else if c == '<' && !attr_mode {
        Some("lt")
    } else if c == '>' && !attr_mode {
        Some("gt")
    } else {
        None
    }
}

/// Appends the escaped form of one character.
pub fn push_escaped_char(out: &mut String, c: char, attr_mode: bool)
    ensures
        final(out)@ == old(out)@ + escape_char(c, attr_mode),
{
    match entity_of(c, attr_mode) {
        Some(name) => {
            let ghost start = out@;
            push_char(out, '&');
            out.append(name);
            push_char(out, ';');
            assert(out@ =~= start + escape_char(c, attr_mode));
        },
        None => push_char(out, c),
    }
}

/// Appends the escaped form of a text.
pub fn push_escaped(out: &mut String, text: &str, attr_mode: bool)
    ensures
        final(out)@ == old(out)@ + escaped(text@, attr_mode),
{
    let ghost start = out@;
    for c in it: text.chars()
        invariant
            it.seq() == text@,
            out@ == start + escaped(it.seq().take(it.index() as int), attr_mode),
    {
        proof {
            let i = it.index() as int;
            assert(it.seq().take(i + 1).drop_last() =~= it.seq().take(i));
            assert(it.seq().take(i + 1).last() == c);
        }
        push_escaped_char(out, c, attr_mode);
    }
    proof {
        assert(text@.take(text@.len() as int) =~= text@);
    }
}

/// The name written in the tags of an element: its local name.
pub fn tagname(name: &QualName) -> (local: &str)
    ensures
        local@ == name.local@,
{
    name.local.as_str()
}

/// Appends the text of one attribute of a start tag.
fn push_attr(out: &mut String, attr: &Attribute)
    ensures
        final(out)@ == old(out)@ + attr_text(attr@),
{
    let ghost start = out@;
    out.append(" ");
    match attr.name.ns {
        Namespace::Empty => {},
        Namespace::Xml => {
            out.append("xml:");
        },
        Namespace::XmlNs => {
            if !same_text(attr.name.local.as_str(), "xmlns") {
                out.append("xmlns:");
            }
        },
        Namespace::XLink => {
            out.append("xlink:");
        },
        _ => {
            out.append("unknown_namespace:");
        },
    }
    out.append(attr.name.local.as_str());
    out.append("=\"");
    push_escaped(out, attr.value.as_str(), true);
    out.append("\"");
    assert(out@ =~= start + attr_text(attr@));
}

impl HtmlSerializer {
    /// The stack of open elements.
    pub closed spec fn stack_view(&self) -> Seq<InfoView> {
        self.stack@.map_values(|e: ElemInfo| e@)
    }

    /// The text written so far.
    pub closed spec fn written(&self) -> Seq<char> {
        self.out@
    }

    /// The options the serializer was made with.
    pub closed spec fn options(&self) -> SerializeOpts {
        self.opts
    }

    /// Whether the next operation that needs a parent can be made: there is an open
    /// element, or a missing one is tolerated.
    pub open spec fn has_parent(&self) -> bool {
        self.stack_view().len() > 0 || self.options().create_missing_parent
    }

    /// A serializer with nothing written; its one stack entry stands for the root.
    pub fn new(opts: SerializeOpts) -> (s: HtmlSerializer)
        ensures
            s.options() == opts,
            s.stack_view() == seq![root_entry(opts.traversal_scope)],
            s.written() == Seq::<char>::empty(),
    {
        let html_name = match &opts.traversal_scope {
            TraversalScope::ChildrenOnly(Some(n)) => Some(n.local.clone()),
            _ => None,
        };
        let mut stack: Vec<ElemInfo> = Vec::new();
        stack.push(ElemInfo { html_name, ignore_children: false, processed_first_child: false });
        HtmlSerializer { opts, stack, out: String::new() }
    }

    /// The innermost open element, made to exist when it was missing and that is
    /// tolerated.
    fn parent(&mut self) -> (p: ElemInfo)
        requires
            old(self).has_parent(),
        ensures
            final(self).stack_view() == ready(old(self).stack_view()),
            p@ == ready(old(self).stack_view()).last(),
            final(self).written() == old(self).written(),
            final(self).options() == old(self).options(),
    {
        if self.stack.len() == 0 {
            self.stack.push(ElemInfo { html_name: None, ignore_children: false, processed_first_child: false });
        }
        let last: usize = self.stack.len() - 1;
        self.stack[last].copy()
    }

    /// Writes the escaped form of a text.
    fn write_escaped(&mut self, text: &str, attr_mode: bool)
        ensures
            final(self).written() == old(self).written() + escaped(text@, attr_mode),
            final(self).stack_view() == old(self).stack_view(),
            final(self).options() == old(self).options(),
    {
        push_escaped(&mut self.out, text, attr_mode);
    }

    /// Writes the start tag of an element, unless the innermost open element is void, and
    /// opens the element.
    pub fn start_elem(&mut self, name: QualName, attrs: &Vec<Attribute>)
        requires
            old(self).has_parent(),
        ensures
            final(self).stack_view() == stack_after_start(old(self).stack_view(), name@),
            final(self).written() == old(self).written() + text_of_start(
                old(self).stack_view(),
                name@,
                attrs_view(attrs@),
            ),
            final(self).options() == old(self).options(),
    {
        let html_name = match name.ns {
            Namespace::Html => Some(name.local.clone()),
            _ => None,
        };
        let parent = self.parent();
        if parent.ignore_children {
            self.stack.push(ElemInfo { html_name, ignore_children: true, processed_first_child: false });
            return;
        }
        let ghost before = self.out@;
        self.out.append("<");
        self.out.append(tagname(&name));
        let mut i: usize = 0;
        while i < attrs.len()
            invariant
                i <= attrs.len(),
                self.out@ == before + "<"@ + name.local@ + attrs_text(attrs_view(attrs@).take(i as int)),
                self.stack_view() == ready(old(self).stack_view()),
                self.opts == old(self).opts,
            decreases attrs.len() - i,
        {
            let ghost mid = self.out@;
            push_attr(&mut self.out, &attrs[i]);
            proof {
                let av = attrs_view(attrs@);
                assert(av.take(i + 1).drop_last() =~= av.take(i as int));
                assert(av[i as int] == attrs@[i as int]@);
            }
            i += 1;
        }
        self.out.append(">");
        proof {
            let av = attrs_view(attrs@);
            assert(av.take(av.len() as int) =~= av);
            assert(self.out@ =~= before + start_tag(name@, av));
        }
        let ignore_children = is_void_element(&name);
        let mut top = self.stack.pop().unwrap();
        top.processed_first_child = true;
        self.stack.push(top);
        self.stack.push(ElemInfo { html_name, ignore_children, processed_first_child: false });
        proof {
            assert(self.stack_view() =~= stack_after_start(old(self).stack_view(), name@));
        }
    }

    /// Closes the innermost open element and writes its end tag, unless it is void.
    pub fn end_elem(&mut self, name: QualName)
        requires
            old(self).has_parent(),
        ensures
            final(self).stack_view() == stack_after_end(old(self).stack_view()),
            final(self).written() == old(self).written() + text_of_end(old(self).stack_view(), name@),
            final(self).options() == old(self).options(),
    {
        let ignore_children = match self.stack.pop() {
            Some(info) => info.ignore_children,
            None => false,
        };
        if ignore_children {
            return;
        }
        self.out.append("</");
        self.out.append(tagname(&name));
        self.out.append(">");
    }

    /// Writes a text, escaped unless the innermost open element holds raw text.
    pub fn write_text(&mut self, text: &str)
        requires
            old(self).has_parent(),
        ensures
            final(self).stack_view() == ready(old(self).stack_view()),
            final(self).written() == old(self).written() + text_of_text(
                old(self).stack_view(),
                old(self).options().scripting_enabled,
                text@,
            ),
            final(self).options() == old(self).options(),
    {
        let parent = self.parent();
        if text_is_escaped(&parent.html_name, self.opts.scripting_enabled) {
            self.write_escaped(text, false);
        } else {
            self.out.append(text);
        }
    }

    /// Writes a comment.
    pub fn write_comment(&mut self, text: &str)
        ensures
            final(self).stack_view() == old(self).stack_view(),
            final(self).written() == old(self).written() + comment_text(text@),
            final(self).options() == old(self).options(),
    {
        self.out.append("<!--");
        self.out.append(text);
        self.out.append("-->");
    }

    /// Writes a doctype.
    pub fn write_doctype(&mut self, name: &str)
        ensures
            final(self).stack_view() == old(self).stack_view(),
            final(self).written() == old(self).written() + doctype_text(name@),
            final(self).options() == old(self).options(),
    {
        self.out.append("<!DOCTYPE ");
        self.out.append(name);
        self.out.append(">");
    }

    /// Writes a processing instruction.
    pub fn write_processing_instruction(&mut self, target: &str, data: &str)
        ensures
            final(self).stack_view() == old(self).stack_view(),
            final(self).written() == old(self).written() + pi_text(target@, data@),
            final(self).options() == old(self).options(),
    {
        self.out.append("<?");
        self.out.append(target);
        self.out.append(" ");
        self.out.append(data);
        self.out.append(">");
    }

    /// The text written so far.
    pub fn into_string(self) -> (s: String)
        ensures
            s@ == self.written(),
    {
        self.out
    }
}

// ---------------------------------------------------------------------------
// Writing a whole tree.
// ---------------------------------------------------------------------------

/// The stack and the text written, after a node has been written from a given stack and
/// text; the node's own tags and text are written when `whole` holds, else only what is
/// below it.
pub open spec fn run_node(
    scripting: bool,
    stack: Seq<InfoView>,
    out: Seq<char>,
    node: NodeView,
    whole: bool,
) -> (Seq<InfoView>, Seq<char>)
    decreases node, 1nat,
{
    match node {
        NodeView::Element { name, attrs, children } => {
            if whole {
                let s1 = stack_after_start(stack, name);
                let o1 = out + text_of_start(stack, name, attrs);
                let (s2, o2) = run_children(scripting, s1, o1, children);
                (stack_after_end(s2), o2 + text_of_end(s2, name))
            } else {
                run_children(scripting, stack, out, children)
            }
        },
        NodeView::Document(children) => run_children(scripting, stack, out, children),
        NodeView::Fragment(children) => run_children(scripting, stack, out, children),
        NodeView::Doctype(name) => if whole {
            (stack, out + doctype_text(name))
        } else {
            (stack, out)
        },
        NodeView::Text(text) => if whole {
            (ready(stack), out + text_of_text(stack, scripting, text))
        } else {
            (stack, out)
        },
        NodeView::Comment(text) => if whole {
            (stack, out + comment_text(text))
        } else {
            (stack, out)
        },
        NodeView::ProcessingInstruction(target, data) => if whole {
            (stack, out + pi_text(target, data))
        } else {
            (stack, out)
        },
    }
}

/// The stack and the text written, after a run of sibling nodes has been written in order.
pub open spec fn run_children(
    scripting: bool,
    stack: Seq<InfoView>,
    out: Seq<char>,
    children: Seq<NodeView>,
) -> (Seq<InfoView>, Seq<char>)
    decreases children, 0nat,
{
    if children.len() == 0 {
        (stack, out)
    } else {
        let (s, o) = run_children(scripting, stack, out, children.drop_last());
        run_node(scripting, s, o, children.last(), true)
    }
}

/// The text that serializing a node with the given options gives.
pub open spec fn serialization(node: NodeView, opts: SerializeOpts) -> Seq<char> {
    run_node(
        opts.scripting_enabled,
        seq![root_entry(opts.traversal_scope)],
        Seq::empty(),
        node,
        opts.traversal_scope is IncludeNode,
    ).1
}

/// The stacks `a` and `b` agree below the top, and on what the top entry says of the
/// element it stands for.
pub open spec fn same_open_elements(a: Seq<InfoView>, b: Seq<InfoView>) -> bool {
    &&& a.len() == b.len()
    &&& a.len() >= 1
    &&& forall|i: int| 0 <= i < a.len() - 1 ==> #[trigger] a[i] == b[i]
    &&& a.last().html_name == b.last().html_name
    &&& a.last().ignore_children == b.last().ignore_children
}

/// Serializing a node leaves the open elements as they were: every element that it opens
/// it closes, and only the "has a child" mark of the innermost open element may change.
pub proof fn lemma_node_balanced(
    scripting: bool,
    stack: Seq<InfoView>,
    out: Seq<char>,
    node: NodeView,
    whole: bool,
)
    requires
        stack.len() >= 1,
    ensures
        same_open_elements(stack, run_node(scripting, stack, out, node, whole).0),
    decreases node, 1nat,
{
    match node {
        NodeView::Element { name, attrs, children } => {
            if whole {
                let s1 = stack_after_start(stack, name);
                let o1 = out + text_of_start(stack, name, attrs);
                lemma_children_balanced(scripting, s1, o1, children);
                let s2 = run_children(scripting, s1, o1, children).0;
                assert(same_open_elements(stack, stack_after_end(s2))) by {
                    assert forall|i: int| 0 <= i < stack.len() - 1 implies #[trigger] stack[i]
                        == stack_after_end(s2)[i] by {
                        assert(s2[i] == s1[i]);
                    }
                    assert(s2[stack.len() - 1] == s1[stack.len() - 1]);
                }
            } else {
                lemma_children_balanced(scripting, stack, out, children);
            }
        },
        NodeView::Document(children) => lemma_children_balanced(scripting, stack, out, children),
        NodeView::Fragment(children) => lemma_children_balanced(scripting, stack, out, children),
        _ => {},
    }
}

/// Serializing a run of siblings leaves the open elements as they were.
pub proof fn lemma_children_balanced(
    scripting: bool,
    stack: Seq<InfoView>,
    out: Seq<char>,
    children: Seq<NodeView>,
)
    requires
        stack.len() >= 1,
    ensures
        same_open_elements(stack, run_children(scripting, stack, out, children).0),
    decreases children, 0nat,
{
    if children.len() > 0 {
        lemma_children_balanced(scripting, stack, out, children.drop_last());
        let (s, o) = run_children(scripting, stack, out, children.drop_last());
        lemma_node_balanced(scripting, s, o, children.last(), true);
        let t = run_children(scripting, stack, out, children).0;
        assert forall|i: int| 0 <= i < stack.len() - 1 implies #[trigger] stack[i] == t[i] by {
            assert(s[i] == stack[i]);
        }
    }
}

/// Serializing only appends: what is written from a node does not depend on what was
/// written before it, and the stack it leaves does not either.
pub proof fn lemma_node_appends(
    scripting: bool,
    stack: Seq<InfoView>,
    out: Seq<char>,
    node: NodeView,
    whole: bool,
)
    ensures
        run_node(scripting, stack, out, node, whole) == (
            run_node(scripting, stack, Seq::empty(), node, whole).0,
            out + run_node(scripting, stack, Seq::empty(), node, whole).1,
        ),
    decreases node, 1nat,
{
    let e = Seq::<char>::empty();
    match node {
        NodeView::Element { name, attrs, children } => {
            if whole {
                let s1 = stack_after_start(stack, name);
                let t = text_of_start(stack, name, attrs);
                lemma_children_appends(scripting, s1, out + t, children);
                lemma_children_appends(scripting, s1, e + t, children);
                let (s2, w) = run_children(scripting, s1, e, children);
                let end = text_of_end(s2, name);
                assert(e + t =~= t);
                assert((out + t) + w + end =~= out + (t + w + end));
            } else {
                lemma_children_appends(scripting, stack, out, children);
            }
        },
        NodeView::Document(children) => lemma_children_appends(scripting, stack, out, children),
        NodeView::Fragment(children) => lemma_children_appends(scripting, stack, out, children),
        _ => {
            let w = run_node(scripting, stack, e, node, whole).1;
            assert(run_node(scripting, stack, out, node, whole).1 =~= out + w);
        },
    }
}

/// Serializing a run of siblings only appends.
pub proof fn lemma_children_appends(
    scripting: bool,
    stack: Seq<InfoView>,
    out: Seq<char>,
    children: Seq<NodeView>,
)
    ensures
        run_children(scripting, stack, out, children) == (
            run_children(scripting, stack, Seq::empty(), children).0,
            out + run_children(scripting, stack, Seq::empty(), children).1,
        ),
    decreases children, 0nat,
{
    let e = Seq::<char>::empty();
    if children.len() == 0 {
        assert(out + e =~= out);
    } else {
        lemma_children_appends(scripting, stack, out, children.drop_last());
        let (s, o) = run_children(scripting, stack, e, children.drop_last());
        lemma_node_appends(scripting, s, out + o, children.last(), true);
        lemma_node_appends(scripting, s, o, children.last(), true);
        let w = run_node(scripting, s, e, children.last(), true).1;
        assert((out + o) + w =~= out + (o + w));
    }
}

/// An HTML element that is not void, written where tags are written, is its start tag,
/// then what its children give, then its end tag.
pub proof fn lemma_element_enclosed(
    scripting: bool,
    stack: Seq<InfoView>,
    name: NameView,
    attrs: Seq<AttrView>,
    children: Seq<NodeView>,
)
    requires
        stack.len() >= 1,
        !stack.last().ignore_children,
        !ignores_children(name),
    ensures
        run_node(scripting, stack, Seq::empty(), NodeView::Element { name, attrs, children }, true).1
            == start_tag(name, attrs) + run_children(
            scripting,
            stack_after_start(stack, name),
            Seq::empty(),
            children,
        ).1 + end_tag(name),
{
    let s1 = stack_after_start(stack, name);
    let t = start_tag(name, attrs);
    let e = Seq::<char>::empty();
    lemma_children_balanced(scripting, s1, e + t, children);
    lemma_children_appends(scripting, s1, e + t, children);
    assert(e + t =~= t);
}

/// The elements whose children are not written as tags, and that get no end tag, are
/// exactly the HTML elements named area, base, basefont, bgsound, br, col, embed, frame,
/// hr, img, input, keygen, link, meta, param, source, track and wbr.
pub proof fn lemma_void_elements(name: NameView)
    ensures
        ignores_children(name) <==> name.ns is Html && {
            ||| name.local == "area"@
            ||| name.local == "base"@
            ||| name.local == "basefont"@
            ||| name.local == "bgsound"@
            ||| name.local == "br"@
            ||| name.local == "col"@
            ||| name.local == "embed"@
            ||| name.local == "frame"@
            ||| name.local == "hr"@
            ||| name.local == "img"@
            ||| name.local == "input"@
            ||| name.local == "keygen"@
            ||| name.local == "link"@
            ||| name.local == "meta"@
            ||| name.local == "param"@
            ||| name.local == "source"@
            ||| name.local == "track"@
            ||| name.local == "wbr"@
        },
{
}

/// Any element that is not one of the void HTML elements, written where tags are
/// written, is its start tag, then what its children give, then its end tag.
pub proof fn lemma_non_void_element_enclosed(
    scripting: bool,
    stack: Seq<InfoView>,
    name: NameView,
    attrs: Seq<AttrView>,
    children: Seq<NodeView>,
)
    requires
        stack.len() >= 1,
        !stack.last().ignore_children,
        !(name.ns is Html && {
            ||| name.local == "area"@
            ||| name.local == "base"@
            ||| name.local == "basefont"@
            ||| name.local == "bgsound"@
            ||| name.local == "br"@
            ||| name.local == "col"@
            ||| name.local == "embed"@
            ||| name.local == "frame"@
            ||| name.local == "hr"@
            ||| name.local == "img"@
            ||| name.local == "input"@
            ||| name.local == "keygen"@
            ||| name.local == "link"@
            ||| name.local == "meta"@
            ||| name.local == "param"@
            ||| name.local == "source"@
            ||| name.local == "track"@
            ||| name.local == "wbr"@
        }),
    ensures
        run_node(scripting, stack, Seq::empty(), NodeView::Element { name, attrs, children }, true).1
            == start_tag(name, attrs) + run_children(
            scripting,
            stack_after_start(stack, name),
            Seq::empty(),
            children,
        ).1 + end_tag(name),
{
    lemma_void_elements(name);
    lemma_element_enclosed(scripting, stack, name, attrs, children);
}

/// Text is written escaped, so that it holds no raw `<` or `>`, unless the innermost open
/// element is style, script, xmp, iframe, noembed, noframes or plaintext, or noscript with
/// scripting enabled.
pub proof fn lemma_text_escaped_outside_raw_elements(
    stack: Seq<InfoView>,
    scripting_enabled: bool,
    text: Seq<char>,
)
    requires
        ready(stack).last().html_name matches Some(n) ==> !{
            ||| n == "style"@
            ||| n == "script"@
            ||| n == "xmp"@
            ||| n == "iframe"@
            ||| n == "noembed"@
            ||| n == "noframes"@
            ||| n == "plaintext"@
            ||| (n == "noscript"@ && scripting_enabled)
        },
    ensures
        text_of_text(stack, scripting_enabled, text) == escaped(text, false),
        !text_of_text(stack, scripting_enabled, text).contains('<'),
        !text_of_text(stack, scripting_enabled, text).contains('>'),
{
    lemma_escaped_is_safe(text, false);
}

/// Text whose innermost open element is style, script, xmp, iframe, noembed, noframes or
/// plaintext, or noscript with scripting enabled, is written as it is.
pub proof fn lemma_text_raw_inside_raw_elements(
    stack: Seq<InfoView>,
    scripting_enabled: bool,
    text: Seq<char>,
)
    requires
        ready(stack).last().html_name matches Some(n) && {
            ||| n == "style"@
            ||| n == "script"@
            ||| n == "xmp"@
            ||| n == "iframe"@
            ||| n == "noembed"@
            ||| n == "noframes"@
            ||| n == "plaintext"@
            ||| (n == "noscript"@ && scripting_enabled)
        },
    ensures
        text_of_text(stack, scripting_enabled, text) == text,
{
}

impl HtmlSerializer {
    /// Writes a node: its own tags and text when `whole` holds, else only what is below it.
    pub fn serialize_node(&mut self, node: &HtmlNode, whole: bool)
        requires
            old(self).stack_view().len() >= 1,
        ensures
            (final(self).stack_view(), final(self).written()) == run_node(
                old(self).options().scripting_enabled,
                old(self).stack_view(),
                old(self).written(),
                node@,
                whole,
            ),
            final(self).options() == old(self).options(),
        decreases node,
    {
        proof {
            lemma_node_balanced(self.opts.scripting_enabled, self.stack_view(), self.out@, node@, whole);
        }
        match node {
            HtmlNode::Element { name, attrs, children } => {
                if whole {
                    self.start_elem(name.copy(), attrs);
                }
                self.serialize_children(children);
                if whole {
                    proof {
                        lemma_children_balanced(
                            self.opts.scripting_enabled,
                            stack_after_start(old(self).stack_view(), name@),
                            old(self).out@ + text_of_start(old(self).stack_view(), name@, attrs_view(attrs@)),
                            nodes_view(children@),
                        );
                    }
                    self.end_elem(name.copy());
                }
            },
            HtmlNode::Document(children) => self.serialize_children(children),
            HtmlNode::Fragment(children) => self.serialize_children(children),
            HtmlNode::Doctype(name) => if whole {
                self.write_doctype(name.as_str());
            },
            HtmlNode::Text(text) => if whole {
                self.write_text(text.as_str());
            },
            HtmlNode::Comment(text) => if whole {
                self.write_comment(text.as_str());
            },
            HtmlNode::ProcessingInstruction(target, data) => if whole {
                self.write_processing_instruction(target.as_str(), data.as_str());
            },
        }
    }

    /// Writes a run of sibling nodes in order.
    pub fn serialize_children(&mut self, children: &Vec<HtmlNode>)
        requires
            old(self).stack_view().len() >= 1,
        ensures
            (final(self).stack_view(), final(self).written()) == run_children(
                old(self).options().scripting_enabled,
                old(self).stack_view(),
                old(self).written(),
                nodes_view(children@),
            ),
            final(self).options() == old(self).options(),
        decreases children,
    {
        let mut i: usize = 0;
        while i < children.len()
            invariant
                i <= children.len(),
                self.opts == old(self).opts,
                old(self).stack_view().len() >= 1,
                (self.stack_view(), self.out@) == run_children(
                    old(self).opts.scripting_enabled,
                    old(self).stack_view(),
                    old(self).out@,
                    nodes_view(children@.take(i as int)),
                ),
            decreases children.len() - i,
        {
            proof {
                lemma_children_balanced(
                    self.opts.scripting_enabled,
                    old(self).stack_view(),
                    old(self).out@,
                    nodes_view(children@.take(i as int)),
                );
                lemma_nodes_view_take(children@, i as int);
                let v = nodes_view(children@.take(i + 1));
                assert(v.drop_last() =~= nodes_view(children@.take(i as int)));
            }
            self.serialize_node(&children[i], true);
            i += 1;
        }
        proof {
            assert(children@.take(children@.len() as int) =~= children@);
        }
    }
}

/// Serializes a node with the given options.
pub fn serialize(node: &HtmlNode, opts: SerializeOpts) -> (text: String)
    ensures
        text@ == serialization(node@, opts),
{
    let whole = match opts.traversal_scope {
        TraversalScope::IncludeNode => true,
        _ => false,
    };
    let mut ser = HtmlSerializer::new(opts);
    ser.serialize_node(node, whole);
    ser.into_string()
}

} // verus!
