//! The SCXML reader: the structure rules (which element may stand inside which, the one
//! `<scxml>` element of a document, the attributes that exclude or require each other,
//! and the nesting of start and end tags), and reading a document into a state machine,
//! whose model the builder makes. The XML tokenizing is done by quick-xml.

use vstd::prelude::*;
use vstd::string::*;
use crate::common::same_text;
use crate::fsm::{is_transition_type, is_transition_type_name, Fsm};
use crate::fsm_serializer::{fsm_model, FsmModel};
use crate::model_builder::{builder_ok, initial_builder, model_after_end, model_after_start, BuilderView, ModelBuilder};
use quick_xml::events::attributes::Attributes as XmlAttributes;
use quick_xml::events::Event as XmlEvent;
use quick_xml::Reader as XmlReader;

verus! {

/// The value of the attribute `key` among `attrs`; where the key occurs more than once,
/// the last occurrence counts.
pub open spec fn attr_value(attrs: Seq<(Seq<char>, Seq<char>)>, key: Seq<char>) -> Option<Seq<char>>
    decreases attrs.len(),
{
    if attrs.len() == 0 {
        None
    } else if attrs.last().0 == key {
        Some(attrs.last().1)
    } else {
        attr_value(attrs.drop_last(), key)
    }
}

/// The views of a list of attributes.
pub open spec fn attr_texts(attrs: Seq<(String, String)>) -> Seq<(Seq<char>, Seq<char>)> {
    attrs.map_values(|a: (String, String)| (a.0@, a.1@))
}

/// The elements inside which the element `name` may stand; `None` for an element that is
/// not checked (`<scxml>`, `<include>` and elements the reader does not know).
pub open spec fn allowed_parents(name: Seq<char>) -> Option<Seq<&'static str>> {
    if name == "parallel"@ {
        Some(seq!["scxml", "state", "parallel"])
    } else if name == "final"@ {
        Some(seq!["scxml", "state"])
    } else if name == "donedata"@ {
        Some(seq!["final"])
    } else if name == "history"@ {
        Some(seq!["state", "parallel"])
    } else if name == "state"@ {
        Some(seq!["scxml", "state", "parallel"])
    } else if name == "datamodel"@ {
        Some(seq!["scxml", "state", "parallel"])
    } else if name == "data"@ {
        Some(seq!["datamodel"])
    } else if name == "initial"@ {
        Some(seq!["state", "parallel"])
    } else if name == "invoke"@ {
        Some(seq!["state", "parallel"])
    } else if name == "finalize"@ {
        Some(seq!["invoke"])
    } else if name == "transition"@ {
        Some(seq!["history", "initial", "state", "parallel"])
    } else if name == "script"@ {
        Some(seq!["scxml", "transition", "onexit", "onentry", "if", "foreach", "finalize"])
    } else if name == "foreach"@ {
        Some(seq!["onentry", "onexit", "transition", "foreach", "if", "finalize"])
    } else if name == "cancel"@ {
        Some(seq!["transition", "onexit", "onentry", "if", "foreach"])
    } else if name == "onentry"@ {
        Some(seq!["state", "parallel", "final"])
    } else if name == "onexit"@ {
        Some(seq!["state", "parallel", "final"])
    } else if name == "if"@ {
        Some(seq!["onentry", "onexit", "transition", "foreach", "if", "finalize"])
    } else if name == "elseif"@ {
        Some(seq!["if"])
    } else if name == "else"@ {
        Some(seq!["if"])
    } else if name == "send"@ {
        Some(seq!["transition", "onexit", "onentry", "if", "foreach"])
    } else if name == "content"@ {
        Some(seq!["send", "invoke", "donedata"])
    } else if name == "param"@ {
        Some(seq!["send", "invoke", "donedata"])
    } else if name == "log"@ {
        Some(seq!["transition", "onexit", "onentry", "if", "foreach", "finalize"])
    } else if name == "assign"@ {
        Some(seq!["transition", "onexit", "onentry", "if", "foreach", "finalize"])
    } else if name == "raise"@ {
        Some(seq!["transition", "onexit", "onentry", "if", "foreach"])
    } else {
        None
    }
}

/// Whether `parent` is one of `names`.
pub open spec fn names_contain(names: Seq<&'static str>, parent: Seq<char>) -> bool {
    exists|i: int| 0 <= i < names.len() && #[trigger] names[i]@ == parent
}

/// The tag of the element that encloses the next one: the innermost open element, or the
/// empty text at the top of the document.
pub open spec fn parent_of(tags: Seq<Seq<char>>) -> Seq<char> {
    if tags.len() == 0 {
        Seq::empty()
    } else {
        tags.last()
    }
}

/// An element opened on the tags `tags` is the innermost one, and closing it gives back
/// `tags`: an end tag right after a start tag of the same name is accepted and undoes it.
pub proof fn lemma_end_undoes_start(tags: Seq<Seq<char>>, name: Seq<char>)
    ensures
        parent_of(tags.push(name)) == name,
        tags.push(name).drop_last() == tags,
{
    assert(tags.push(name).drop_last() =~= tags);
}

/// What is wrong with a document, as the reader reports it.
pub enum ReaderIssue {
    /// The element (first) stands inside an element (second) that may not hold it.
    WrongParent(Seq<char>, Seq<char>),
    /// A second `<scxml>` element.
    SecondScxml,
    /// The element (first) lacks a required attribute (second).
    MissingAttribute(Seq<char>, Seq<char>),
    /// The element (first) has neither of two attributes (second and third), one of which
    /// it needs.
    MissingEither(Seq<char>, Seq<char>, Seq<char>),
    /// The element (first) has both of two attributes (second and third) that exclude each
    /// other.
    ConflictingAttributes(Seq<char>, Seq<char>, Seq<char>),
    /// The element (first) uses a feature (second) that the reader does not support.
    NotSupported(Seq<char>, Seq<char>),
    /// An end tag (first) where the innermost open element is another one (second).
    IllegalEndTag(Seq<char>, Seq<char>),
    /// The text is no well-formed XML; the message of the XML reader.
    Xml(Seq<char>),
    /// The document makes more states, transitions or ids than the model holds.
    TooLarge,
    /// A state has an initial transition twice (attribute and element, or two elements).
    InitialTwice,
    /// An element that needs an enclosing state has none.
    NoState,
}

/// The issue of two attributes `a` and `b` of `element` that exclude each other.
pub open spec fn exclusive(
    attrs: Seq<(Seq<char>, Seq<char>)>,
    element: Seq<char>,
    a: Seq<char>,
    b: Seq<char>,
) -> Option<ReaderIssue> {
    if attr_value(attrs, a) is Some && attr_value(attrs, b) is Some {
        Some(ReaderIssue::ConflictingAttributes(element, a, b))
    } else {
        None
    }
}

/// The attribute rules of `<send>`, checked in this order: `event` / `eventexpr`,
/// `target` / `targetexpr`, `type` / `typeexpr`, `id` / `idlocation` and `delay` /
/// `delayexpr` exclude each other; a non-empty `delay` is not possible with the type
/// `_internal`.
pub open spec fn send_issue(attrs: Seq<(Seq<char>, Seq<char>)>) -> Option<ReaderIssue> {
    if exclusive(attrs, "send"@, "event"@, "eventexpr"@) is Some {
        exclusive(attrs, "send"@, "event"@, "eventexpr"@)
    } else if exclusive(attrs, "send"@, "target"@, "targetexpr"@) is Some {
        exclusive(attrs, "send"@, "target"@, "targetexpr"@)
    } else if exclusive(attrs, "send"@, "type"@, "typeexpr"@) is Some {
        exclusive(attrs, "send"@, "type"@, "typeexpr"@)
    } else if exclusive(attrs, "send"@, "id"@, "idlocation"@) is Some {
        exclusive(attrs, "send"@, "id"@, "idlocation"@)
    } else if exclusive(attrs, "send"@, "delay"@, "delayexpr"@) is Some {
        exclusive(attrs, "send"@, "delay"@, "delayexpr"@)
    } else if attr_value(attrs, "delay"@) matches Some(d) && d.len() > 0 && attr_value(
        attrs,
        "type"@,
    ) == Some("_internal"@) {
        Some(ReaderIssue::NotSupported("send"@, "delay"@))
    } else {
        None
    }
}

/// The attribute rules of `<cancel>`: exactly one of `sendid` and `sendidexpr`.
pub open spec fn cancel_issue(attrs: Seq<(Seq<char>, Seq<char>)>) -> Option<ReaderIssue> {
    if exclusive(attrs, "cancel"@, "sendid"@, "sendidexpr"@) is Some {
        exclusive(attrs, "cancel"@, "sendid"@, "sendidexpr"@)
    } else if attr_value(attrs, "sendid"@) is None && attr_value(attrs, "sendidexpr"@) is None {
        Some(ReaderIssue::MissingEither("cancel"@, "sendid"@, "sendidexpr"@))
    } else {
        None
    }
}

/// The attribute rules of `<include>`: `href` is required, `parse` must be `text`, and
/// `xpointer` is not supported.
pub open spec fn include_issue(attrs: Seq<(Seq<char>, Seq<char>)>) -> Option<ReaderIssue> {
    if attr_value(attrs, "href"@) is None {
        Some(ReaderIssue::MissingAttribute("include"@, "href"@))
    } else if attr_value(attrs, "parse"@) != Some("text"@) {
        Some(ReaderIssue::NotSupported("include"@, "parse"@))
    } else if attr_value(attrs, "xpointer"@) is Some {
        Some(ReaderIssue::NotSupported("include"@, "xpointer"@))
    } else {
        None
    }
}

/// What is wrong with a start tag `name` with the attributes `attrs`, inside the open
/// elements `tags`, `in_scxml` telling whether an `<scxml>` element was read: `None` if
/// nothing. A `<transition>` type must be "internal" or "external", in any letter case.
pub open spec fn start_issue(
    tags: Seq<Seq<char>>,
    in_scxml: bool,
    name: Seq<char>,
    attrs: Seq<(Seq<char>, Seq<char>)>,
) -> Option<ReaderIssue> {
    if name == "scxml"@ {
        if in_scxml {
            Some(ReaderIssue::SecondScxml)
        } else {
            None
        }
    } else if name == "include"@ {
        include_issue(attrs)
    } else {
        match allowed_parents(name) {
            None => None,
            Some(ps) => if !names_contain(ps, parent_of(tags)) {
                Some(ReaderIssue::WrongParent(name, parent_of(tags)))
            } else if name == "finalize"@ {
                Some(ReaderIssue::NotSupported("finalize"@, Seq::empty()))
            } else if name == "send"@ {
                send_issue(attrs)
            } else if name == "cancel"@ {
                cancel_issue(attrs)
            } else if name == "transition"@ {
                match attr_value(attrs, "type"@) {
                    Some(t) => if is_transition_type_name(t) {
                        None
                    } else {
                        Some(ReaderIssue::NotSupported("transition"@, "type"@))
                    },
                    None => None,
                }
            } else {
                None
            },
        }
    }
}


/// The elements inside which the element `name` may stand.
fn allowed_parents_of(name: &str) -> (r: Option<Vec<&'static str>>)
    ensures
        match r {
            Some(v) => allowed_parents(name@) == Some(v@),
            None => allowed_parents(name@) is None,
        },
{
        if same_text(name, "parallel") {
            Some(vec!["scxml", "state", "parallel"])
        } else if same_text(name, "final") {
            Some(vec!["scxml", "state"])
        } else if same_text(name, "donedata") {
            Some(vec!["final"])
        } else if same_text(name, "history") {
            Some(vec!["state", "parallel"])
        } else if same_text(name, "state") {
            Some(vec!["scxml", "state", "parallel"])
        } else if same_text(name, "datamodel") {
            Some(vec!["scxml", "state", "parallel"])
        } else if same_text(name, "data") {
            Some(vec!["datamodel"])
        } else if same_text(name, "initial") {
            Some(vec!["state", "parallel"])
        } else if same_text(name, "invoke") {
            Some(vec!["state", "parallel"])
        } else if same_text(name, "finalize") {
            Some(vec!["invoke"])
        } else if same_text(name, "transition") {
            Some(vec!["history", "initial", "state", "parallel"])
        } else if same_text(name, "script") {
            Some(vec!["scxml", "transition", "onexit", "onentry", "if", "foreach", "finalize"])
        } else if same_text(name, "foreach") {
            Some(vec!["onentry", "onexit", "transition", "foreach", "if", "finalize"])
        } else if same_text(name, "cancel") {
            Some(vec!["transition", "onexit", "onentry", "if", "foreach"])
        } else if same_text(name, "onentry") {
            Some(vec!["state", "parallel", "final"])
        } else if same_text(name, "onexit") {
            Some(vec!["state", "parallel", "final"])
        } else if same_text(name, "if") {
            Some(vec!["onentry", "onexit", "transition", "foreach", "if", "finalize"])
        } else if same_text(name, "elseif") {
            Some(vec!["if"])
        } else if same_text(name, "else") {
            Some(vec!["if"])
        } else if same_text(name, "send") {
            Some(vec!["transition", "onexit", "onentry", "if", "foreach"])
        } else if same_text(name, "content") {
            Some(vec!["send", "invoke", "donedata"])
        } else if same_text(name, "param") {
            Some(vec!["send", "invoke", "donedata"])
        } else if same_text(name, "log") {
            Some(vec!["transition", "onexit", "onentry", "if", "foreach", "finalize"])
        } else if same_text(name, "assign") {
            Some(vec!["transition", "onexit", "onentry", "if", "foreach", "finalize"])
        } else if same_text(name, "raise") {
            Some(vec!["transition", "onexit", "onentry", "if", "foreach"])
        } else {
            None
        }
}

/// An item of an XML document, as the XML reader gives it.
pub enum XmlItem {
    /// A start tag (`false`) or an empty-element tag (`true`), with its local name and the
    /// text of its attributes.
    Tag(bool, String, String),
    /// An end tag with its local name.
    End(String),
    /// Anything else: text, comments, declarations.
    Other,
}

/// The view of an XML item.
pub enum XmlItemView {
    Tag(bool, Seq<char>, Seq<char>),
    End(Seq<char>),
    Other,
}

impl View for XmlItem {
    type V = XmlItemView;

    open spec fn view(&self) -> XmlItemView {
        match self {
            XmlItem::Tag(empty, name, attrs) => XmlItemView::Tag(*empty, name@, attrs@),
            XmlItem::End(name) => XmlItemView::End(name@),
            XmlItem::Other => XmlItemView::Other,
        }
    }
}

/// The items of the XML text `xml` as quick-xml reads them, or its error message.
pub uninterp spec fn xml_items_of(xml: Seq<char>) -> Result<Seq<XmlItemView>, Seq<char>>;

/// The attributes in the attribute text of a tag as quick-xml reads them (keys as
/// written, values unescaped, in order), or its error message.
pub uninterp spec fn attributes_of(raw: Seq<char>) -> Result<Seq<(Seq<char>, Seq<char>)>, Seq<char>>;

/// The views of the items of a result.
pub open spec fn items_view(r: Result<Vec<XmlItem>, String>) -> Result<Seq<XmlItemView>, Seq<char>> {
    match r {
        Ok(v) => Ok(v@.map_values(|i: XmlItem| i@)),
        Err(e) => Err(e@),
    }
}

/// The views of the attributes of a result.
pub open spec fn attributes_view(r: Result<Vec<(String, String)>, String>) -> Result<
    Seq<(Seq<char>, Seq<char>)>,
    Seq<char>,
> {
    match r {
        Ok(v) => Ok(attr_texts(v@)),
        Err(e) => Err(e@),
    }
}

/// quick-xml's `Reader::from_str` and `read_event`, called until the end of the text: each
/// start, empty and end tag with its local name and the raw text of its attributes, any
/// other event as `Other`; quick-xml's error as its message. The result is the name
/// `xml_items_of` of the text; what quick-xml accepts is not stated.
#[verifier::external_body]
fn xml_items(xml: &str) -> (r: Result<Vec<XmlItem>, String>)
    ensures
        items_view(r) == xml_items_of(xml@),
{
    let text = |b: &[u8]| String::from_utf8_lossy(b).into_owned();
    let mut reader = XmlReader::from_str(xml);
    let mut items = Vec::new();
    loop {
        items.push(match reader.read_event().map_err(|e| e.to_string())? {
            XmlEvent::Start(e) => XmlItem::Tag(false, text(e.local_name().as_ref()), text(e.attributes_raw())),
            XmlEvent::Empty(e) => XmlItem::Tag(true, text(e.local_name().as_ref()), text(e.attributes_raw())),
            XmlEvent::End(e) => XmlItem::End(text(e.local_name().as_ref())),
            XmlEvent::Eof => return Ok(items),
            _ => XmlItem::Other,
        });
    }
}

/// quick-xml's `Attributes::new` over the attribute text of a tag and its iteration: each
/// attribute with its key as written and its value unescaped (`unescape_value`), in order;
/// quick-xml's error as its message. The result is the name `attributes_of` of the text.
#[verifier::external_body]
pub(crate) fn attribute_list(raw: &str) -> (r: Result<Vec<(String, String)>, String>)
    ensures
        attributes_view(r) == attributes_of(raw@),
{
    let mut r = Vec::new();
    for a in XmlAttributes::new(raw, 0) {
        let a = a.map_err(|e| e.to_string())?;
        let value = a.unescape_value().map_err(|e| e.to_string())?.into_owned();
        r.push((String::from_utf8_lossy(a.key.as_ref()).into_owned(), value));
    }
    Ok(r)
}

/// What the reader state holds, as views.
pub struct ReaderView {
    pub tags: Seq<Seq<char>>,
    pub in_scxml: bool,
    pub name: Seq<char>,
    pub datamodel: Seq<char>,
    pub version: Seq<char>,
}

/// The reader state at the start of a document.
pub open spec fn initial_view() -> ReaderView {
    ReaderView {
        tags: Seq::empty(),
        in_scxml: false,
        name: Seq::empty(),
        datamodel: Seq::empty(),
        version: Seq::empty(),
    }
}

/// The value of the attribute `key`, or `dflt` where it is not given.
pub open spec fn attr_or(attrs: Seq<(Seq<char>, Seq<char>)>, key: Seq<char>, dflt: Seq<char>) -> Seq<char> {
    match attr_value(attrs, key) {
        Some(v) => v,
        None => dflt,
    }
}

/// The reader state after the start tag `name` with the attributes `attrs`, where it
/// breaks no rule.
pub open spec fn started(v: ReaderView, name: Seq<char>, attrs: Seq<(Seq<char>, Seq<char>)>) -> ReaderView {
    let scxml = name == "scxml"@;
    ReaderView {
        tags: if name == "include"@ {
            v.tags
        } else {
            v.tags.push(name)
        },
        in_scxml: v.in_scxml || scxml,
        name: if scxml {
            attr_or(attrs, "name"@, v.name)
        } else {
            v.name
        },
        datamodel: if scxml {
            attr_or(attrs, "datamodel"@, v.datamodel)
        } else {
            v.datamodel
        },
        version: if scxml {
            attr_or(attrs, "version"@, v.version)
        } else {
            v.version
        },
    }
}

/// The reader state after an end tag that closes the innermost open element.
pub open spec fn ended(v: ReaderView) -> ReaderView {
    ReaderView {
        tags: if v.tags.len() > 0 {
            v.tags.drop_last()
        } else {
            v.tags
        },
        in_scxml: v.in_scxml,
        name: v.name,
        datamodel: v.datamodel,
        version: v.version,
    }
}

/// Reading the items `items` from the reader state `v`: the attributes of each tag are
/// read by `attributes_of`, each start tag is checked by `start_issue` and opened, an
/// empty-element tag is opened and closed, an end tag must close the innermost open
/// element; the first broken rule ends the reading. An
/// `<include>` opens nothing: the caller reads the included document in its place.
pub open spec fn read_spec(items: Seq<XmlItemView>, v: ReaderView) -> Result<ReaderView, ReaderIssue>
    decreases items.len(),
{
    if items.len() == 0 {
        Ok(v)
    } else {
        let rest = items.drop_first();
        match items[0] {
            XmlItemView::Tag(empty, n, raw) => match attributes_of(raw) {
                Err(m) => Err(ReaderIssue::Xml(m)),
                Ok(a) => match start_issue(v.tags, v.in_scxml, n, a) {
                    Some(i) => Err(i),
                    None => if empty && n != "include"@ {
                        read_spec(rest, ended(started(v, n, a)))
                    } else {
                        read_spec(rest, started(v, n, a))
                    },
                },
            },
            XmlItemView::End(n) => if n == "include"@ {
                read_spec(rest, v)
            } else if parent_of(v.tags) == n {
                read_spec(rest, ended(v))
            } else {
                Err(ReaderIssue::IllegalEndTag(n, parent_of(v.tags)))
            },
            XmlItemView::Other => read_spec(rest, v),
        }
    }
}

/// Reading the XML text `xml` from the start of a document.
pub open spec fn read_document(xml: Seq<char>) -> Result<ReaderView, ReaderIssue> {
    match xml_items_of(xml) {
        Err(m) => Err(ReaderIssue::Xml(m)),
        Ok(items) => read_spec(items, initial_view()),
    }
}

/// What is wrong with a document, as the reader reports it.
#[derive(Debug, PartialEq)]
pub enum ReaderError {
    WrongParent(String, String),
    SecondScxml,
    MissingAttribute(String, String),
    MissingEither(String, String, String),
    ConflictingAttributes(String, String, String),
    NotSupported(String, String),
    IllegalEndTag(String, String),
    Xml(String),
    TooLarge,
    InitialTwice,
    NoState,
}

impl View for ReaderError {
    type V = ReaderIssue;

    open spec fn view(&self) -> ReaderIssue {
        match self {
            ReaderError::WrongParent(a, b) => ReaderIssue::WrongParent(a@, b@),
            ReaderError::SecondScxml => ReaderIssue::SecondScxml,
            ReaderError::MissingAttribute(a, b) => ReaderIssue::MissingAttribute(a@, b@),
            ReaderError::MissingEither(a, b, c) => ReaderIssue::MissingEither(a@, b@, c@),
            ReaderError::ConflictingAttributes(a, b, c) => ReaderIssue::ConflictingAttributes(
                a@,
                b@,
                c@,
            ),
            ReaderError::NotSupported(a, b) => ReaderIssue::NotSupported(a@, b@),
            ReaderError::IllegalEndTag(a, b) => ReaderIssue::IllegalEndTag(a@, b@),
            ReaderError::Xml(m) => ReaderIssue::Xml(m@),
            ReaderError::TooLarge => ReaderIssue::TooLarge,
            ReaderError::InitialTwice => ReaderIssue::InitialTwice,
            ReaderError::NoState => ReaderIssue::NoState,
        }
    }
}

/// The state of the reader while it reads a document: the open elements and what the
/// `<scxml>` element said.
pub struct ReaderState {
    /// The tags of the open elements, the outermost first.
    pub tags: Vec<String>,
    pub in_scxml: bool,
    /// The name, data model and version that the `<scxml>` element gave, empty where not.
    pub name: String,
    pub datamodel: String,
    pub version: String,
}

impl ReaderState {
    /// The views of the open tags.
    pub open spec fn tag_texts(&self) -> Seq<Seq<char>> {
        self.tags@.map_values(|t: String| t@)
    }

    /// A reader at the start of a document.
    pub fn new() -> (r: ReaderState)
        ensures
            r.tag_texts() == Seq::<Seq<char>>::empty(),
            !r.in_scxml,
            r.name@ == Seq::<char>::empty(),
            r.datamodel@ == Seq::<char>::empty(),
            r.version@ == Seq::<char>::empty(),
    {
        let r = ReaderState {
            tags: Vec::new(),
            in_scxml: false,
            name: String::new(),
            datamodel: String::new(),
            version: String::new(),
        };
        assert(r.tag_texts() =~= Seq::<Seq<char>>::empty());
        r
    }

    /// The value of the attribute `key`: the last one where it occurs more than once.
    pub(crate) fn attribute(attrs: &Vec<(String, String)>, key: &str) -> (r: Option<String>)
        ensures
            match r {
                Some(v) => attr_value(attr_texts(attrs@), key@) == Some(v@),
                None => attr_value(attr_texts(attrs@), key@) is None,
            },
    {
        let mut found: Option<String> = None;
        let mut i: usize = 0;
        while i < attrs.len()
            invariant
                i <= attrs@.len(),
                match found {
                    Some(v) => attr_value(attr_texts(attrs@.take(i as int)), key@) == Some(v@),
                    None => attr_value(attr_texts(attrs@.take(i as int)), key@) is None,
                },
            decreases attrs@.len() - i,
        {
            proof {
                let t = attr_texts(attrs@.take(i + 1));
                assert(t.drop_last() =~= attr_texts(attrs@.take(i as int)));
                assert(t.last() == (attrs@[i as int].0@, attrs@[i as int].1@));
            }
            if same_text(attrs[i].0.as_str(), key) {
                found = Some(attrs[i].1.clone());
            }
            i = i + 1;
        }
        assert(attrs@.take(attrs@.len() as int) =~= attrs@);
        found
    }

    /// Whether the attribute `key` is given.
    fn has_attribute(attrs: &Vec<(String, String)>, key: &str) -> (r: bool)
        ensures
            r == attr_value(attr_texts(attrs@), key@) is Some,
    {
        Self::attribute(attrs, key).is_some()
    }

    /// The rules of the element `name` that the reader does not check by the parent tag.
    fn exclusive_check(
        attrs: &Vec<(String, String)>,
        element: &str,
        a: &str,
        b: &str,
    ) -> (r: Option<ReaderError>)
        ensures
            match r {
                Some(e) => exclusive(attr_texts(attrs@), element@, a@, b@) == Some(e@),
                None => exclusive(attr_texts(attrs@), element@, a@, b@) is None,
            },
    {
        if Self::has_attribute(attrs, a) && Self::has_attribute(attrs, b) {
            Some(
                ReaderError::ConflictingAttributes(
                    String::from_str(element),
                    String::from_str(a),
                    String::from_str(b),
                ),
            )
        } else {
            None
        }
    }

    /// The attribute rules of `<send>`.
    fn send_check(attrs: &Vec<(String, String)>) -> (r: Option<ReaderError>)
        ensures
            match r {
                Some(e) => send_issue(attr_texts(attrs@)) == Some(e@),
                None => send_issue(attr_texts(attrs@)) is None,
            },
    {
        let e = Self::exclusive_check(attrs, "send", "event", "eventexpr");
        if e.is_some() {
            return e;
        }
        let e = Self::exclusive_check(attrs, "send", "target", "targetexpr");
        if e.is_some() {
            return e;
        }
        let e = Self::exclusive_check(attrs, "send", "type", "typeexpr");
        if e.is_some() {
            return e;
        }
        let e = Self::exclusive_check(attrs, "send", "id", "idlocation");
        if e.is_some() {
            return e;
        }
        let e = Self::exclusive_check(attrs, "send", "delay", "delayexpr");
        if e.is_some() {
            return e;
        }
        match Self::attribute(attrs, "delay") {
            Some(d) => {
                if d.as_str().unicode_len() > 0 {
                    match Self::attribute(attrs, "type") {
                        Some(t) => {
                            if same_text(t.as_str(), "_internal") {
                                return Some(
                                    ReaderError::NotSupported(
                                        String::from_str("send"),
                                        String::from_str("delay"),
                                    ),
                                );
                            }
                        },
                        None => {},
                    }
                }
            },
            None => {},
        }
        None
    }

    /// The attribute rules of `<cancel>`.
    fn cancel_check(attrs: &Vec<(String, String)>) -> (r: Option<ReaderError>)
        ensures
            match r {
                Some(e) => cancel_issue(attr_texts(attrs@)) == Some(e@),
                None => cancel_issue(attr_texts(attrs@)) is None,
            },
    {
        let e = Self::exclusive_check(attrs, "cancel", "sendid", "sendidexpr");
        if e.is_some() {
            return e;
        }
        if !Self::has_attribute(attrs, "sendid") && !Self::has_attribute(attrs, "sendidexpr") {
            return Some(
                ReaderError::MissingEither(
                    String::from_str("cancel"),
                    String::from_str("sendid"),
                    String::from_str("sendidexpr"),
                ),
            );
        }
        None
    }

    /// The attribute rules of `<include>`.
    fn include_check(attrs: &Vec<(String, String)>) -> (r: Option<ReaderError>)
        ensures
            match r {
                Some(e) => include_issue(attr_texts(attrs@)) == Some(e@),
                None => include_issue(attr_texts(attrs@)) is None,
            },
    {
        if !Self::has_attribute(attrs, "href") {
            return Some(
                ReaderError::MissingAttribute(String::from_str("include"), String::from_str("href")),
            );
        }
        let text_parse = match Self::attribute(attrs, "parse") {
            Some(p) => same_text(p.as_str(), "text"),
            None => false,
        };
        if !text_parse {
            return Some(
                ReaderError::NotSupported(String::from_str("include"), String::from_str("parse")),
            );
        }
        if Self::has_attribute(attrs, "xpointer") {
            return Some(
                ReaderError::NotSupported(String::from_str("include"), String::from_str("xpointer")),
            );
        }
        None
    }

    /// The tag of the innermost open element, or the empty text.
    pub(crate) fn parent_tag(&self) -> (r: String)
        ensures
            r@ == parent_of(self.tag_texts()),
    {
        if self.tags.len() == 0 {
            String::new()
        } else {
            self.tags[self.tags.len() - 1].clone()
        }
    }

    /// Whether `parent` is one of `names`.
    fn contains_name(names: &Vec<&'static str>, parent: &str) -> (r: bool)
        ensures
            r == names_contain(names@, parent@),
    {
        let mut i: usize = 0;
        while i < names.len()
            invariant
                i <= names@.len(),
                forall|j: int| 0 <= j < i ==> names@[j]@ != parent@,
            decreases names@.len() - i,
        {
            if same_text(names[i], parent) {
                return true;
            }
            i = i + 1;
        }
        false
    }

    /// #Actual implementation:
    /// The start of the element `name` with the attributes `attrs`. The element is opened
    /// (an `<include>` is not: its content, which the caller reads, stands in place of it);
    /// then its rules are checked, and an error returned where one is broken. An
    /// `<scxml>` element marks the document as started and gives its name, data model and
    /// version.
    pub fn start_element(&mut self, name: &str, attrs: &Vec<(String, String)>) -> (r: Result<(), ReaderError>)
        ensures
            ({
                let issue = start_issue(
                    old(self).tag_texts(),
                    old(self).in_scxml,
                    name@,
                    attr_texts(attrs@),
                );
                &&& match r {
                    Ok(_) => issue is None,
                    Err(e) => issue == Some(e@),
                }
                &&& final(self).tag_texts() == if name@ == "include"@ {
                    old(self).tag_texts()
                } else {
                    old(self).tag_texts().push(name@)
                }
                &&& final(self).in_scxml == (old(self).in_scxml || name@ == "scxml"@)
                &&& if name@ == "scxml"@ && issue is None {
                    &&& final(self).name@ == match attr_value(attr_texts(attrs@), "name"@) {
                        Some(v) => v,
                        None => old(self).name@,
                    }
                    &&& final(self).datamodel@ == match attr_value(attr_texts(attrs@), "datamodel"@) {
                        Some(v) => v,
                        None => old(self).datamodel@,
                    }
                    &&& final(self).version@ == match attr_value(attr_texts(attrs@), "version"@) {
                        Some(v) => v,
                        None => old(self).version@,
                    }
                } else {
                    &&& final(self).name == old(self).name
                    &&& final(self).datamodel == old(self).datamodel
                    &&& final(self).version == old(self).version
                }
            }),
    {
        let parent = self.parent_tag();
        let ghost tags0 = self.tag_texts();
        if same_text(name, "include") {
            proof {
                reveal_strlit("include");
                reveal_strlit("scxml");
                assert(name@[0] != "scxml"@[0]);
            }
            return match Self::include_check(attrs) {
                Some(e) => Err(e),
                None => Ok(()),
            };
        }
        self.tags.push(String::from_str(name));
        assert(self.tag_texts() =~= tags0.push(name@));
        if same_text(name, "scxml") {
            if self.in_scxml {
                return Err(ReaderError::SecondScxml);
            }
            self.in_scxml = true;
            match Self::attribute(attrs, "name") {
                Some(v) => {
                    self.name = v;
                },
                None => {},
            }
            match Self::attribute(attrs, "datamodel") {
                Some(v) => {
                    self.datamodel = v;
                },
                None => {},
            }
            match Self::attribute(attrs, "version") {
                Some(v) => {
                    self.version = v;
                },
                None => {},
            }
            return Ok(());
        }
        match allowed_parents_of(name) {
            None => Ok(()),
            Some(ps) => {
                if !Self::contains_name(&ps, parent.as_str()) {
                    return Err(ReaderError::WrongParent(String::from_str(name), parent));
                }
                if same_text(name, "finalize") {
                    return Err(
                        ReaderError::NotSupported(String::from_str("finalize"), String::new()),
                    );
                }
                let issue = if same_text(name, "send") {
                    Self::send_check(attrs)
                } else if same_text(name, "cancel") {
                    Self::cancel_check(attrs)
                } else if same_text(name, "transition") {
                    match Self::attribute(attrs, "type") {
                        Some(t) => if is_transition_type(&t) {
                            None
                        } else {
                            Some(
                                ReaderError::NotSupported(
                                    String::from_str("transition"),
                                    String::from_str("type"),
                                ),
                            )
                        },
                        None => None,
                    }
                } else {
                    None
                };
                match issue {
                    Some(e) => Err(e),
                    None => Ok(()),
                }
            },
        }
    }

    /// #Actual implementation:
    /// The end of the element `name`: it must be the innermost open element, which is
    /// then closed.
    pub fn end_element(&mut self, name: &str) -> (r: Result<(), ReaderError>)
        ensures
            ({
                let tags = old(self).tag_texts();
                let current = parent_of(tags);
                &&& match r {
                    Ok(_) => current == name@,
                    Err(e) => current != name@ && e@ == ReaderIssue::IllegalEndTag(name@, current),
                }
                &&& final(self).tag_texts() == if r is Ok && tags.len() > 0 {
                    tags.drop_last()
                } else {
                    tags
                }
                &&& final(self).in_scxml == old(self).in_scxml
                &&& final(self).name == old(self).name
                &&& final(self).datamodel == old(self).datamodel
                &&& final(self).version == old(self).version
            }),
    {
        let current = self.parent_tag();
        if !same_text(current.as_str(), name) {
            return Err(ReaderError::IllegalEndTag(String::from_str(name), current));
        }
        let ghost tags0 = self.tag_texts();
        if self.tags.len() > 0 {
            self.tags.pop();
            assert(self.tag_texts() =~= tags0.drop_last());
        }
        Ok(())
    }

    /// The views of what the reader holds.
    pub open spec fn view_of(&self) -> ReaderView {
        ReaderView {
            tags: self.tag_texts(),
            in_scxml: self.in_scxml,
            name: self.name@,
            datamodel: self.datamodel@,
            version: self.version@,
        }
    }

    /// Reads the items of a document (see `read_spec`) from the start of the document.
    pub fn read_items(items: &Vec<XmlItem>) -> (r: Result<ReaderState, ReaderError>)
        ensures
            match r {
                Ok(s) => read_spec(items@.map_values(|i: XmlItem| i@), initial_view()) == Ok::<
                    ReaderView,
                    ReaderIssue,
                >(s.view_of()),
                Err(e) => read_spec(items@.map_values(|i: XmlItem| i@), initial_view()) == Err::<
                    ReaderView,
                    ReaderIssue,
                >(e@),
            },
    {
        let ghost all = items@.map_values(|i: XmlItem| i@);
        let mut state = ReaderState::new();
        proof {
            assert(state.view_of() == initial_view()) by {
                assert(state.name@ =~= Seq::<char>::empty());
            }
            assert(all.skip(0) =~= all);
        }
        let mut i: usize = 0;
        while i < items.len()
            invariant
                i <= items@.len(),
                all == items@.map_values(|i: XmlItem| i@),
                read_spec(all, initial_view()) == read_spec(all.skip(i as int), state.view_of()),
            decreases items@.len() - i,
        {
            let ghost v = state.view_of();
            proof {
                assert(all.skip(i as int)[0] == items@[i as int]@);
                assert(all.skip(i as int).drop_first() =~= all.skip(i + 1));
            }
            match &items[i] {
                XmlItem::Tag(empty, name, raw) => {
                    let attrs = match attribute_list(raw.as_str()) {
                        Err(m) => {
                            return Err(ReaderError::Xml(m));
                        },
                        Ok(a) => a,
                    };
                    let attrs = &attrs;
                    match state.start_element(name.as_str(), attrs) {
                        Err(e) => {
                            return Err(e);
                        },
                        Ok(()) => {},
                    }
                    assert(state.view_of() == started(v, name@, attr_texts(attrs@)));
                    if *empty && !same_text(name.as_str(), "include") {
                        proof {
                            lemma_end_undoes_start(v.tags, name@);
                        }
                        match state.end_element(name.as_str()) {
                            Err(e) => {
                                return Err(e);
                            },
                            Ok(()) => {},
                        }
                        assert(state.view_of() == ended(started(v, name@, attr_texts(attrs@))));
                    }
                },
                XmlItem::End(name) => {
                    if !same_text(name.as_str(), "include") {
                        match state.end_element(name.as_str()) {
                            Err(e) => {
                                return Err(e);
                            },
                            Ok(()) => {},
                        }
                        assert(state.view_of() == ended(v));
                    }
                },
                XmlItem::Other => {},
            }
            i = i + 1;
        }
        assert(all.skip(items@.len() as int) =~= Seq::<XmlItemView>::empty());
        Ok(state)
    }

}

/// Reading the items `items` and building the state machine: the items are read as
/// `read_spec` reads them, and each element that is opened (but `<include>`) is handed to
/// the builder with the tag of its enclosing element (`model_after_start`), each one that
/// is closed taken from it (`model_after_end`). The first broken rule ends the reading.
pub open spec fn build_spec(items: Seq<XmlItemView>, v: ReaderView, b: BuilderView) -> Result<BuilderView, ReaderIssue>
    decreases items.len(),
{
    if items.len() == 0 {
        Ok(b)
    } else {
        let rest = items.drop_first();
        match items[0] {
            XmlItemView::Tag(empty, n, raw) => match attributes_of(raw) {
                Err(m) => Err(ReaderIssue::Xml(m)),
                Ok(a) => match start_issue(v.tags, v.in_scxml, n, a) {
                    Some(i) => Err(i),
                    None => if n == "include"@ {
                        build_spec(rest, started(v, n, a), b)
                    } else {
                        match model_after_start(b, parent_of(v.tags), n, a) {
                            Err(i) => Err(i),
                            Ok(b1) => if empty {
                                build_spec(rest, ended(started(v, n, a)), model_after_end(b1))
                            } else {
                                build_spec(rest, started(v, n, a), b1)
                            },
                        }
                    },
                },
            },
            XmlItemView::End(n) => if n == "include"@ {
                build_spec(rest, v, b)
            } else if parent_of(v.tags) == n {
                build_spec(rest, ended(v), model_after_end(b))
            } else {
                Err(ReaderIssue::IllegalEndTag(n, parent_of(v.tags)))
            },
            XmlItemView::Other => build_spec(rest, v, b),
        }
    }
}

/// The state machine that the items `items` describe, or the first broken rule.
pub open spec fn items_model(items: Seq<XmlItemView>) -> Result<FsmModel, ReaderIssue> {
    match build_spec(items, initial_view(), initial_builder()) {
        Ok(b) => Ok(b.m),
        Err(i) => Err(i),
    }
}

/// The state machine that the XML text `xml` describes, or the first broken rule.
pub open spec fn document_model(xml: Seq<char>) -> Result<FsmModel, ReaderIssue> {
    match xml_items_of(xml) {
        Err(m) => Err(ReaderIssue::Xml(m)),
        Ok(items) => items_model(items),
    }
}

/// Reads the items of a document and builds its state machine (see `build_spec`).
#[verifier::rlimit(40)]
pub fn build_items(items: &Vec<XmlItem>) -> (r: Result<Fsm, ReaderError>)
    ensures
        match r {
            Ok(f) => items_model(items@.map_values(|i: XmlItem| i@)) == Ok::<FsmModel, ReaderIssue>(
                fsm_model(f),
            ),
            Err(e) => items_model(items@.map_values(|i: XmlItem| i@)) == Err::<FsmModel, ReaderIssue>(e@),
        },
{
    let ghost all = items@.map_values(|i: XmlItem| i@);
    let mut state = ReaderState::new();
    let mut b = ModelBuilder::new();
    proof {
        assert(state.view_of() == initial_view()) by {
            assert(state.name@ =~= Seq::<char>::empty());
        }
        assert(all.skip(0) =~= all);
    }
    let mut i: usize = 0;
    while i < items.len()
        invariant
            i <= items@.len(),
            all == items@.map_values(|i: XmlItem| i@),
            build_spec(all, initial_view(), initial_builder()) == build_spec(
                all.skip(i as int),
                state.view_of(),
                b.view_of(),
            ),
            builder_ok(b.view_of()),
        decreases items@.len() - i,
    {
        let ghost v = state.view_of();
        let ghost bv = b.view_of();
        proof {
            assert(all.skip(i as int)[0] == items@[i as int]@);
            assert(all.skip(i as int).drop_first() =~= all.skip(i + 1));
        }
        match &items[i] {
            XmlItem::Tag(empty, name, raw) => {
                let attrs = match attribute_list(raw.as_str()) {
                    Err(m) => {
                        return Err(ReaderError::Xml(m));
                    },
                    Ok(a) => a,
                };
                let attrs = &attrs;
                let parent = state.parent_tag();
                match state.start_element(name.as_str(), attrs) {
                    Err(e) => {
                        return Err(e);
                    },
                    Ok(()) => {},
                }
                assert(state.view_of() == started(v, name@, attr_texts(attrs@)));
                if !same_text(name.as_str(), "include") {
                    match b.start_element(parent.as_str(), name.as_str(), attrs) {
                        Err(e) => {
                            return Err(e);
                        },
                        Ok(()) => {},
                    }
                    if *empty {
                        proof {
                            lemma_end_undoes_start(v.tags, name@);
                        }
                        match state.end_element(name.as_str()) {
                            Err(e) => {
                                return Err(e);
                            },
                            Ok(()) => {},
                        }
                        b.end_element();
                        assert(state.view_of() == ended(started(v, name@, attr_texts(attrs@))));
                    }
                }
            },
            XmlItem::End(name) => {
                if !same_text(name.as_str(), "include") {
                    match state.end_element(name.as_str()) {
                        Err(e) => {
                            return Err(e);
                        },
                        Ok(()) => {},
                    }
                    b.end_element();
                    assert(state.view_of() == ended(v));
                }
            },
            XmlItem::Other => {},
        }
        i = i + 1;
    }
    assert(all.skip(items@.len() as int) =~= Seq::<XmlItemView>::empty());
    Ok(b.fsm)
}

/// #Actual implementation:
/// Reads the FSM from a XML text: the text is read by the XML reader, its items by
/// `build_items`. Returns the state machine, or the first broken rule.
pub fn read_from_xml(xml: String) -> (r: Result<Fsm, ReaderError>)
    ensures
        r is Ok <==> document_model(xml@) is Ok,
        match r {
            Ok(f) => document_model(xml@) == Ok::<FsmModel, ReaderIssue>(fsm_model(f)),
            Err(e) => document_model(xml@) == Err::<FsmModel, ReaderIssue>(e@),
        },
{
    match xml_items(xml.as_str()) {
        Err(m) => Err(ReaderError::Xml(m)),
        Ok(items) => build_items(&items),
    }
}

} // verus!
