//! The event vocabulary shared by the tokenizer, the tree builder and the
//! serializer, and the trusted bridge to the `quick_xml` tokenizer.
//!
//! The tokenizer is an external collaborator: this crate consumes its
//! event stream and does not specify how raw bytes are lexed. What it
//! yields on a given input is named by the uninterpreted functions
//! [`lex_raw`] (the token stream, tags still carrying their raw
//! attribute text), [`attrs_of`] (the attribute pairs of one tag) and
//! [`ref_of`] (the character data of one entity or character reference);
//! [`lex`] is their composition, computed by [`read_events`].

use crate::element::attr_pairs_v;
use quick_xml::escape::unescape;
use quick_xml::events::attributes::Attributes;
use quick_xml::events::Event::{Empty, End, Eof, GeneralRef, Start, Text};
use quick_xml::Reader;
use self::RawEvent::{
    Empty as RawEmpty, End as RawEnd, Ignorable as RawIgnorable, Ref as RawRef,
    Start as RawStart, Text as RawText,
};
use vstd::prelude::*;

verus! {

/// Spec-level image of a [`Tag`].
#[verifier::ext_equal]
pub struct TagV {
    /// The tag name.
    pub name: Seq<char>,
    /// Attribute pairs exactly as they stand in the source, in source
    /// order.
    pub attrs: Seq<(Seq<char>, Seq<char>)>,
}

/// The payload of a start or empty tag event: the raw name and the
/// attribute list as the tokenizer handed it over.
#[derive(Debug)]
pub struct Tag {
    /// The tag name.
    pub name: String,
    /// Attribute pairs in source order.
    pub attrs: Vec<(String, String)>,
}

impl View for Tag {
    type V = TagV;

    open spec fn view(&self) -> TagV {
        TagV { name: self.name@, attrs: attr_pairs_v(self.attrs@) }
    }
}

/// Spec-level image of an [`XmlEvent`].
#[verifier::ext_equal]
pub enum EventV {
    /// An opening tag.
    Start(TagV),
    /// A self-closing tag.
    Empty(TagV),
    /// A closing tag carrying its name.
    End(Seq<char>),
    /// A run of character data.
    Text(Seq<char>),
    /// A comment, CDATA section, declaration, processing instruction or
    /// doctype: the builder produces no node for it.
    Ignorable,
}

/// One discrete token of the input, as handed over by the tokenizer.
/// An entity or character reference in character data arrives as a
/// [`XmlEvent::Text`] event carrying its decoded character data.
#[derive(Debug)]
pub enum XmlEvent {
    /// An opening tag.
    Start(Tag),
    /// A self-closing tag.
    Empty(Tag),
    /// A closing tag carrying its name.
    End(String),
    /// A run of character data.
    Text(String),
    /// A comment, CDATA section, declaration, processing instruction or
    /// doctype: the builder produces no node for it.
    Ignorable,
}

impl View for XmlEvent {
    type V = EventV;

    open spec fn view(&self) -> EventV {
        match self {
            XmlEvent::Start(t) => EventV::Start(t@),
            XmlEvent::Empty(t) => EventV::Empty(t@),
            XmlEvent::End(n) => EventV::End(n@),
            XmlEvent::Text(s) => EventV::Text(s@),
            XmlEvent::Ignorable => EventV::Ignorable,
        }
    }
}

/// The views of a list of events, in order.
pub open spec fn events_v(evs: Seq<XmlEvent>) -> Seq<EventV> {
    Seq::new(evs.len(), |i: int| evs[i]@)
}

/// Spec-level image of a [`RawEvent`].
#[verifier::ext_equal]
pub enum RawEventV {
    /// An opening tag: its name and its raw attribute text.
    Start(Seq<char>, Seq<char>),
    /// A self-closing tag: its name and its raw attribute text.
    Empty(Seq<char>, Seq<char>),
    /// A closing tag carrying its name.
    End(Seq<char>),
    /// A run of character data.
    Text(Seq<char>),
    /// An entity or character reference in character data: what stands
    /// between `&` and `;`.
    Ref(Seq<char>),
    /// A comment, CDATA section, declaration, processing instruction or
    /// doctype.
    Ignorable,
}

/// One token as the tokenizer yields it, the attribute text of a tag
/// still unparsed and references not yet decoded.
#[derive(Debug)]
pub enum RawEvent {
    /// An opening tag: its name and its raw attribute text.
    Start(String, String),
    /// A self-closing tag: its name and its raw attribute text.
    Empty(String, String),
    /// A closing tag carrying its name.
    End(String),
    /// A run of character data.
    Text(String),
    /// An entity or character reference in character data: what stands
    /// between `&` and `;`.
    Ref(String),
    /// A comment, CDATA section, declaration, processing instruction or
    /// doctype.
    Ignorable,
}

impl View for RawEvent {
    type V = RawEventV;

    open spec fn view(&self) -> RawEventV {
        match self {
            RawEvent::Start(n, a) => RawEventV::Start(n@, a@),
            RawEvent::Empty(n, a) => RawEventV::Empty(n@, a@),
            RawEvent::End(n) => RawEventV::End(n@),
            RawEvent::Text(s) => RawEventV::Text(s@),
            RawEvent::Ref(c) => RawEventV::Ref(c@),
            RawEvent::Ignorable => RawEventV::Ignorable,
        }
    }
}

/// The views of a list of raw events, in order.
pub open spec fn raw_events_v(evs: Seq<RawEvent>) -> Seq<RawEventV> {
    Seq::new(evs.len(), |i: int| evs[i]@)
}

/// Spec-level image of the optional diagnostic.
pub open spec fn opt_msg_v(m: Option<String>) -> Option<Seq<char>> {
    match m {
        Some(s) => Some(s@),
        None => None,
    }
}

/// What the tokenizer makes of an input: the tokens it yields before it
/// stops, and, when it stops on something it cannot lex rather than on
/// the end of the input, a diagnostic message. The result depends on the
/// input text alone.
pub uninterp spec fn lex_raw(s: Seq<char>) -> (Seq<RawEventV>, Option<Seq<char>>);

/// What the tokenizer makes of the raw attribute text of one tag: the
/// name/value pairs, or a diagnostic when the attribute syntax is
/// broken. The result depends on the attribute text alone.
pub uninterp spec fn attrs_of(raw: Seq<char>) -> Result<Seq<(Seq<char>, Seq<char>)>, Seq<char>>;

/// What decoding one entity or character reference yields: the character
/// data it stands for, or a diagnostic when the reference is unknown or
/// malformed. The result depends on the reference text alone.
pub uninterp spec fn ref_of(name: Seq<char>) -> Result<Seq<char>, Seq<char>>;

/// Relies on `quick_xml::Reader`: `from_str` runs the tokenizer over the
/// whole input and `read_event` yields one typed token at a time until
/// `Eof` or a lexing error; `check_end_names` is switched off so that
/// end-tag matching stays with the tree builder. Tag names, raw
/// attribute text, text runs and reference names are taken over as they
/// stand in the source.
#[verifier::external_body]
fn scan_text(xml: &str) -> (r: (Vec<RawEvent>, Option<String>))
    ensures
        lex_raw(xml@) == (raw_events_v(r.0@), opt_msg_v(r.1)),
{
    let mut reader = Reader::from_str(xml);
    reader.config_mut().check_end_names = false;
    let mut out = vec![];
    loop { match reader.read_event() {
        Err(e) => return (out, Some(e.to_string())),
        Ok(ev) => out.push(match ev {
            Start(e) => RawStart(e.name().0.to_string(), e.attributes_raw().to_string()),
            Empty(e) => RawEmpty(e.name().0.to_string(), e.attributes_raw().to_string()),
            End(e) => RawEnd(e.to_string()),
            Text(e) => RawText(e.to_string()),
            GeneralRef(e) => RawRef(e.to_string()),
            Eof => return (out, None),
            _ => RawIgnorable,
        }), } }
}

/// Relies on `quick_xml::escape::unescape`: a predefined entity
/// reference or a character reference, the `&` and `;` put back around
/// it, resolves to the character data it stands for; an unknown or
/// malformed reference is an error.
#[verifier::external_body]
fn decode_ref(name: &str) -> (r: Result<String, String>)
    ensures
        match r {
            Ok(s) => ref_of(name@) == Ok::<Seq<char>, Seq<char>>(s@),
            Err(m) => ref_of(name@) == Err::<Seq<char>, Seq<char>>(m@),
        },
{
    match unescape(&format!("&{};", name)) {
        Ok(s) => Ok(s.to_string()),
        Err(e) => Err(e.to_string()),
    }
}

/// Relies on `quick_xml::events::attributes::Attributes`: it parses raw
/// attribute text into name/value pairs, both taken over as they stand,
/// and reports broken attribute syntax (a repeated name included) as an
/// error.
#[verifier::external_body]
fn parse_attrs(raw: &str) -> (r: Result<Vec<(String, String)>, String>)
    ensures
        match r {
            Ok(v) => attrs_of(raw@) == Ok::<Seq<(Seq<char>, Seq<char>)>, Seq<char>>(
                attr_pairs_v(v@),
            ),
            Err(m) => attrs_of(raw@) == Err::<Seq<(Seq<char>, Seq<char>)>, Seq<char>>(m@),
        },
{
    let pairs = Attributes::new(raw, 0).map(|a| {
        a.map(|a| (a.key.0.to_string(), a.value.to_string())).map_err(|er| er.to_string())
    });
    pairs.collect()
}

/// The typed events of a raw token stream: attribute text parsed tag by
/// tag, references decoded to text, and the stream cut short at the
/// first tag or reference the tokenizer cannot make sense of, with that
/// diagnostic in place of the tokenizer's own.
pub open spec fn cook(raws: Seq<RawEventV>, lex_err: Option<Seq<char>>) -> (
    Seq<EventV>,
    Option<Seq<char>>,
)
    decreases raws.len(),
{
    if raws.len() == 0 {
        (Seq::empty(), lex_err)
    } else {
        let rest = cook(raws.subrange(1, raws.len() as int), lex_err);
        match raws[0] {
            RawEventV::Start(name, raw) => match attrs_of(raw) {
                Ok(attrs) => (seq![EventV::Start(TagV { name, attrs })] + rest.0, rest.1),
                Err(m) => (Seq::empty(), Some(m)),
            },
            RawEventV::Empty(name, raw) => match attrs_of(raw) {
                Ok(attrs) => (seq![EventV::Empty(TagV { name, attrs })] + rest.0, rest.1),
                Err(m) => (Seq::empty(), Some(m)),
            },
            RawEventV::End(n) => (seq![EventV::End(n)] + rest.0, rest.1),
            RawEventV::Text(s) => (seq![EventV::Text(s)] + rest.0, rest.1),
            RawEventV::Ref(c) => match ref_of(c) {
                Ok(s) => (seq![EventV::Text(s)] + rest.0, rest.1),
                Err(m) => (Seq::empty(), Some(m)),
            },
            RawEventV::Ignorable => (seq![EventV::Ignorable] + rest.0, rest.1),
        }
    }
}

/// What the whole tokenizer front yields on an input: its token stream
/// with every tag's attributes parsed.
pub open spec fn lex(s: Seq<char>) -> (Seq<EventV>, Option<Seq<char>>) {
    cook(lex_raw(s).0, lex_raw(s).1)
}

/// Run the tokenizer over the input and parse each tag's attributes,
/// yielding the typed event stream the tree builder consumes.
pub fn read_events(xml: &str) -> (r: (Vec<XmlEvent>, Option<String>))
    ensures
        lex(xml@) == (events_v(r.0@), opt_msg_v(r.1)),
{
    let (raws, raw_err) = scan_text(xml);
    let ghost rv = raw_events_v(raws@);
    let ghost e0 = opt_msg_v(raw_err);
    let mut out: Vec<XmlEvent> = Vec::new();
    let mut err = raw_err;
    let mut i: usize = raws.len();
    proof {
        assert(rv.subrange(i as int, rv.len() as int) =~= Seq::<RawEventV>::empty());
    }
    while i > 0
        invariant
            i <= raws.len(),
            rv == raw_events_v(raws@),
            rv.len() == raws@.len(),
            cook(rv.subrange(i as int, rv.len() as int), e0) == (events_v(out@), opt_msg_v(err)),
        decreases i,
    {
        i -= 1;
        let ghost tail = rv.subrange(i + 1, rv.len() as int);
        let ghost cur = rv.subrange(i as int, rv.len() as int);
        let ghost out0 = events_v(out@);
        proof {
            assert(cur[0] == rv[i as int]);
            assert(cur.subrange(1, cur.len() as int) =~= tail);
            assert(rv[i as int] == raws@[i as int]@);
        }
        match &raws[i] {
            RawEvent::Start(name, raw) => match parse_attrs(raw.as_str()) {
                Ok(attrs) => {
                    out.insert(0, XmlEvent::Start(Tag { name: name.clone(), attrs }));
                    proof {
                        assert(events_v(out@) =~= seq![events_v(out@)[0]] + out0);
                    }
                },
                Err(m) => {
                    out = Vec::new();
                    err = Some(m);
                    proof {
                        assert(events_v(out@) =~= Seq::<EventV>::empty());
                    }
                },
            },
            RawEvent::Empty(name, raw) => match parse_attrs(raw.as_str()) {
                Ok(attrs) => {
                    out.insert(0, XmlEvent::Empty(Tag { name: name.clone(), attrs }));
                    proof {
                        assert(events_v(out@) =~= seq![events_v(out@)[0]] + out0);
                    }
                },
                Err(m) => {
                    out = Vec::new();
                    err = Some(m);
                    proof {
                        assert(events_v(out@) =~= Seq::<EventV>::empty());
                    }
                },
            },
            RawEvent::End(n) => {
                out.insert(0, XmlEvent::End(n.clone()));
                proof {
                    assert(events_v(out@) =~= seq![events_v(out@)[0]] + out0);
                }
            },
            RawEvent::Text(s) => {
                out.insert(0, XmlEvent::Text(s.clone()));
                proof {
                    assert(events_v(out@) =~= seq![events_v(out@)[0]] + out0);
                }
            },
            RawEvent::Ref(c) => match decode_ref(c.as_str()) {
                Ok(s) => {
                    out.insert(0, XmlEvent::Text(s));
                    proof {
                        assert(events_v(out@) =~= seq![events_v(out@)[0]] + out0);
                    }
                },
                Err(m) => {
                    out = Vec::new();
                    err = Some(m);
                    proof {
                        assert(events_v(out@) =~= Seq::<EventV>::empty());
                    }
                },
            },
            RawEvent::Ignorable => {
                out.insert(0, XmlEvent::Ignorable);
                proof {
                    assert(events_v(out@) =~= seq![events_v(out@)[0]] + out0);
                }
            },
        }
    }
    proof {
        assert(rv.subrange(0, rv.len() as int) =~= rv);
    }
    (out, err)
}

} // verus!
