//! The markdown event stream, reduced to the plain values the outline
//! builder and the renderer read.
//!
//! Parsing itself is done by pulldown_cmark; each of its events is
//! classified into an [`MdEvent`]. What the logic does not inspect is
//! carried through opaquely and handed back to pulldown_cmark's HTML
//! serializer.

use pulldown_cmark::{CodeBlockKind as K, Event, Event as E, Tag as T, TagEnd as TE};
use self::MdEvent::{CodeEnd, CodeStart, HeadingEnd, ItemStart, LinkEnd, LinkStart, ListEnd, ListStart, MetaEnd, MetaStart, Other};
use self::MdEvent::Text as TextEvent;
use vstd::prelude::*;

verus! {

/// One markdown structural event, reduced to plain values.
pub enum MdEvent {
    /// A link opens towards `dest`.
    LinkStart { dest: String },
    /// A link closes.
    LinkEnd,
    /// A list opens.
    ListStart,
    /// A list closes.
    ListEnd,
    /// A list item opens.
    ItemStart,
    /// A text node.
    Text(String),
    /// A heading closes.
    HeadingEnd,
    /// A fenced code block opens, with its language tag.
    CodeStart(String),
    /// A code block closes.
    CodeEnd,
    /// A metadata block opens.
    MetaStart,
    /// A metadata block closes.
    MetaEnd,
    /// Any event the logic does not inspect.
    Other,
}

/// Declares pulldown_cmark's event type, carried opaquely between the
/// parser and the HTML serializer.
#[verifier::external_type_specification]
#[verifier::external_body]
pub struct ExEvent<'a>(Event<'a>);

/// The classified event stream that the markdown parser yields for an
/// outline document.
pub uninterp spec fn outline_events_of(s: Seq<char>) -> Seq<MdEvent>;

/// Relies on pulldown_cmark's `Event`, `Tag` and `TagEnd` types: each
/// event is mapped to the `MdEvent` variant that names it, with its
/// text fields carried over; everything else becomes `Other`.
#[verifier::external_body]
fn classify(e: &E) -> (r: MdEvent) {
    match e {
        E::Start(T::Link { dest_url, .. }) => LinkStart { dest: dest_url.to_string() },
        E::End(TE::Link) => LinkEnd,
        E::Start(T::List(_)) => ListStart,
        E::End(TE::List(_)) => ListEnd,
        E::Start(T::Item) => ItemStart,
        E::Text(t) => TextEvent(t.to_string()),
        E::End(TE::Heading(_)) => HeadingEnd,
        E::Start(T::CodeBlock(K::Fenced(l))) => CodeStart(l.to_string()),
        E::End(TE::CodeBlock) => CodeEnd,
        E::Start(T::MetadataBlock(_)) => MetaStart,
        E::End(TE::MetadataBlock(_)) => MetaEnd,
        _ => Other,
    }
}

/// Relies on pulldown_cmark::Parser::new: parsing is a function of the
/// text alone, and the classified stream is named `outline_events_of`.
#[verifier::external_body]
pub fn outline_events(s: &str) -> (r: Vec<MdEvent>)
    ensures
        r@ == outline_events_of(s@),
{
    pulldown_cmark::Parser::new(s).map(|e| classify(&e)).collect()
}

/// The classified event stream the document parser yields, with
/// metadata blocks, heading attributes and footnotes enabled.
pub uninterp spec fn doc_events_of(s: Seq<char>) -> Seq<MdEvent>;

/// Relies on pulldown_cmark::Parser::new_ext: parsing is a function of
/// the text and the fixed options alone; the classified stream is
/// named `doc_events_of`.
#[verifier::external_body]
pub fn doc_events(s: &str) -> (r: Vec<MdEvent>)
    ensures
        r@ == doc_events_of(s@),
{
    let opts = pulldown_cmark::Options::ENABLE_YAML_STYLE_METADATA_BLOCKS
        | pulldown_cmark::Options::ENABLE_HEADING_ATTRIBUTES
        | pulldown_cmark::Options::ENABLE_FOOTNOTES;
    pulldown_cmark::Parser::new_ext(s, opts).map(|e| classify(&e)).collect()
}

/// The serialized HTML of a document: its event stream, each event
/// overridden by its substitution where one is given, handed to the
/// HTML serializer. A function of the text and the substitutions
/// alone.
pub uninterp spec fn html_of(s: Seq<char>, subs: Seq<Option<Seq<char>>>) -> Seq<char>;

/// The substituted texts a substitution list holds.
pub open spec fn subs_view(ss: Seq<Option<String>>) -> Seq<Option<Seq<char>>> {
    ss.map_values(
        |o: Option<String>|
            match o {
                Option::None => Option::<Seq<char>>::None,
                Option::Some(h) => Option::Some(h@),
            },
    )
}

/// Relies on pulldown_cmark::Parser::new_ext and html::push_html: both
/// are deterministic in the text and the fixed options, so the
/// serialized document, with the event at each position replaced by
/// its substitution when one is given, is named `html_of`.
#[verifier::external_body]
pub fn render_html(s: &str, subs: &Vec<Option<String>>) -> (r: String)
    ensures
        r@ == html_of(s@, subs_view(subs@)),
{
    let opts = pulldown_cmark::Options::ENABLE_YAML_STYLE_METADATA_BLOCKS
        | pulldown_cmark::Options::ENABLE_HEADING_ATTRIBUTES
        | pulldown_cmark::Options::ENABLE_FOOTNOTES;
    let it = pulldown_cmark::Parser::new_ext(s, opts).zip(subs.iter()).map(
        |(e, sub)|
            match sub {
                None => e,
                Some(h) => E::Html(h.clone().into()),
            },
    );
    let mut out = String::new();
    pulldown_cmark::html::push_html(&mut out, it);
    out
}

} // verus!
