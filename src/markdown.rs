//! Links of a markdown note: the destinations of its inline, reference and
//! autolink links, split into links to other notes and links to the web.
use vstd::prelude::*;
use crate::text::has_prefix;
use pulldown_cmark::{Event, Parser, Tag};

verus! {

/// Index of `LinkType::Inline` among pulldown-cmark's link types.
pub const LINK_INLINE: u8 = 0;

/// Index of `LinkType::Reference`.
pub const LINK_REFERENCE: u8 = 1;

/// Index of `LinkType::Autolink`.
pub const LINK_AUTOLINK: u8 = 7;

/// A markdown parser event, as far as links are concerned.
pub enum MdEvent {
    /// Start of a link, or of an image where the flag is set: link type
    /// index and destination.
    Start(u8, String, bool),
    /// End of a link, or of an image where the flag is set: link type index,
    /// destination and title.
    End(u8, String, String, bool),
    /// Text.
    Text(String),
    /// Any other event.
    Other,
}

/// An `MdEvent` with its strings as character sequences.
pub enum MdEventView {
    Start(u8, Seq<char>, bool),
    End(u8, Seq<char>, Seq<char>, bool),
    Text(Seq<char>),
    Other,
}

impl View for MdEvent {
    type V = MdEventView;

    open spec fn view(&self) -> MdEventView {
        match self {
            MdEvent::Start(kind, destination, image) => MdEventView::Start(*kind, destination@, *image),
            MdEvent::End(kind, destination, title, image) => MdEventView::End(
                *kind,
                destination@,
                title@,
                *image,
            ),
            MdEvent::Text(text) => MdEventView::Text(text@),
            MdEvent::Other => MdEventView::Other,
        }
    }
}

/// The views of a sequence of events.
pub open spec fn event_views(s: Seq<MdEvent>) -> Seq<MdEventView> {
    s.map_values(|e: MdEvent| e@)
}

/// The events that pulldown-cmark's parser yields for a document, in order.
pub uninterp spec fn markdown_events_of(text: Seq<char>) -> Seq<MdEventView>;

/// The views of a sequence of strings.
pub open spec fn views(s: Seq<String>) -> Seq<Seq<char>> {
    s.map_values(|x: String| x@)
}

/// Relies on `pulldown_cmark::Parser::new`: the events it yields for `text`,
/// in order; a `LinkType` is given as the index of its variant in the
/// enum's declaration.
#[verifier::external_body]
pub(crate) fn markdown_events(text: &str) -> (r: Vec<MdEvent>)
    ensures
        event_views(r@) == markdown_events_of(text@),
{
    Parser::new(text).map(
        |event| match event {
            Event::Start(Tag::Link(k, d, _)) => MdEvent::Start(k as u8, d.into_string(), false),
            Event::Start(Tag::Image(k, d, _)) => MdEvent::Start(k as u8, d.into_string(), true),
            Event::End(Tag::Link(k, d, t)) => MdEvent::End(k as u8, d.into_string(), t.into_string(), false),
            Event::End(Tag::Image(k, d, t)) => MdEvent::End(k as u8, d.into_string(), t.into_string(), true),
            Event::Text(t) => MdEvent::Text(t.into_string()),
            _ => MdEvent::Other,
        },
    ).collect()
}

/// Link types whose destination counts as a link of the note.
pub open spec fn is_followed_kind(kind: u8) -> bool {
    kind == LINK_INLINE || kind == LINK_REFERENCE || kind == LINK_AUTOLINK
}

/// The destinations of the followed link starts (not image starts) among
/// `events`, in order.
pub open spec fn links_of(events: Seq<MdEventView>) -> Seq<Seq<char>>
    decreases events.len(),
{
    if events.len() == 0 {
        Seq::empty()
    } else {
        let p = links_of(events.drop_last());
        match events.last() {
            MdEventView::Start(kind, destination, false) => if is_followed_kind(kind) {
                p.push(destination)
            } else {
                p
            },
            _ => p,
        }
    }
}

/// The destinations of the inline, reference and autolink link starts among
/// `events`, in order.
pub fn links_from_events(events: &Vec<MdEvent>) -> (r: Vec<String>)
    ensures
        views(r@) == links_of(event_views(events@)),
{
    let ghost evs = event_views(events@);
    let mut r: Vec<String> = Vec::new();
    let mut i: usize = 0;
    while i < events.len()
        invariant
            evs == event_views(events@),
            i <= events@.len(),
            views(r@) == links_of(evs.take(i as int)),
        decreases events@.len() - i,
    {
        proof {
            assert(evs.take(i + 1).drop_last() =~= evs.take(i as int));
            assert(evs.take(i + 1).last() == events@[i as int]@);
        }
        match &events[i] {
            MdEvent::Start(kind, destination, false) => {
                if *kind == LINK_INLINE || *kind == LINK_REFERENCE || *kind == LINK_AUTOLINK {
                    let ghost prev = r@;
                    r.push(destination.clone());
                    proof {
                        assert(views(r@) =~= views(prev).push(destination@));
                    }
                }
            },
            _ => {},
        }
        i = i + 1;
    }
    proof {
        assert(evs.take(i as int) =~= evs);
    }
    r
}

/// A link to the web: its destination starts with `http://` or `https://`.
pub open spec fn is_web_link(link: Seq<char>) -> bool {
    "http://"@.is_prefix_of(link) || "https://"@.is_prefix_of(link)
}

/// Whether `link` is a link to the web.
pub fn web_link(link: &str) -> (r: bool)
    ensures
        r == is_web_link(link@),
{
    has_prefix(link, "http://") || has_prefix(link, "https://")
}

/// The links of `links` that are to the web when `web`, else the others,
/// in order.
pub open spec fn links_where(links: Seq<Seq<char>>, web: bool) -> Seq<Seq<char>>
    decreases links.len(),
{
    if links.len() == 0 {
        links
    } else {
        let p = links_where(links.drop_last(), web);
        if is_web_link(links.last()) == web {
            p.push(links.last())
        } else {
            p
        }
    }
}

/// The links of `links` that are to the web when `web`, else the others,
/// in order.
pub fn select_links(links: &Vec<String>, web: bool) -> (r: Vec<String>)
    ensures
        views(r@) == links_where(views(links@), web),
{
    let ghost all = views(links@);
    let mut r: Vec<String> = Vec::new();
    let mut i: usize = 0;
    while i < links.len()
        invariant
            all == views(links@),
            i <= links@.len(),
            views(r@) == links_where(all.take(i as int), web),
        decreases links@.len() - i,
    {
        proof {
            assert(all.take(i + 1).drop_last() =~= all.take(i as int));
            assert(all.take(i + 1).last() == links@[i as int]@);
        }
        if web_link(links[i].as_str()) == web {
            let ghost prev = r@;
            r.push(links[i].clone());
            proof {
                assert(views(r@) =~= views(prev).push(links@[i as int]@));
            }
        }
        i = i + 1;
    }
    proof {
        assert(all.take(i as int) =~= all);
    }
    r
}

/// The followed links of a markdown note, in document order.
pub fn links_from_path(text: &str) -> (r: Vec<String>)
    ensures
        views(r@) == links_of(markdown_events_of(text@)),
{
    let events = markdown_events(text);
    links_from_events(&events)
}

/// The links of a markdown note that are not to the web: links to other
/// notes, in document order.
pub fn local_links_by_path(text: &str) -> (r: Vec<String>)
    ensures
        views(r@) == links_where(links_of(markdown_events_of(text@)), false),
{
    let links = links_from_path(text);
    select_links(&links, false)
}

/// The links of a markdown note to the web (`http://` or `https://`), in
/// document order.
pub fn url_by_path(text: &str) -> (r: Vec<String>)
    ensures
        views(r@) == links_where(links_of(markdown_events_of(text@)), true),
{
    let links = links_from_path(text);
    select_links(&links, true)
}

} // verus!
