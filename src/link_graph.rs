//! The graph of notes and the notes, images and pages they link to, built
//! from the markdown of each note.
use vstd::prelude::*;
use vstd::string::*;

use crate::markdown::{MdEvent, MdEventView, event_views, markdown_events, markdown_events_of};
use crate::models::{AAdjacement, LinkEdge, LinkNode, LinkNodeId, Options};
use crate::text::{has_prefix, has_suffix, same_text};

verus! {

/// Pattern of a destination that names a scheme: a link to the web.
pub const URL_PATTERN: &'static str = "[a-z]+://";

/// Whether the regular expression `pattern` matches somewhere in
/// `haystack`; `None` where `pattern` is not a valid expression.
pub uninterp spec fn regex_match_of(pattern: Seq<char>, haystack: Seq<char>) -> Option<bool>;

/// Relies on `regex::Regex::new` and `Regex::is_match`: whether the
/// expression matches anywhere in `haystack`, or `None` where `new` rejects
/// the pattern.
#[verifier::external_body]
fn regex_is_match(pattern: &str, haystack: &str) -> (r: Option<bool>)
    ensures
        r == regex_match_of(pattern@, haystack@),
{
    match regex::Regex::new(pattern) {
        Ok(re) => Some(re.is_match(haystack)),
        Err(_) => None,
    }
}

/// A link found in a note: its type index, the text inside it, its
/// destination and title, whether it shows an image, and the name of the
/// node it leads to.
#[derive(Clone, Debug)]
pub struct Link {
    pub kind: u8,
    pub text: String,
    pub destination: String,
    pub title: String,
    pub is_image: bool,
    pub normalized_name: String,
}

/// Type index, text, destination, title and image flag of a link.
pub type LinkView = (u8, Seq<char>, Seq<char>, Seq<char>, bool);

impl View for Link {
    type V = LinkView;

    open spec fn view(&self) -> LinkView {
        (self.kind, self.text@, self.destination@, self.title@, self.is_image)
    }
}

impl Link {
    /// A link with the given parts and no node name yet.
    pub fn new(kind: u8, text: &str, destination: &str, title: &str, is_image: bool) -> (r: Self)
        ensures
            r@ == (kind, text@, destination@, title@, is_image),
            r.normalized_name@ == Seq::<char>::empty(),
    {
        Link {
            kind,
            text: String::from_str(text),
            destination: String::from_str(destination),
            title: String::from_str(title),
            is_image,
            normalized_name: String::new(),
        }
    }
}

/// Link types whose text is collected: inline, reference, collapsed and
/// shortcut links.
pub open spec fn collects_text(kind: u8) -> bool {
    kind == 0 || kind == 1 || kind == 3 || kind == 5
}

/// Link types that are kept: those whose text is collected, and autolinks.
pub open spec fn keeps_link(kind: u8) -> bool {
    collects_text(kind) || kind == 7
}

/// After reading `events`: the links found, the text collected for the
/// current link, and whether text is being collected.
pub open spec fn scan_links(events: Seq<MdEventView>) -> (Seq<LinkView>, Seq<char>, bool)
    decreases events.len(),
{
    if events.len() == 0 {
        (Seq::empty(), Seq::empty(), false)
    } else {
        let (links, text, inside) = scan_links(events.drop_last());
        match events.last() {
            MdEventView::Start(kind, _, _) => (links, Seq::empty(), if collects_text(kind) {
                true
            } else {
                inside
            }),
            MdEventView::End(kind, destination, title, image) => (
                if keeps_link(kind) {
                    links.push((kind, text, destination, title, image))
                } else {
                    links
                },
                text,
                false,
            ),
            MdEventView::Text(t) => if inside {
                (links, text + t, inside)
            } else {
                (links, text, inside)
            },
            MdEventView::Other => (links, text, inside),
        }
    }
}

/// The views of a sequence of links.
pub open spec fn link_views(s: Seq<Link>) -> Seq<LinkView> {
    s.map_values(|l: Link| l@)
}

/// The links of a note, from its parser events (see `scan_links`).
pub fn links_from_note_events(events: &Vec<MdEvent>) -> (r: Vec<Link>)
    ensures
        link_views(r@) == scan_links(event_views(events@)).0,
        forall|i: int| 0 <= i < r@.len() ==> (#[trigger] r@[i]).normalized_name@ == Seq::<char>::empty(),
{
    let ghost evs = event_views(events@);
    let mut links: Vec<Link> = Vec::new();
    let mut text = String::new();
    let mut inside = false;
    let mut i: usize = 0;
    while i < events.len()
        invariant
            evs == event_views(events@),
            i <= events@.len(),
            scan_links(evs.take(i as int)) == (link_views(links@), text@, inside),
            forall|k: int| 0 <= k < links@.len() ==> (#[trigger] links@[k]).normalized_name@ == Seq::<char>::empty(),
        decreases events@.len() - i,
    {
        proof {
            assert(evs.take(i + 1).drop_last() =~= evs.take(i as int));
            assert(evs.take(i + 1).last() == events@[i as int]@);
        }
        match &events[i] {
            MdEvent::Start(kind, _, _) => {
                text = String::new();
                if *kind == 0 || *kind == 1 || *kind == 3 || *kind == 5 {
                    inside = true;
                }
            },
            MdEvent::End(kind, destination, title, image) => {
                inside = false;
                if *kind == 0 || *kind == 1 || *kind == 3 || *kind == 5 || *kind == 7 {
                    let ghost prev = links@;
                    let link = Link::new(*kind, text.as_str(), destination.as_str(), title.as_str(), *image);
                    links.push(link);
                    proof {
                        assert(link_views(links@) =~= link_views(prev).push(link@));
                    }
                }
            },
            MdEvent::Text(t) => {
                if inside {
                    text.append(t.as_str());
                }
            },
            MdEvent::Other => {},
        }
        i = i + 1;
    }
    proof {
        assert(evs.take(i as int) =~= evs);
    }
    links
}

/// The links of a note, from its markdown.
pub fn links_from_path(markdown: &str) -> (r: Vec<Link>)
    ensures
        link_views(r@) == scan_links(markdown_events_of(markdown@)).0,
        forall|i: int| 0 <= i < r@.len() ==> (#[trigger] r@[i]).normalized_name@ == Seq::<char>::empty(),
{
    let events = markdown_events(markdown);
    links_from_note_events(&events)
}

/// Whether `destination` names a scheme, as `URL_PATTERN` finds it.
pub open spec fn is_url(destination: Seq<char>) -> bool {
    regex_match_of(URL_PATTERN@, destination) == Some(true)
}

/// What a link is: a link to the web, an image, a markdown note.
pub fn link_options(link: &Link) -> (r: Options)
    ensures
        r.url == is_url(link.destination@),
        r.image == link.is_image,
        r.markdown == (".md"@.len() <= link.destination@.len() && link.destination@.skip(
            link.destination@.len() - ".md"@.len(),
        ) == ".md"@),
{
    let url = match regex_is_match(URL_PATTERN, link.destination.as_str()) {
        Some(found) => found,
        None => false,
    };
    Options { url, image: link.is_image, markdown: has_suffix(link.destination.as_str(), ".md") }
}

/// The node name of a link: a destination that is not a web link and
/// starts with `./` loses that prefix; any other link keeps the name it has.
pub open spec fn node_name(link: Link, url: bool) -> Seq<char> {
    if !url && "./"@.is_prefix_of(link.destination@) {
        link.destination@.skip(2)
    } else {
        link.normalized_name@
    }
}

/// The node name of `link` (see `node_name`).
pub fn normalize_name(link: &Link, url: bool) -> (r: String)
    ensures
        r@ == node_name(*link, url),
{
    if !url && has_prefix(link.destination.as_str(), "./") {
        proof {
            reveal_strlit("./");
        }
        let n = link.destination.as_str().unicode_len();
        String::from_str(link.destination.as_str().substring_char(2, n))
    } else {
        link.normalized_name.clone()
    }
}

/// The value stored under the last entry with key `key`.
pub open spec fn lookup_last<V>(s: Seq<(Seq<char>, V)>, key: Seq<char>) -> Option<V>
    decreases s.len(),
{
    if s.len() == 0 {
        None
    } else if s.last().0 == key {
        Some(s.last().1)
    } else {
        lookup_last(s.drop_last(), key)
    }
}

/// The keys of a sequence of entries.
pub open spec fn keys_of_entries<V>(s: Seq<(Seq<char>, V)>) -> Seq<Seq<char>> {
    s.map_values(|e: (Seq<char>, V)| e.0)
}

proof fn lemma_lookup_last_update<V>(s: Seq<(Seq<char>, V)>, q: int, v: V, key: Seq<char>)
    requires
        keys_of_entries(s).no_duplicates(),
        0 <= q < s.len(),
    ensures
        lookup_last(s.update(q, (s[q].0, v)), key) == (if key == s[q].0 {
            Some(v)
        } else {
            lookup_last(s, key)
        }),
    decreases s.len(),
{
    let t = s.update(q, (s[q].0, v));
    if q == s.len() - 1 {
        assert(t.drop_last() =~= s.drop_last());
    } else {
        assert(t.drop_last() =~= s.drop_last().update(q, (s[q].0, v)));
        assert(keys_of_entries(s.drop_last()) =~= keys_of_entries(s).drop_last());
        assert(s.last().0 != s[q].0) by {
            assert(keys_of_entries(s)[q] == s[q].0);
            assert(keys_of_entries(s)[s.len() - 1] == s.last().0);
        }
        lemma_lookup_last_update(s.drop_last(), q, v, key);
    }
}

proof fn lemma_lookup_last_at<V>(s: Seq<(Seq<char>, V)>, q: int)
    requires
        keys_of_entries(s).no_duplicates(),
        0 <= q < s.len(),
    ensures
        lookup_last(s, s[q].0) == Some(s[q].1),
    decreases s.len(),
{
    if q < s.len() - 1 {
        assert(keys_of_entries(s.drop_last()) =~= keys_of_entries(s).drop_last());
        assert(s.last().0 != s[q].0) by {
            assert(keys_of_entries(s)[q] == s[q].0);
            assert(keys_of_entries(s)[s.len() - 1] == s.last().0);
        }
        lemma_lookup_last_at(s.drop_last(), q);
    }
}

proof fn lemma_lookup_last_absent<V>(s: Seq<(Seq<char>, V)>, key: Seq<char>)
    requires
        forall|j: int| 0 <= j < s.len() ==> s[j].0 != key,
    ensures
        lookup_last(s, key).is_none(),
    decreases s.len(),
{
    if s.len() > 0 {
        assert(s[s.len() - 1].0 != key);
        lemma_lookup_last_absent(s.drop_last(), key);
    }
}

/// A link edge: target node, type index, text and title.
pub type EdgeView = (Seq<char>, u8, Seq<char>, Seq<char>);

/// The view of an adjacency entry.
pub open spec fn adjacement_view(a: AAdjacement<LinkNodeId, LinkEdge>) -> EdgeView {
    (a.0.0@, a.1.link_type, a.1.text@, a.1.title@)
}

/// The graph of notes and the nodes their links lead to.
pub struct ANoteGraph {
    nodes: Vec<(LinkNodeId, LinkNode)>,
    adjacency: Vec<(LinkNodeId, Vec<AAdjacement<LinkNodeId, LinkEdge>>)>,
}

impl ANoteGraph {
    /// Node id and image flag of each node.
    pub closed spec fn nodes_view(&self) -> Seq<(Seq<char>, bool)> {
        self.nodes@.map_values(|e: (LinkNodeId, LinkNode)| (e.0.0@, e.1.is_image))
    }

    /// Source node id and outgoing edges of each node with edges.
    pub closed spec fn adjacency_view(&self) -> Seq<(Seq<char>, Seq<EdgeView>)> {
        self.adjacency@.map_values(
            |e: (LinkNodeId, Vec<AAdjacement<LinkNodeId, LinkEdge>>)|
                (e.0.0@, e.1@.map_values(|a: AAdjacement<LinkNodeId, LinkEdge>| adjacement_view(a))),
        )
    }

    /// Node ids and adjacency sources are each stored once.
    pub open spec fn wf(&self) -> bool {
        &&& keys_of_entries(self.nodes_view()).no_duplicates()
        &&& keys_of_entries(self.adjacency_view()).no_duplicates()
    }

    /// The image flag of node `id`, if it is a node.
    pub open spec fn node_spec(&self, id: Seq<char>) -> Option<bool> {
        lookup_last(self.nodes_view(), id)
    }

    /// The edges leaving node `id`, if it has any entry.
    pub open spec fn edges_spec(&self, id: Seq<char>) -> Option<Seq<EdgeView>> {
        lookup_last(self.adjacency_view(), id)
    }

    /// An empty graph.
    pub fn new() -> (r: Self)
        ensures
            r.wf(),
            r.nodes_view() == Seq::<(Seq<char>, bool)>::empty(),
            r.adjacency_view() == Seq::<(Seq<char>, Seq<EdgeView>)>::empty(),
    {
        let r = ANoteGraph { nodes: Vec::new(), adjacency: Vec::new() };
        assert(r.nodes_view() =~= Seq::<(Seq<char>, bool)>::empty());
        assert(r.adjacency_view() =~= Seq::<(Seq<char>, Seq<EdgeView>)>::empty());
        assert(keys_of_entries(r.nodes_view()) =~= Seq::<Seq<char>>::empty());
        assert(keys_of_entries(r.adjacency_view()) =~= Seq::<Seq<char>>::empty());
        r
    }

    fn node_index(&self, id: &str) -> (r: Option<usize>)
        ensures
            match r {
                Some(q) => q < self.nodes_view().len() && self.nodes_view()[q as int].0 == id@,
                None => forall|j: int| 0 <= j < self.nodes_view().len() ==> self.nodes_view()[j].0 != id@,
            },
    {
        let mut i: usize = 0;
        while i < self.nodes.len()
            invariant
                i <= self.nodes@.len(),
                forall|j: int| 0 <= j < i ==> self.nodes_view()[j].0 != id@,
            decreases self.nodes@.len() - i,
        {
            if same_text(self.nodes[i].0.0.as_str(), id) {
                return Some(i);
            }
            i = i + 1;
        }
        None
    }

    fn source_index(&self, id: &str) -> (r: Option<usize>)
        ensures
            match r {
                Some(q) => q < self.adjacency_view().len() && self.adjacency_view()[q as int].0 == id@,
                None => forall|j: int| 0 <= j < self.adjacency_view().len() ==> self.adjacency_view()[j].0 != id@,
            },
    {
        let mut i: usize = 0;
        while i < self.adjacency.len()
            invariant
                i <= self.adjacency@.len(),
                forall|j: int| 0 <= j < i ==> self.adjacency_view()[j].0 != id@,
            decreases self.adjacency@.len() - i,
        {
            if same_text(self.adjacency[i].0.0.as_str(), id) {
                return Some(i);
            }
            i = i + 1;
        }
        None
    }

    /// The image flag of node `id`.
    pub fn get_node(&self, id: &str) -> (r: Option<LinkNode>)
        requires
            self.wf(),
        ensures
            match r {
                Some(node) => self.node_spec(id@) == Some(node.is_image),
                None => self.node_spec(id@).is_none(),
            },
    {
        match self.node_index(id) {
            Some(q) => {
                proof {
                    lemma_lookup_last_at(self.nodes_view(), q as int);
                }
                Some(self.nodes[q].1)
            },
            None => {
                proof {
                    lemma_lookup_last_absent(self.nodes_view(), id@);
                }
                None
            },
        }
    }

    /// The number of edges leaving node `id`.
    pub fn out_degree(&self, id: &str) -> (r: usize)
        requires
            self.wf(),
        ensures
            r == match self.edges_spec(id@) {
                Some(edges) => edges.len(),
                None => 0,
            },
    {
        match self.source_index(id) {
            Some(q) => {
                proof {
                    lemma_lookup_last_at(self.adjacency_view(), q as int);
                }
                self.adjacency[q].1.len()
            },
            None => {
                proof {
                    lemma_lookup_last_absent(self.adjacency_view(), id@);
                }
                0
            },
        }
    }

    /// Makes `id` a node with flag `node`, replacing what it held.
    pub fn insert_node(&mut self, id: LinkNodeId, node: LinkNode)
        requires
            old(self).wf(),
        ensures
            final(self).wf(),
            forall|k: Seq<char>|
                #[trigger] final(self).node_spec(k) == if k == id.0@ {
                    Some(node.is_image)
                } else {
                    old(self).node_spec(k)
                },
            final(self).adjacency_view() == old(self).adjacency_view(),
    {
        let ghost key = id.0@;
        let ghost before = self.nodes_view();
        match self.node_index(id.0.as_str()) {
            Some(q) => {
                self.nodes.set(q, (id, node));
                proof {
                    assert(self.nodes_view() =~= before.update(q as int, (before[q as int].0, node.is_image)));
                    assert(keys_of_entries(self.nodes_view()) =~= keys_of_entries(before));
                    assert forall|k: Seq<char>|
                        #[trigger] self.node_spec(k) == if k == key {
                            Some(node.is_image)
                        } else {
                            old(self).node_spec(k)
                        } by {
                        lemma_lookup_last_update(before, q as int, node.is_image, k);
                    }
                }
            },
            None => {
                self.nodes.push((id, node));
                proof {
                    assert(self.nodes_view() =~= before.push((key, node.is_image)));
                    assert(self.nodes_view().drop_last() =~= before);
                    assert(keys_of_entries(self.nodes_view()) =~= keys_of_entries(before).push(key));
                    assert(!keys_of_entries(before).contains(key)) by {
                        if keys_of_entries(before).contains(key) {
                            let j = choose|j: int|
                                0 <= j < keys_of_entries(before).len() && keys_of_entries(before)[j] == key;
                            assert(before[j].0 == key);
                        }
                    }
                }
            },
        }
    }

    /// Appends `edge` to the edges leaving `source`.
    pub fn add_adjacent(&mut self, source: LinkNodeId, edge: AAdjacement<LinkNodeId, LinkEdge>)
        requires
            old(self).wf(),
        ensures
            final(self).wf(),
            forall|k: Seq<char>|
                #[trigger] final(self).edges_spec(k) == if k == source.0@ {
                    Some(
                        match old(self).edges_spec(k) {
                            Some(edges) => edges,
                            None => Seq::empty(),
                        }.push(adjacement_view(edge)),
                    )
                } else {
                    old(self).edges_spec(k)
                },
            final(self).nodes_view() == old(self).nodes_view(),
    {
        let ghost key = source.0@;
        let ghost before = self.adjacency_view();
        let ghost added = adjacement_view(edge);
        match self.source_index(source.0.as_str()) {
            Some(q) => {
                proof {
                    lemma_lookup_last_at(before, q as int);
                }
                let mut edges = Vec::new();
                std::mem::swap(&mut edges, &mut self.adjacency[q].1);
                let ghost old_edges = edges@;
                edges.push(edge);
                self.adjacency.set(q, (source, edges));
                proof {
                    let new_edges = before[q as int].1.push(added);
                    assert(edges@.map_values(|a: AAdjacement<LinkNodeId, LinkEdge>| adjacement_view(a))
                        =~= new_edges);
                    assert(self.adjacency_view() =~= before.update(q as int, (before[q as int].0, new_edges)));
                    assert(keys_of_entries(self.adjacency_view()) =~= keys_of_entries(before));
                    assert forall|k: Seq<char>|
                        #[trigger] self.edges_spec(k) == if k == key {
                            Some(
                                match old(self).edges_spec(k) {
                                    Some(edges) => edges,
                                    None => Seq::empty(),
                                }.push(added),
                            )
                        } else {
                            old(self).edges_spec(k)
                        } by {
                        lemma_lookup_last_update(before, q as int, new_edges, k);
                    }
                }
            },
            None => {
                let mut edges = Vec::new();
                edges.push(edge);
                self.adjacency.push((source, edges));
                proof {
                    lemma_lookup_last_absent(before, key);
                    assert(edges@.map_values(|a: AAdjacement<LinkNodeId, LinkEdge>| adjacement_view(a))
                        =~= Seq::<EdgeView>::empty().push(added));
                    assert(self.adjacency_view() =~= before.push((key, Seq::<EdgeView>::empty().push(added))));
                    assert(self.adjacency_view().drop_last() =~= before);
                    assert(keys_of_entries(self.adjacency_view()) =~= keys_of_entries(before).push(key));
                    assert(!keys_of_entries(before).contains(key)) by {
                        if keys_of_entries(before).contains(key) {
                            let j = choose|j: int|
                                0 <= j < keys_of_entries(before).len() && keys_of_entries(before)[j] == key;
                            assert(before[j].0 == key);
                        }
                    }
                }
            },
        }
    }
}

/// Whether `path` is absolute.
pub open spec fn is_rooted(path: Seq<char>) -> bool {
    "/"@.is_prefix_of(path)
}

/// The node name of a link as found in a note (see `node_name`).
pub open spec fn link_node_name(link: LinkView) -> Seq<char> {
    if !is_url(link.2) && "./"@.is_prefix_of(link.2) {
        link.2.skip(2)
    } else {
        Seq::empty()
    }
}

/// The links found in the markdown `text`.
pub open spec fn note_links(text: Seq<char>) -> Seq<LinkView> {
    scan_links(markdown_events_of(text)).0
}

/// What a link found in a note is (see `link_options`).
pub open spec fn options_of(link: LinkView) -> Options {
    Options {
        url: is_url(link.2),
        image: link.4,
        markdown: ".md"@.len() <= link.2.len() && link.2.skip(link.2.len() - ".md"@.len()) == ".md"@,
    }
}

/// `keep` is what the filters gave for `link`: kept where `link_type`
/// returned true on its type and `options` true on its `Options`, left out
/// where either returned false (`options` is asked only after `link_type`
/// returned true).
pub open spec fn decided<O: Fn(&Options) -> bool, P: Fn(u8) -> bool>(
    options: O,
    link_type: P,
    link: LinkView,
    keep: bool,
) -> bool {
    if keep {
        link_type.ensures((link.0,), true) && options.ensures((&options_of(link),), true)
    } else {
        link_type.ensures((link.0,), false) || (link_type.ensures((link.0,), true) && options.ensures(
            (&options_of(link),),
            false,
        ))
    }
}

/// The views of the notes: path and markdown.
pub open spec fn note_views(notes: Seq<(String, String)>) -> Seq<(Seq<char>, Seq<char>)> {
    notes.map_values(|e: (String, String)| (e.0@, e.1@))
}

/// `sel` holds, for each absolute note, one decision per link of the note,
/// each one what the filters gave; other notes have no decisions.
pub open spec fn selects<O: Fn(&Options) -> bool, P: Fn(u8) -> bool>(
    options: O,
    link_type: P,
    notes: Seq<(Seq<char>, Seq<char>)>,
    sel: Seq<Seq<bool>>,
) -> bool {
    &&& sel.len() == notes.len()
    &&& forall|i: int|
        0 <= i < notes.len() ==> {
            &&& is_rooted(notes[i].0) ==> (#[trigger] sel[i]).len() == note_links(notes[i].1).len()
            &&& !is_rooted(notes[i].0) ==> sel[i].len() == 0
            &&& is_rooted(notes[i].0) ==> forall|j: int|
                0 <= j < sel[i].len() ==> decided(options, link_type, note_links(notes[i].1)[j], #[trigger] sel[i][j])
        }
}

/// The node writes of the kept links: node name and image flag, in order.
pub open spec fn kept_writes(links: Seq<LinkView>, keep: Seq<bool>) -> Seq<(Seq<char>, bool)>
    decreases links.len(),
{
    if links.len() == 0 {
        Seq::empty()
    } else {
        let p = kept_writes(links.drop_last(), keep.drop_last());
        if keep.last() {
            p.push((link_node_name(links.last()), links.last().4))
        } else {
            p
        }
    }
}

/// The edges of the kept links: target, type, text and title, in order.
pub open spec fn kept_edges(links: Seq<LinkView>, keep: Seq<bool>) -> Seq<EdgeView>
    decreases links.len(),
{
    if links.len() == 0 {
        Seq::empty()
    } else {
        let p = kept_edges(links.drop_last(), keep.drop_last());
        if keep.last() {
            p.push((link_node_name(links.last()), links.last().0, links.last().1, links.last().3))
        } else {
            p
        }
    }
}

/// A node write for each absolute note path, in order, as a plain note.
pub open spec fn root_writes(notes: Seq<(Seq<char>, Seq<char>)>) -> Seq<(Seq<char>, bool)>
    decreases notes.len(),
{
    if notes.len() == 0 {
        Seq::empty()
    } else {
        let p = root_writes(notes.drop_last());
        if is_rooted(notes.last().0) {
            p.push((notes.last().0, false))
        } else {
            p
        }
    }
}

/// The node writes of the kept links of every absolute note, in order.
pub open spec fn link_writes(notes: Seq<(Seq<char>, Seq<char>)>, sel: Seq<Seq<bool>>) -> Seq<(Seq<char>, bool)>
    decreases notes.len(),
{
    if notes.len() == 0 {
        Seq::empty()
    } else {
        let p = link_writes(notes.drop_last(), sel.drop_last());
        if is_rooted(notes.last().0) {
            p + kept_writes(note_links(notes.last().1), sel.last())
        } else {
            p
        }
    }
}

/// The edges leaving path `k`: those of the kept links of every absolute
/// note at `k`, in order.
pub open spec fn edges_from(notes: Seq<(Seq<char>, Seq<char>)>, sel: Seq<Seq<bool>>, k: Seq<char>) -> Seq<EdgeView>
    decreases notes.len(),
{
    if notes.len() == 0 {
        Seq::empty()
    } else {
        let p = edges_from(notes.drop_last(), sel.drop_last(), k);
        if is_rooted(notes.last().0) && notes.last().0 == k {
            p + kept_edges(note_links(notes.last().1), sel.last())
        } else {
            p
        }
    }
}

/// `Some(e)` unless `e` is empty.
pub open spec fn some_if_any(e: Seq<EdgeView>) -> Option<Seq<EdgeView>> {
    if e.len() > 0 {
        Some(e)
    } else {
        None
    }
}

/// `g` is the link graph of `notes` under the decisions `sel`: the nodes are
/// written first for each absolute note path (as plain notes), then for each
/// kept link, a later write replacing the flag of an earlier one; the edges
/// leaving each note are its kept links, in order.
pub open spec fn builds(g: ANoteGraph, notes: Seq<(Seq<char>, Seq<char>)>, sel: Seq<Seq<bool>>) -> bool {
    &&& g.wf()
    &&& forall|k: Seq<char>| #[trigger] g.node_spec(k) == lookup_last(root_writes(notes) + link_writes(notes, sel), k)
    &&& forall|k: Seq<char>| #[trigger] g.edges_spec(k) == some_if_any(edges_from(notes, sel, k))
}

proof fn lemma_lookup_last_push<V>(s: Seq<(Seq<char>, V)>, e: (Seq<char>, V), k: Seq<char>)
    ensures
        lookup_last(s.push(e), k) == if k == e.0 {
            Some(e.1)
        } else {
            lookup_last(s, k)
        },
{
    assert(s.push(e).drop_last() =~= s);
}

/// The link graph of `notes` (path and markdown of each note). Each note
/// whose path is absolute becomes a node; notes with a relative path are
/// skipped. Then, note by note, each link whose type `link_type` accepts and
/// whose `Options` `options` accepts becomes an edge from the note to the
/// node named by `normalize_name`, which is added or has its image flag
/// replaced.
pub fn create_graph<O: Fn(&Options) -> bool, P: Fn(u8) -> bool>(
    notes: &Vec<(String, String)>,
    options: O,
    link_type: P,
) -> (r: ANoteGraph)
    requires
        forall|o: &Options| options.requires((o,)),
        forall|k: u8| link_type.requires((k,)),
    ensures
        exists|sel: Seq<Seq<bool>>|
            selects(options, link_type, note_views(notes@), sel) && builds(r, note_views(notes@), sel),
{
    let ghost nv = note_views(notes@);
    let mut graph = ANoteGraph::new();
    let mut i: usize = 0;
    while i < notes.len()
        invariant
            nv == note_views(notes@),
            i <= notes@.len(),
            graph.wf(),
            forall|k: Seq<char>| #[trigger] graph.node_spec(k) == lookup_last(root_writes(nv.take(i as int)), k),
            graph.adjacency_view() == Seq::<(Seq<char>, Seq<EdgeView>)>::empty(),
        decreases notes@.len() - i,
    {
        proof {
            assert(nv.take(i + 1).drop_last() =~= nv.take(i as int));
            assert(nv.take(i + 1).last() == nv[i as int]);
        }
        if has_prefix(notes[i].0.as_str(), "/") {
            let ghost before = graph;
            graph.insert_node(LinkNodeId(notes[i].0.clone()), LinkNode { is_image: false });
            proof {
                assert forall|k: Seq<char>| #[trigger] graph.node_spec(k) == lookup_last(
                    root_writes(nv.take(i + 1)),
                    k,
                ) by {
                    lemma_lookup_last_push(root_writes(nv.take(i as int)), (nv[i as int].0, false), k);
                }
            }
        }
        i = i + 1;
    }
    proof {
        assert(nv.take(i as int) =~= nv);
        assert(link_writes(nv.take(0), Seq::<Seq<bool>>::empty()) =~= Seq::<(Seq<char>, bool)>::empty());
        assert forall|k: Seq<char>| #[trigger] graph.edges_spec(k) == some_if_any(
            edges_from(nv.take(0), Seq::<Seq<bool>>::empty(), k),
        ) by {
            lemma_lookup_last_absent(graph.adjacency_view(), k);
        }
        assert forall|k: Seq<char>| #[trigger] graph.node_spec(k) == lookup_last(
            root_writes(nv) + link_writes(nv.take(0), Seq::<Seq<bool>>::empty()),
            k,
        ) by {
            assert(root_writes(nv) + link_writes(nv.take(0), Seq::<Seq<bool>>::empty()) =~= root_writes(nv));
        }
    }
    let ghost mut sel: Seq<Seq<bool>> = Seq::empty();
    let mut n: usize = 0;
    while n < notes.len()
        invariant
            forall|o: &Options| options.requires((o,)),
            forall|k: u8| link_type.requires((k,)),
            nv == note_views(notes@),
            n <= notes@.len(),
            sel.len() == n,
            forall|t: int|
                0 <= t < n ==> {
                    &&& is_rooted(nv[t].0) ==> (#[trigger] sel[t]).len() == note_links(nv[t].1).len()
                    &&& !is_rooted(nv[t].0) ==> sel[t].len() == 0
                    &&& is_rooted(nv[t].0) ==> forall|j: int|
                        0 <= j < sel[t].len() ==> decided(options, link_type, note_links(nv[t].1)[j], #[trigger] sel[t][j])
                },
            graph.wf(),
            forall|k: Seq<char>|
                #[trigger] graph.node_spec(k) == lookup_last(root_writes(nv) + link_writes(nv.take(n as int), sel), k),
            forall|k: Seq<char>| #[trigger] graph.edges_spec(k) == some_if_any(edges_from(nv.take(n as int), sel, k)),
        decreases notes@.len() - n,
    {
        let ghost done = nv.take(n as int);
        let ghost base = root_writes(nv) + link_writes(done, sel);
        proof {
            assert(nv.take(n + 1).drop_last() =~= done);
            assert(nv.take(n + 1).last() == nv[n as int]);
        }
        if !has_prefix(notes[n].0.as_str(), "/") {
            proof {
                let sel2 = sel.push(Seq::<bool>::empty());
                assert(sel2.drop_last() =~= sel);
                assert(link_writes(nv.take(n + 1), sel2) == link_writes(done, sel));
                assert forall|k: Seq<char>| edges_from(nv.take(n + 1), sel2, k) == #[trigger] edges_from(done, sel, k) by {}
                assert forall|t: int| 0 <= t < n + 1 implies #[trigger] sel2[t] == if t < n {
                    sel[t]
                } else {
                    Seq::<bool>::empty()
                } by {}
                sel = sel2;
            }
        } else {
            let note = &notes[n];
            let links = links_from_path(note.1.as_str());
            let ghost path = nv[n as int].0;
            let ghost ls = note_links(nv[n as int].1);
            let ghost mut cur: Seq<bool> = Seq::empty();
            let mut l: usize = 0;
            while l < links.len()
                invariant
                    forall|o: &Options| options.requires((o,)),
                    forall|k: u8| link_type.requires((k,)),
                    link_views(links@) == ls,
                    forall|q: int| 0 <= q < links@.len() ==> (#[trigger] links@[q]).normalized_name@ == Seq::<char>::empty(),
                    note.0@ == path,
                    l <= links@.len(),
                    cur.len() == l,
                    forall|j: int| 0 <= j < l ==> decided(options, link_type, ls[j], #[trigger] cur[j]),
                    graph.wf(),
                    forall|k: Seq<char>|
                        #[trigger] graph.node_spec(k) == lookup_last(base + kept_writes(ls.take(l as int), cur), k),
                    forall|k: Seq<char>|
                        #[trigger] graph.edges_spec(k) == some_if_any(
                            edges_from(done, sel, k) + (if k == path {
                                kept_edges(ls.take(l as int), cur)
                            } else {
                                Seq::empty()
                            }),
                        ),
                decreases links@.len() - l,
            {
                let link = &links[l];
                let ghost lv = ls[l as int];
                proof {
                    assert(link@ == lv);
                    assert(ls.take(l + 1).drop_last() =~= ls.take(l as int));
                    assert(ls.take(l + 1).last() == lv);
                }
                let accepted_type = link_type(link.kind);
                let opt = link_options(link);
                proof {
                    assert(opt == options_of(lv));
                }
                let keep = if accepted_type {
                    options(&opt)
                } else {
                    false
                };
                let ghost cur2 = cur.push(keep);
                proof {
                    assert(cur2.drop_last() =~= cur);
                    assert(cur2.last() == keep);
                    assert(decided(options, link_type, lv, keep));
                }
                if keep {
                    let name = normalize_name(link, opt.url);
                    let ghost before = graph;
                    graph.insert_node(LinkNodeId(name.clone()), LinkNode { is_image: link.is_image });
                    let ghost middle = graph;
                    let edge = LinkEdge { link_type: link.kind, text: link.text.clone(), title: link.title.clone() };
                    let ghost ev = (name@, link.kind, link.text@, link.title@);
                    graph.add_adjacent(LinkNodeId(note.0.clone()), AAdjacement(LinkNodeId(name), edge));
                    proof {
                        assert(name@ == link_node_name(lv)) by {
                            reveal_strlit("./");
                        }
                        assert(ev == (link_node_name(lv), lv.0, lv.1, lv.3));
                        let w = (link_node_name(lv), lv.4);
                        assert(kept_writes(ls.take(l + 1), cur2) == kept_writes(ls.take(l as int), cur).push(w));
                        assert(kept_edges(ls.take(l + 1), cur2) == kept_edges(ls.take(l as int), cur).push(ev));
                        assert(base + kept_writes(ls.take(l + 1), cur2) =~= (base + kept_writes(ls.take(l as int), cur)).push(w));
                        assert forall|k: Seq<char>|
                            #[trigger] graph.node_spec(k) == lookup_last(base + kept_writes(ls.take(l + 1), cur2), k) by {
                            assert(graph.nodes_view() == middle.nodes_view());
                            assert(graph.node_spec(k) == middle.node_spec(k));
                            assert(middle.node_spec(k) == if k == name@ {
                                Some(link.is_image)
                            } else {
                                before.node_spec(k)
                            });
                            assert(before.node_spec(k) == lookup_last(base + kept_writes(ls.take(l as int), cur), k));
                            assert(w == (name@, link.is_image));
                            lemma_lookup_last_push(base + kept_writes(ls.take(l as int), cur), w, k);
                        }
                        assert forall|k: Seq<char>|
                            #[trigger] graph.edges_spec(k) == some_if_any(
                                edges_from(done, sel, k) + (if k == path {
                                    kept_edges(ls.take(l + 1), cur2)
                                } else {
                                    Seq::empty()
                                }),
                            ) by {
                            assert(middle.adjacency_view() == before.adjacency_view());
                            assert(middle.edges_spec(k) == before.edges_spec(k));
                            assert(before.edges_spec(k) == some_if_any(
                                edges_from(done, sel, k) + (if k == path {
                                    kept_edges(ls.take(l as int), cur)
                                } else {
                                    Seq::empty()
                                }),
                            ));
                            assert(graph.edges_spec(k) == if k == note.0@ {
                                Some(
                                    match middle.edges_spec(k) {
                                        Some(edges) => edges,
                                        None => Seq::empty(),
                                    }.push(ev),
                                )
                            } else {
                                middle.edges_spec(k)
                            });
                            if k == path {
                                let old_e = edges_from(done, sel, k) + kept_edges(ls.take(l as int), cur);
                                assert(edges_from(done, sel, k) + kept_edges(ls.take(l + 1), cur2) =~= old_e.push(ev));
                                if old_e.len() == 0 {
                                    assert(old_e =~= Seq::<EdgeView>::empty());
                                }
                            }
                        }
                    }
                } else {
                    proof {
                        assert(kept_writes(ls.take(l + 1), cur2) == kept_writes(ls.take(l as int), cur));
                        assert(kept_edges(ls.take(l + 1), cur2) == kept_edges(ls.take(l as int), cur));
                    }
                }
                proof {
                    assert forall|j: int| 0 <= j < l + 1 implies decided(options, link_type, ls[j], #[trigger] cur2[j]) by {
                        if j < l {
                            assert(cur2[j] == cur[j]);
                        }
                    }
                    cur = cur2;
                }
                l = l + 1;
            }
            proof {
                assert(ls.take(l as int) =~= ls);
                let sel2 = sel.push(cur);
                assert(sel2.drop_last() =~= sel);
                assert(sel2.last() == cur);
                assert(link_writes(nv.take(n + 1), sel2) == link_writes(done, sel) + kept_writes(ls, cur));
                assert(root_writes(nv) + link_writes(nv.take(n + 1), sel2) =~= base + kept_writes(ls, cur));
                assert forall|k: Seq<char>| #[trigger] graph.edges_spec(k) == some_if_any(
                    edges_from(nv.take(n + 1), sel2, k),
                ) by {
                    if k == path {
                        assert(edges_from(nv.take(n + 1), sel2, k) == edges_from(done, sel, k) + kept_edges(ls, cur));
                    } else {
                        assert(edges_from(nv.take(n + 1), sel2, k) == edges_from(done, sel, k));
                        assert(edges_from(done, sel, k) + Seq::<EdgeView>::empty() =~= edges_from(done, sel, k));
                    }
                }
                assert forall|t: int| 0 <= t < n + 1 implies #[trigger] sel2[t] == if t < n {
                    sel[t]
                } else {
                    cur
                } by {}
                sel = sel2;
            }
        }
        n = n + 1;
    }
    proof {
        assert(nv.take(n as int) =~= nv);
        assert(selects(options, link_type, nv, sel));
        assert(builds(graph, nv, sel));
    }
    graph
}

/// Whether the default choice keeps a link: an inline, reference, shortcut
/// or collapsed link to a markdown note that is neither a web link nor an
/// image.
pub open spec fn default_keeps(link: LinkView) -> bool {
    collects_text(link.0) && !options_of(link).url && !options_of(link).image && options_of(link).markdown
}

/// The decisions of the default choice for every link of every absolute
/// note.
pub open spec fn default_selection(notes: Seq<(Seq<char>, Seq<char>)>) -> Seq<Seq<bool>> {
    Seq::new(
        notes.len(),
        |i: int|
            if is_rooted(notes[i].0) {
                Seq::new(note_links(notes[i].1).len(), |j: int| default_keeps(note_links(notes[i].1)[j]))
            } else {
                Seq::empty()
            },
    )
}

/// The link graph of `notes` with the default choice of links (see
/// `default_keeps`).
pub fn create_graph_default_options(notes: &Vec<(String, String)>) -> (r: ANoteGraph)
    ensures
        builds(r, note_views(notes@), default_selection(note_views(notes@))),
{
    let options = |op: &Options| -> (b: bool)
        ensures
            b == (!op.url && !op.image && op.markdown),
        { !op.url && !op.image && op.markdown };
    let link_type = |link_type: u8| -> (b: bool)
        ensures
            b == (link_type == 0 || link_type == 1 || link_type == 5 || link_type == 3),
        { link_type == 0 || link_type == 1 || link_type == 5 || link_type == 3 };
    let r = create_graph(notes, options, link_type);
    proof {
        let nv = note_views(notes@);
        let sel = choose|sel: Seq<Seq<bool>>| selects(options, link_type, nv, sel) && builds(r, nv, sel);
        let d = default_selection(nv);
        assert forall|i: int| 0 <= i < nv.len() implies #[trigger] sel[i] =~= d[i] by {
            if is_rooted(nv[i].0) {
                assert forall|j: int| 0 <= j < sel[i].len() implies sel[i][j] == d[i][j] by {
                    assert(decided(options, link_type, note_links(nv[i].1)[j], sel[i][j]));
                }
            }
        }
        assert(sel =~= d);
    }
    r
}

} // verus!
