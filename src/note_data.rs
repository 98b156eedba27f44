//! The text of the open note, the images it shows, and the listeners told
//! when the text changes.
use vstd::prelude::*;

use crate::text::same_text;

verus! {

/// Image bytes by path, each path stored once.
pub struct ImagesCache {
    cache: Vec<(String, Vec<u8>)>,
}

impl View for ImagesCache {
    type V = Seq<(Seq<char>, Seq<u8>)>;

    closed spec fn view(&self) -> Seq<(Seq<char>, Seq<u8>)> {
        self.cache@.map_values(|e: (String, Vec<u8>)| (e.0@, e.1@))
    }
}

impl ImagesCache {
    /// No path is stored twice.
    pub open spec fn wf(&self) -> bool {
        self@.map_values(|e: (Seq<char>, Seq<u8>)| e.0).no_duplicates()
    }

    /// An empty cache.
    pub fn new() -> (r: Self)
        ensures
            r@ == Seq::<(Seq<char>, Seq<u8>)>::empty(),
            r.wf(),
    {
        let r = ImagesCache { cache: Vec::new() };
        assert(r@ =~= Seq::<(Seq<char>, Seq<u8>)>::empty());
        r
    }

    /// The bytes cached for `path`.
    pub fn cached(&self, path: &str) -> (r: Option<&Vec<u8>>)
        ensures
            match r {
                Some(data) => exists|i: int|
                    0 <= i < self@.len() && self@[i].0 == path@ && self@[i].1 == data@,
                None => forall|i: int| 0 <= i < self@.len() ==> self@[i].0 != path@,
            },
    {
        let mut i: usize = 0;
        while i < self.cache.len()
            invariant
                i <= self@.len(),
                forall|j: int| 0 <= j < i ==> self@[j].0 != path@,
            decreases self@.len() - i,
        {
            if same_text(self.cache[i].0.as_str(), path) {
                assert(self@[i as int].0 == path@);
                return Some(&self.cache[i].1);
            }
            i = i + 1;
        }
        None
    }

    /// Caches `data` for `path`, which is not cached yet.
    pub fn store(&mut self, path: String, data: Vec<u8>)
        requires
            old(self).wf(),
            forall|i: int| 0 <= i < old(self)@.len() ==> old(self)@[i].0 != path@,
        ensures
            final(self)@ == old(self)@.push((path@, data@)),
            final(self).wf(),
    {
        let ghost entry = (path@, data@);
        self.cache.push((path, data));
        proof {
            assert(self@ =~= old(self)@.push(entry));
            assert(self@.map_values(|e: (Seq<char>, Seq<u8>)| e.0) =~= old(self)@.map_values(
                |e: (Seq<char>, Seq<u8>)| e.0,
            ).push(entry.0));
        }
    }
}

/// Something listeners can subscribe to, to be called on each change.
pub trait Publisher<S: Fn()> {
    /// The listeners, in subscription order.
    spec fn subscriber_seq(&self) -> Seq<S>;

    /// `self` and `other` hold the same content, whatever their listeners.
    spec fn same_content(&self, other: &Self) -> bool;

    /// Adds a listener and returns its place in the list.
    fn subscribe(&mut self, subscriber: S) -> (r: usize)
        requires
            old(self).subscriber_seq().len() < usize::MAX,
        ensures
            final(self).subscriber_seq() == old(self).subscriber_seq().push(subscriber),
            final(self).same_content(old(self)),
            r == old(self).subscriber_seq().len(),
    ;

    /// Removes the listener at place `subscription`; later listeners move
    /// up by one.
    fn unsubscribe(&mut self, subscription: usize)
        requires
            subscription < old(self).subscriber_seq().len(),
        ensures
            final(self).subscriber_seq() == old(self).subscriber_seq().remove(subscription as int),
            final(self).same_content(old(self)),
    ;

    /// Calls every listener once, in order.
    fn notify_all(&self)
        requires
            forall|i: int| 0 <= i < self.subscriber_seq().len() ==> (#[trigger] self.subscriber_seq()[i]).requires(()),
    ;
}

/// The open note: its markdown text, its images, and the listeners told of
/// each new text.
pub struct NoteData<S> {
    text: String,
    images_cache: ImagesCache,
    subscribers: Vec<S>,
}

impl<S: Fn()> NoteData<S> {
    /// The markdown text.
    pub closed spec fn text_view(&self) -> Seq<char> {
        self.text@
    }

    /// The listeners, in subscription order.
    pub closed spec fn subscribers(&self) -> Seq<S> {
        self.subscribers@
    }

    /// The image cache.
    pub closed spec fn images(&self) -> ImagesCache {
        self.images_cache
    }

    /// A note with `markdown_input` as its text, no images and no listeners.
    pub fn new(markdown_input: String) -> (r: Self)
        ensures
            r.text_view() == markdown_input@,
            r.images()@.len() == 0,
            r.images().wf(),
            r.subscriber_seq().len() == 0,
    {
        NoteData { text: markdown_input, images_cache: ImagesCache::new(), subscribers: Vec::new() }
    }

    /// The markdown text.
    pub fn text(&self) -> (r: &str)
        ensures
            r@ == self.text_view(),
    {
        self.text.as_str()
    }

    /// Replaces the text, then calls every listener.
    pub fn set_text(&mut self, text: String)
        requires
            forall|i: int|
                0 <= i < old(self).subscriber_seq().len() ==> (#[trigger] old(self).subscriber_seq()[i]).requires(()),
        ensures
            final(self).text_view() == text@,
            final(self).subscriber_seq() == old(self).subscriber_seq(),
            final(self).images() == old(self).images(),
    {
        self.text = text;
        assert(self.subscriber_seq() == old(self).subscriber_seq());
        self.notify_all();
    }

    /// The image cache.
    pub fn images_cache(&self) -> (r: &ImagesCache)
        ensures
            *r == self.images(),
    {
        &self.images_cache
    }

    /// Caches `data` for image `path`, which is not cached yet.
    pub fn cache_image(&mut self, path: String, data: Vec<u8>)
        requires
            old(self).images().wf(),
            forall|i: int| 0 <= i < old(self).images()@.len() ==> old(self).images()@[i].0 != path@,
        ensures
            final(self).images()@ == old(self).images()@.push((path@, data@)),
            final(self).images().wf(),
            final(self).text_view() == old(self).text_view(),
            final(self).subscriber_seq() == old(self).subscriber_seq(),
    {
        self.images_cache.store(path, data);
    }
}

impl<S: Fn()> Publisher<S> for NoteData<S> {
    open spec fn subscriber_seq(&self) -> Seq<S> {
        self.subscribers()
    }

    /// Same text and same image cache.
    open spec fn same_content(&self, other: &Self) -> bool {
        self.text_view() == other.text_view() && self.images() == other.images()
    }

    fn subscribe(&mut self, subscriber: S) -> (r: usize) {
        self.subscribers.push(subscriber);
        self.subscribers.len() - 1
    }

    fn unsubscribe(&mut self, subscription: usize) {
        let _ = self.subscribers.remove(subscription);
    }

    fn notify_all(&self) {
        let mut i: usize = 0;
        while i < self.subscribers.len()
            invariant
                i <= self.subscribers@.len(),
                self.subscriber_seq() == self.subscribers@,
                forall|k: int|
                    0 <= k < self.subscriber_seq().len() ==> (#[trigger] self.subscriber_seq()[k]).requires(()),
            decreases self.subscribers@.len() - i,
        {
            let notify = &self.subscribers[i];
            notify();
            i = i + 1;
        }
    }
}

/// The markdown shown in the preview pane, and its images.
pub struct NotePreview {
    pub markdown_input: String,
    pub images_cache: ImagesCache,
}

impl NotePreview {
    /// A preview of `markdown_input` with no images loaded.
    pub fn new(markdown_input: String) -> (r: Self)
        ensures
            r.markdown_input@ == markdown_input@,
            r.images_cache@.len() == 0,
            r.images_cache.wf(),
    {
        NotePreview { markdown_input, images_cache: ImagesCache::new() }
    }
}

} // verus!
