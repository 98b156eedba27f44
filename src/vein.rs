//! A vein: one repository of notes, with a hidden configuration directory
//! where values such as the saved layout are kept.
use vstd::prelude::*;
use vstd::string::*;

use crate::path::{
    absolute,
    canonical,
    canonicalize,
    components,
    is_absolute,
    join,
    join_components,
    path_components,
    str_views,
};
use crate::text::same_text;

verus! {

/// Name of the configuration directory under a vein's root.
pub const CONFIG_DIRECTORY: &'static str = ".basalt";

/// Where the notes of a vein live.
pub enum Kind {
    /// A directory of the local file system.
    Native { path: String },
    Web {  },
    Remote {  },
}

/// The id of a vein, as written in the configuration: its path.
#[derive(PartialEq, Eq, Debug, Clone)]
pub struct VeinId(pub String);

impl VeinId {
    /// The id as text.
    pub fn as_str(&self) -> (r: &str)
        ensures
            r@ == self.0@,
    {
        self.0.as_str()
    }
}

/// A value kept in a vein's configuration directory, under a fixed file
/// name, as text.
pub trait Store: Sized {
    type Error;

    /// The file name under the configuration directory.
    fn vein_config_name() -> &'static str;

    /// The value as text.
    fn serialize(&self) -> Result<String, Self::Error>;

    /// The value that `s` holds.
    fn deserialize(s: &str) -> Result<Self, Self::Error>;
}

/// What reading a stored value gave.
pub enum StoredValue<T, E> {
    /// Nothing was stored yet.
    Missing,
    /// The stored text does not hold a value.
    Malformed(E),
    Loaded(T),
}

/// The outcome of a read: `None` where no file was found, else what parsing
/// the file gave.
pub fn stored_value<T, E>(read: Option<Result<T, E>>) -> (r: StoredValue<T, E>)
    ensures
        match read {
            None => r is Missing,
            Some(Ok(v)) => r == StoredValue::<T, E>::Loaded(v),
            Some(Err(e)) => r == StoredValue::<T, E>::Malformed(e),
        },
{
    match read {
        None => StoredValue::Missing,
        Some(Ok(v)) => StoredValue::Loaded(v),
        Some(Err(e)) => StoredValue::Malformed(e),
    }
}

/// The id of the note at `file` in a vein rooted at `root`: its path below
/// the root, both normalized; `None` where `file` does not lie below `root`.
pub open spec fn relative_id(root: Seq<char>, file: Seq<char>) -> Option<Seq<char>> {
    let rc = components(root);
    let fc = components(file);
    if is_absolute(root) == is_absolute(file) && rc.len() <= fc.len() && fc.take(rc.len() as int) == rc {
        Some(join(fc.skip(rc.len() as int)))
    } else {
        None
    }
}

/// The contents of the last entry of `s` whose key is `key`.
pub open spec fn lookup(s: Seq<(Seq<char>, Seq<char>)>, key: Seq<char>) -> Option<Seq<char>>
    decreases s.len(),
{
    if s.len() == 0 {
        None
    } else if s.last().0 == key {
        Some(s.last().1)
    } else {
        lookup(s.drop_last(), key)
    }
}

/// The contents of the last of `files` whose note id below `root` is `id`.
pub open spec fn note_of(root: Seq<char>, files: Seq<(Seq<char>, Seq<char>)>, id: Seq<char>) -> Option<
    Seq<char>,
>
    decreases files.len(),
{
    if files.len() == 0 {
        None
    } else if relative_id(root, files.last().0) == Some(id) {
        Some(files.last().1)
    } else {
        note_of(root, files.drop_last(), id)
    }
}

/// The views of a sequence of string pairs.
pub open spec fn pair_views(s: Seq<(String, String)>) -> Seq<(Seq<char>, Seq<char>)> {
    s.map_values(|e: (String, String)| (e.0@, e.1@))
}

/// The keys of a sequence of pairs.
pub open spec fn pair_keys(s: Seq<(Seq<char>, Seq<char>)>) -> Seq<Seq<char>> {
    s.map_values(|e: (Seq<char>, Seq<char>)| e.0)
}

proof fn lemma_lookup_update(s: Seq<(Seq<char>, Seq<char>)>, q: int, v: Seq<char>, key: Seq<char>)
    requires
        pair_keys(s).no_duplicates(),
        0 <= q < s.len(),
    ensures
        lookup(s.update(q, (s[q].0, v)), key) == (if key == s[q].0 {
            Some(v)
        } else {
            lookup(s, key)
        }),
    decreases s.len(),
{
    let t = s.update(q, (s[q].0, v));
    if q == s.len() - 1 {
        assert(t.drop_last() =~= s.drop_last());
    } else {
        assert(t.drop_last() =~= s.drop_last().update(q, (s[q].0, v)));
        assert(pair_keys(s.drop_last()) =~= pair_keys(s).drop_last());
        assert(s.last().0 != s[q].0) by {
            assert(pair_keys(s)[q] == s[q].0);
            assert(pair_keys(s)[s.len() - 1] == s.last().0);
        }
        lemma_lookup_update(s.drop_last(), q, v, key);
    }
}

/// A repository of notes: each note's id and markdown text.
pub struct Vein {
    kind: Kind,
    notes: Vec<(String, String)>,
}

impl Vein {
    /// The notes, id and text, in the order they were first found.
    pub closed spec fn notes_view(&self) -> Seq<(Seq<char>, Seq<char>)> {
        pair_views(self.notes@)
    }

    /// The normalized root directory of a native vein.
    pub closed spec fn root(&self) -> Option<Seq<char>> {
        match self.kind {
            Kind::Native { path } => Some(path@),
            _ => None,
        }
    }

    /// No note id is stored twice.
    pub open spec fn wf(&self) -> bool {
        pair_keys(self.notes_view()).no_duplicates()
    }

    /// The vein rooted at directory `root`, holding `files`: the path and
    /// contents of each file found below it. A note's id is its file's path
    /// below the root; where two files give one id, the later one is kept;
    /// a file that does not lie below the root is left out.
    pub fn new_native(root: &str, files: &Vec<(String, String)>) -> (r: Self)
        ensures
            r.wf(),
            r.root() == Some(canonical(root@)),
            forall|id: Seq<char>|
                #[trigger] lookup(r.notes_view(), id) == note_of(root@, pair_views(files@), id),
    {
        let mut notes: Vec<(String, String)> = Vec::new();
        let ghost fs = pair_views(files@);
        let mut i: usize = 0;
        proof {
            assert(pair_keys(pair_views(notes@)) =~= Seq::<Seq<char>>::empty());
        }
        while i < files.len()
            invariant
                fs == pair_views(files@),
                i <= files@.len(),
                pair_keys(pair_views(notes@)).no_duplicates(),
                forall|id: Seq<char>|
                    #[trigger] lookup(pair_views(notes@), id) == note_of(root@, fs.take(i as int), id),
            decreases files@.len() - i,
        {
            proof {
                assert(fs.take(i + 1).drop_last() =~= fs.take(i as int));
                assert(fs.take(i + 1).last() == (files@[i as int].0@, files@[i as int].1@));
            }
            let ghost prev = pair_views(notes@);
            assert(forall|id: Seq<char>| #[trigger] lookup(prev, id) == note_of(root@, fs.take(i as int), id));
            match relative_note_id(root, files[i].0.as_str()) {
                Some(id) => {
                    let ghost key = id@;
                    let contents = files[i].1.clone();
                    let ghost before = pair_views(notes@);
                    match note_index(&notes, id.as_str()) {
                        Some(q) => {
                            notes.set(q, (id, contents));
                            proof {
                                assert(before[q as int].0 == key);
                                assert(relative_id(root@, fs.take(i + 1).last().0) == Some(key));
                                assert(pair_views(notes@) =~= before.update(q as int, (before[q as int].0, contents@)));
                                assert(pair_keys(pair_views(notes@)) =~= pair_keys(before));
                                assert forall|k: Seq<char>|
                                    #[trigger] lookup(pair_views(notes@), k) == note_of(root@, fs.take(i + 1), k) by {
                                    lemma_lookup_update(before, q as int, contents@, k);
                                    assert(lookup(before, k) == note_of(root@, fs.take(i as int), k));
                                    assert(fs.take(i + 1).last().1 == contents@);
                                    assert(fs.take(i + 1).drop_last() == fs.take(i as int));
                                    assert(note_of(root@, fs.take(i + 1), k) == if k == key {
                                        Some(contents@)
                                    } else {
                                        note_of(root@, fs.take(i as int), k)
                                    });
                                    assert(lookup(pair_views(notes@), k) == if k == key {
                                        Some(contents@)
                                    } else {
                                        lookup(before, k)
                                    });
                                }
                            }
                        },
                        None => {
                            notes.push((id, contents));
                            proof {
                                assert(pair_views(notes@) =~= before.push((key, contents@)));
                                assert(pair_views(notes@).drop_last() =~= before);
                                assert(pair_keys(pair_views(notes@)) =~= pair_keys(before).push(key));
                                assert(!pair_keys(before).contains(key)) by {
                                    if pair_keys(before).contains(key) {
                                        let j = choose|j: int| 0 <= j < pair_keys(before).len() && pair_keys(before)[j] == key;
                                        assert(before[j].0 == key);
                                    }
                                }
                                assert forall|k: Seq<char>|
                                    #[trigger] lookup(pair_views(notes@), k) == note_of(root@, fs.take(i + 1), k) by {
                                    assert(lookup(before, k) == note_of(root@, fs.take(i as int), k));
                                    assert(fs.take(i + 1).last().1 == contents@);
                                    assert(fs.take(i + 1).drop_last() == fs.take(i as int));
                                    assert(relative_id(root@, fs.take(i + 1).last().0) == Some(key));
                                }
                            }
                        },
                    }
                },
                None => {},
            }
            i = i + 1;
        }
        proof {
            assert(fs.take(i as int) =~= fs);
        }
        Vein { kind: Kind::Native { path: canonicalize(root) }, notes }
    }

    /// The text of note `name`.
    pub fn get_note(&self, name: &str) -> (r: Option<&str>)
        requires
            self.wf(),
        ensures
            match r {
                Some(text) => lookup(self.notes_view(), name@) == Some(text@),
                None => lookup(self.notes_view(), name@).is_none(),
            },
    {
        match note_index(&self.notes, name) {
            Some(q) => {
                proof {
                    lemma_lookup_unique(self.notes_view(), q as int);
                }
                Some(self.notes[q].1.as_str())
            },
            None => {
                proof {
                    lemma_lookup_absent(self.notes_view(), name@);
                }
                None
            },
        }
    }

    /// The notes, id and text, in the order they were first found.
    pub fn iter(&self) -> (r: Vec<(&str, &str)>)
        ensures
            r@.map_values(|e: (&str, &str)| (e.0@, e.1@)) == self.notes_view(),
    {
        let mut r: Vec<(&str, &str)> = Vec::new();
        let mut i: usize = 0;
        while i < self.notes.len()
            invariant
                i <= self.notes@.len(),
                r@.map_values(|e: (&str, &str)| (e.0@, e.1@)) == self.notes_view().take(i as int),
            decreases self.notes@.len() - i,
        {
            let ghost before = r@;
            let entry = (self.notes[i].0.as_str(), self.notes[i].1.as_str());
            r.push(entry);
            proof {
                assert(r@.map_values(|e: (&str, &str)| (e.0@, e.1@)) =~= before.map_values(
                    |e: (&str, &str)| (e.0@, e.1@),
                ).push(self.notes_view()[i as int]));
                assert(self.notes_view().take(i + 1) =~= self.notes_view().take(i as int).push(
                    self.notes_view()[i as int],
                ));
            }
            i = i + 1;
        }
        assert(self.notes_view().take(i as int) =~= self.notes_view());
        r
    }

    /// Whether the vein is a local directory.
    pub fn is_native(&self) -> (r: bool)
        ensures
            r == self.root().is_some(),
    {
        match &self.kind {
            Kind::Native { .. } => true,
            _ => false,
        }
    }

    /// The path of configuration file `name`: the root, the configuration
    /// directory, then `name`.
    pub fn config_file_path(&self, name: &str) -> (r: String)
        requires
            self.root().is_some(),
        ensures
            r@ == self.root().unwrap() + seq!['/'] + CONFIG_DIRECTORY@ + seq!['/'] + name@,
    {
        match &self.kind {
            Kind::Native { path } => {
                let mut r = path.clone();
                r.append("/");
                r.append(CONFIG_DIRECTORY);
                r.append("/");
                r.append(name);
                proof {
                    reveal_strlit("/");
                }
                r
            },
            _ => {
                proof {
                    assert(false);
                }
                String::new()
            },
        }
    }

    /// The value stored in `T`'s configuration file, given the file's text
    /// (`None` where the file does not exist).
    pub fn read_config_value<T: Store>(text: Option<&str>) -> (r: StoredValue<T, T::Error>)
        ensures
            (r is Missing) == text.is_none(),
    {
        match text {
            None => stored_value(None),
            Some(t) => stored_value(Some(T::deserialize(t))),
        }
    }

    /// The path and text to write for configuration file `name`, given
    /// what serializing the value gave.
    pub fn config_write<E>(&self, name: &str, serialized: Result<String, E>) -> (r: Result<
        (String, String),
        E,
    >)
        requires
            self.root().is_some(),
        ensures
            match serialized {
                Ok(text) => r matches Ok((path, t)) && t == text && path@ == self.root().unwrap()
                    + seq!['/'] + CONFIG_DIRECTORY@ + seq!['/'] + name@,
                Err(e) => r == Err::<(String, String), E>(e),
            },
    {
        match serialized {
            Ok(text) => Ok((self.config_file_path(name), text)),
            Err(e) => Err(e),
        }
    }

    /// The path and text to write to store `value` in its configuration
    /// file: `T`'s file under the configuration directory, and what
    /// serializing `value` gave (see `config_write`).
    pub fn write_config_value<T: Store>(&self, value: &T) -> (r: Result<(String, String), T::Error>)
        requires
            self.root().is_some(),
        ensures
            r matches Ok((path, _)) ==> exists|name: Seq<char>|
                path@ == self.root().unwrap() + seq!['/'] + CONFIG_DIRECTORY@ + seq!['/'] + name,
    {
        let serialized = value.serialize();
        self.config_write(T::vein_config_name(), serialized)
    }
}

proof fn lemma_lookup_unique(s: Seq<(Seq<char>, Seq<char>)>, q: int)
    requires
        pair_keys(s).no_duplicates(),
        0 <= q < s.len(),
    ensures
        lookup(s, s[q].0) == Some(s[q].1),
    decreases s.len(),
{
    if q < s.len() - 1 {
        assert(pair_keys(s.drop_last()) =~= pair_keys(s).drop_last());
        assert(s.last().0 != s[q].0) by {
            assert(pair_keys(s)[q] == s[q].0);
            assert(pair_keys(s)[s.len() - 1] == s.last().0);
        }
        lemma_lookup_unique(s.drop_last(), q);
    }
}

proof fn lemma_lookup_absent(s: Seq<(Seq<char>, Seq<char>)>, key: Seq<char>)
    requires
        forall|j: int| 0 <= j < s.len() ==> s[j].0 != key,
    ensures
        lookup(s, key).is_none(),
    decreases s.len(),
{
    if s.len() > 0 {
        assert(s.last().0 != key) by {
            assert(s[s.len() - 1].0 != key);
        }
        lemma_lookup_absent(s.drop_last(), key);
    }
}

/// The slot of the note with id `name`.
fn note_index(notes: &Vec<(String, String)>, name: &str) -> (r: Option<usize>)
    ensures
        match r {
            Some(q) => q < notes@.len() && pair_views(notes@)[q as int].0 == name@,
            None => forall|j: int| 0 <= j < notes@.len() ==> pair_views(notes@)[j].0 != name@,
        },
{
    let mut i: usize = 0;
    while i < notes.len()
        invariant
            i <= notes@.len(),
            forall|j: int| 0 <= j < i ==> pair_views(notes@)[j].0 != name@,
        decreases notes@.len() - i,
    {
        if same_text(notes[i].0.as_str(), name) {
            return Some(i);
        }
        i = i + 1;
    }
    None
}

/// The note id of `file` in a vein rooted at `root` (see `relative_id`).
fn relative_note_id(root: &str, file: &str) -> (r: Option<String>)
    ensures
        r.is_none() ==> relative_id(root@, file@).is_none(),
        r.is_some() ==> relative_id(root@, file@) == Some(r.unwrap()@),
{
    let root_comps = path_components(root);
    let comps = path_components(file);
    let ghost rc = str_views(root_comps@);
    let ghost fc = str_views(comps@);
    if absolute(file) != absolute(root) || root_comps.len() > comps.len() {
        return None;
    }
    let mut k: usize = 0;
    while k < root_comps.len()
        invariant
            rc == str_views(root_comps@),
            fc == str_views(comps@),
            rc == components(root@),
            fc == components(file@),
            is_absolute(root@) == is_absolute(file@),
            rc.len() <= fc.len(),
            k <= rc.len(),
            forall|j: int| 0 <= j < k ==> fc[j] == rc[j],
        decreases rc.len() - k,
    {
        if !same_text(comps[k], root_comps[k]) {
            proof {
                assert(fc.take(rc.len() as int)[k as int] != rc[k as int]);
            }
            return None;
        }
        k = k + 1;
    }
    proof {
        assert(fc.take(rc.len() as int) =~= rc);
    }
    Some(join_components(String::new(), &comps, root_comps.len()))
}

} // verus!
