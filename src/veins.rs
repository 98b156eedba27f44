//! Every vein known to the program, ordered by id, and moving between them.
use vstd::prelude::*;

use crate::text::{
    lemma_seq_less_irreflexive,
    lemma_seq_less_total,
    lemma_seq_less_transitive,
    same_text,
    seq_less,
    text_less,
};
use crate::vein::{Vein, VeinId};

verus! {

/// The veins named in the configuration, each with the vein or the reason it
/// could not be opened, ordered by id.
pub struct Veins {
    veins: Vec<(VeinId, Result<Vein, String>)>,
}

impl Veins {
    /// The ids, in order.
    pub open spec fn id_seq(&self) -> Seq<Seq<char>> {
        self.entries().map_values(|e: (Seq<char>, Result<Vein, String>)| e.0)
    }

    /// Each vein's id and value, in order.
    pub closed spec fn entries(&self) -> Seq<(Seq<char>, Result<Vein, String>)> {
        self.veins@.map_values(|e: (VeinId, Result<Vein, String>)| (e.0.0@, e.1))
    }

    /// Each id comes before the next one.
    pub open spec fn wf(&self) -> bool {
        forall|i: int| 0 <= i < self.id_seq().len() - 1 ==> seq_less(#[trigger] self.id_seq()[i], self.id_seq()[i + 1])
    }

    /// No veins.
    pub fn new() -> (r: Self)
        ensures
            r.wf(),
            r.id_seq() == Seq::<Seq<char>>::empty(),
    {
        let r = Veins { veins: Vec::new() };
        assert(r.id_seq() =~= Seq::<Seq<char>>::empty());
        r
    }

    /// Adds vein `id` in its place in the order; a vein with the same id is
    /// replaced.
    pub fn insert(&mut self, id: VeinId, vein: Result<Vein, String>)
        requires
            old(self).wf(),
        ensures
            final(self).wf(),
            old(self).id_seq().contains(id.0@) ==> exists|p: int|
                0 <= p < old(self).entries().len() && old(self).entries()[p].0 == id.0@ && final(self).entries()
                    == old(self).entries().update(p, (id.0@, vein)),
            !old(self).id_seq().contains(id.0@) ==> exists|p: int|
                0 <= p <= old(self).entries().len() && final(self).entries() == old(self).entries().insert(
                    p,
                    (id.0@, vein),
                ),
    {
        let ghost olds = self.entries();
        let ghost entry = (id.0@, vein);
        let ghost ids = self.id_seq();
        let ghost key = id.0@;
        let mut p: usize = 0;
        let mut stop = false;
        while p < self.veins.len() && !stop
            invariant
                ids == self.id_seq(),
                key == id.0@,
                self.wf(),
                p <= ids.len(),
                forall|j: int| 0 <= j < p ==> seq_less(#[trigger] ids[j], key),
                stop ==> p < ids.len() && !seq_less(ids[p as int], key),
            decreases ids.len() - p + (if stop {
                0int
            } else {
                1int
            }),
        {
            assert(ids[p as int] == self.veins@[p as int].0.0@);
            if text_less(self.veins[p].0.0.as_str(), id.0.as_str()) {
                p = p + 1;
            } else {
                stop = true;
            }
        }
        let found = p < self.veins.len() && same_text(self.veins[p].0.0.as_str(), id.0.as_str());
        proof {
            if p < ids.len() {
                assert(ids[p as int] == self.veins@[p as int].0.0@);
            }
        }
        if found {
            self.veins.set(p, (id, vein));
            proof {
                assert(self.entries() =~= olds.update(p as int, entry));
                assert(olds[p as int].0 == key);
                assert(self.id_seq() =~= ids);
                assert(ids.contains(key)) by {
                    assert(ids[p as int] == key);
                }
            }
        } else {
            proof {
                if p < ids.len() {
                    lemma_seq_less_total(ids[p as int], key);
                    assert(seq_less(key, ids[p as int]));
                }
            }
            self.veins.insert(p, (id, vein));
            proof {
                assert(self.entries() =~= olds.insert(p as int, entry));
                let now = self.id_seq();
                assert(now =~= ids.insert(p as int, key));
                assert forall|i: int| 0 <= i < now.len() - 1 implies seq_less(#[trigger] now[i], now[i + 1]) by {
                    if i + 1 < p {
                        assert(now[i] == ids[i] && now[i + 1] == ids[i + 1]);
                    } else if i + 1 == p {
                        assert(now[i] == ids[i] && now[i + 1] == key);
                    } else if i == p {
                        assert(now[i] == key && now[i + 1] == ids[i]);
                    } else {
                        assert(now[i] == ids[i - 1] && now[i + 1] == ids[i]);
                    }
                }
                if ids.contains(key) {
                    let w = choose|w: int| 0 <= w < ids.len() && ids[w] == key;
                    if w < p {
                        assert(seq_less(ids[w], key));
                        lemma_seq_less_irreflexive(key);
                    } else if w > p {
                        lemma_sorted_chain(ids, p as int, w);
                        lemma_seq_less_transitive(key, ids[p as int], ids[w]);
                        lemma_seq_less_irreflexive(key);
                    }
                }
            }
        }
    }

    /// Each vein, with its id, in id order.
    pub fn iter(&self) -> (r: Vec<(&VeinId, &Result<Vein, String>)>)
        ensures
            r@.map_values(|e: (&VeinId, &Result<Vein, String>)| (e.0.0@, *e.1)) == self.entries(),
    {
        let mut r: Vec<(&VeinId, &Result<Vein, String>)> = Vec::new();
        let mut i: usize = 0;
        while i < self.veins.len()
            invariant
                i <= self.veins@.len(),
                r@.map_values(|e: (&VeinId, &Result<Vein, String>)| (e.0.0@, *e.1)) == self.entries().take(
                    i as int,
                ),
            decreases self.veins@.len() - i,
        {
            let ghost before = r@;
            let entry = &self.veins[i];
            r.push((&entry.0, &entry.1));
            proof {
                assert(r@.map_values(|e: (&VeinId, &Result<Vein, String>)| (e.0.0@, *e.1)) =~= before.map_values(
                    |e: (&VeinId, &Result<Vein, String>)| (e.0.0@, *e.1),
                ).push(self.entries()[i as int]));
                assert(self.entries().take(i + 1) =~= self.entries().take(i as int).push(
                    self.entries()[i as int],
                ));
            }
            i = i + 1;
        }
        assert(self.entries().take(i as int) =~= self.entries());
        r
    }

    /// The first slot holding id `id`.
    fn first_index(&self, id: &str) -> (r: Option<usize>)
        ensures
            match r {
                Some(q) => q < self.id_seq().len() && self.id_seq()[q as int] == id@ && forall|j: int|
                    0 <= j < q ==> self.id_seq()[j] != id@,
                None => forall|j: int| 0 <= j < self.id_seq().len() ==> self.id_seq()[j] != id@,
            },
    {
        let mut i: usize = 0;
        while i < self.veins.len()
            invariant
                i <= self.veins@.len(),
                forall|j: int| 0 <= j < i ==> self.id_seq()[j] != id@,
            decreases self.veins@.len() - i,
        {
            if same_text(self.veins[i].0.0.as_str(), id) {
                return Some(i);
            }
            i = i + 1;
        }
        None
    }

    /// The vein with id `id`, or why it could not be opened.
    pub fn get_vein(&self, id: &VeinId) -> (r: Option<&Result<Vein, String>>)
        ensures
            r.is_some() == self.id_seq().contains(id.0@),
            r matches Some(v) ==> exists|i: int| 0 <= i < self.entries().len() && self.entries()[i] == (id.0@, *v),
    {
        match self.first_index(id.0.as_str()) {
            Some(q) => {
                assert(self.entries()[q as int] == (id.0@, self.veins@[q as int].1));
                Some(&self.veins[q].1)
            },
            None => {
                proof {
                    if self.id_seq().contains(id.0@) {
                        let j = choose|j: int| 0 <= j < self.id_seq().len() && self.id_seq()[j] == id.0@;
                    }
                }
                None
            },
        }
    }

    /// The vein after `current` in id order; `current` itself where it is
    /// the last, is not a vein, or is `None`.
    pub fn next_vein(&self, current: &Option<VeinId>) -> (r: Option<VeinId>)
        ensures
            current.is_none() ==> r.is_none(),
            current.is_some() ==> r.is_some(),
            current matches Some(c) ==> {
                let ids = self.id_seq();
                &&& !ids.contains(c.0@) ==> r.unwrap().0@ == c.0@
                &&& forall|q: int|
                    0 <= q < ids.len() && #[trigger] ids[q] == c.0@ && (forall|j: int| 0 <= j < q ==> ids[j] != c.0@)
                        ==> if q + 1 < ids.len() {
                        r.unwrap().0@ == ids[q + 1]
                    } else {
                        r.unwrap().0@ == c.0@
                    }
            },
    {
        match current {
            None => None,
            Some(c) => {
                let ghost ids = self.id_seq();
                match self.first_index(c.0.as_str()) {
                    Some(q) => {
                        proof {
                            lemma_first_unique(ids, c.0@, q as int);
                            assert(q < self.veins@.len());
                        }
                        if q < self.veins.len() - 1 {
                            Some(VeinId(self.veins[q + 1].0.0.clone()))
                        } else {
                            Some(VeinId(c.0.clone()))
                        }
                    },
                    None => {
                        proof {
                            if ids.contains(c.0@) {
                                let j = choose|j: int| 0 <= j < ids.len() && ids[j] == c.0@;
                            }
                        }
                        Some(VeinId(c.0.clone()))
                    },
                }
            },
        }
    }

    /// The last slot holding id `id`.
    fn last_index(&self, id: &str) -> (r: Option<usize>)
        ensures
            match r {
                Some(q) => q < self.id_seq().len() && self.id_seq()[q as int] == id@ && forall|j: int|
                    q < j < self.id_seq().len() ==> self.id_seq()[j] != id@,
                None => forall|j: int| 0 <= j < self.id_seq().len() ==> self.id_seq()[j] != id@,
            },
    {
        let mut i: usize = self.veins.len();
        while i > 0
            invariant
                i <= self.veins@.len(),
                forall|j: int| i <= j < self.veins@.len() ==> self.id_seq()[j] != id@,
            decreases i,
        {
            if same_text(self.veins[i - 1].0.0.as_str(), id) {
                return Some(i - 1);
            }
            i = i - 1;
        }
        None
    }

    /// The vein before `current` in id order; `current` itself where it is
    /// the first, is not a vein, or is `None`.
    pub fn prev_vein(&self, current: &Option<VeinId>) -> (r: Option<VeinId>)
        ensures
            current.is_none() ==> r.is_none(),
            current.is_some() ==> r.is_some(),
            current matches Some(c) ==> {
                let ids = self.id_seq();
                &&& !ids.contains(c.0@) ==> r.unwrap().0@ == c.0@
                &&& forall|q: int|
                    0 <= q < ids.len() && #[trigger] ids[q] == c.0@ && (forall|j: int| q < j < ids.len() ==> ids[j] != c.0@)
                        ==> if q > 0 {
                        r.unwrap().0@ == ids[q - 1]
                    } else {
                        r.unwrap().0@ == c.0@
                    }
            },
    {
        match current {
            None => None,
            Some(c) => {
                let ghost ids = self.id_seq();
                match self.last_index(c.0.as_str()) {
                    Some(q) => {
                        proof {
                            lemma_last_unique(ids, c.0@, q as int);
                        }
                        if q > 0 {
                            Some(VeinId(self.veins[q - 1].0.0.clone()))
                        } else {
                            Some(VeinId(c.0.clone()))
                        }
                    },
                    None => {
                        proof {
                            if ids.contains(c.0@) {
                                let j = choose|j: int| 0 <= j < ids.len() && ids[j] == c.0@;
                            }
                        }
                        Some(VeinId(c.0.clone()))
                    },
                }
            },
        }
    }
}

proof fn lemma_sorted_chain(ids: Seq<Seq<char>>, p: int, w: int)
    requires
        forall|i: int| 0 <= i < ids.len() - 1 ==> seq_less(#[trigger] ids[i], ids[i + 1]),
        0 <= p < w < ids.len(),
    ensures
        seq_less(ids[p], ids[w]),
    decreases w - p,
{
    if w > p + 1 {
        lemma_sorted_chain(ids, p, w - 1);
        assert(seq_less(ids[w - 1], ids[w]));
        lemma_seq_less_transitive(ids[p], ids[w - 1], ids[w]);
    }
}

proof fn lemma_first_unique(ids: Seq<Seq<char>>, c: Seq<char>, q: int)
    requires
        0 <= q < ids.len(),
        ids[q] == c,
        forall|j: int| 0 <= j < q ==> ids[j] != c,
    ensures
        ids.contains(c),
        forall|p: int|
            0 <= p < ids.len() && ids[p] == c && (forall|j: int| 0 <= j < p ==> ids[j] != c) ==> p == q,
{
    assert forall|p: int|
        0 <= p < ids.len() && ids[p] == c && (forall|j: int| 0 <= j < p ==> ids[j] != c) implies p == q by {
        if p < q {
            assert(ids[p] != c);
        }
        if p > q {
            assert(ids[q] != c);
        }
    }
}

proof fn lemma_last_unique(ids: Seq<Seq<char>>, c: Seq<char>, q: int)
    requires
        0 <= q < ids.len(),
        ids[q] == c,
        forall|j: int| q < j < ids.len() ==> ids[j] != c,
    ensures
        ids.contains(c),
        forall|p: int|
            0 <= p < ids.len() && ids[p] == c && (forall|j: int| p < j < ids.len() ==> ids[j] != c) ==> p == q,
{
    assert forall|p: int|
        0 <= p < ids.len() && ids[p] == c && (forall|j: int| p < j < ids.len() ==> ids[j] != c) implies p == q by {
        if p < q {
            assert(ids[q] != c);
        }
        if p > q {
            assert(ids[p] != c);
        }
    }
}

} // verus!
