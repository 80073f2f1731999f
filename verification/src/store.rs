//! The key-value store: a mapping from key to entry with a secondary expiry
//! index, lazy expiration on reads, and an active purge for the sweeper.

use vstd::prelude::*;

use crate::text::str_eq;

verus! {

/// A stored value: only the byte-string kind is produced by any command
/// today; the rest are the open extension points of the data model.
#[derive(Debug)]
pub enum Value {
    Bytes(Vec<u8>),
    List(Vec<Vec<u8>>),
    SetData(Vec<Vec<u8>>),
    SortedSet(Vec<Vec<u8>>),
    Hash(Vec<(String, Vec<u8>)>),
    Bitmap,
}

/// The model of a stored value.
pub enum ValueS {
    Bytes(Seq<u8>),
    List(Seq<Seq<u8>>),
    SetData(Seq<Seq<u8>>),
    SortedSet(Seq<Seq<u8>>),
    Hash(Seq<(Seq<char>, Seq<u8>)>),
    Bitmap,
}

/// A stored value plus its optional absolute expiry instant, in
/// milliseconds.
#[derive(Debug)]
pub struct Entry {
    pub data: Value,
    pub expire_at: Option<u64>,
}

/// The model of an entry.
pub struct EntryS {
    pub data: ValueS,
    pub expire_at: Option<u64>,
}

/// The model of a value.
pub open spec fn vview(v: Value) -> ValueS {
    match v {
        Value::Bytes(b) => ValueS::Bytes(b@),
        Value::List(l) => ValueS::List(l@.map_values(|x: Vec<u8>| x@)),
        Value::SetData(l) => ValueS::SetData(l@.map_values(|x: Vec<u8>| x@)),
        Value::SortedSet(l) => ValueS::SortedSet(l@.map_values(|x: Vec<u8>| x@)),
        Value::Hash(l) => ValueS::Hash(l@.map_values(|x: (String, Vec<u8>)| (x.0@, x.1@))),
        Value::Bitmap => ValueS::Bitmap,
    }
}

/// The model of an entry.
pub open spec fn eview(e: Entry) -> EntryS {
    EntryS { data: vview(e.data), expire_at: e.expire_at }
}

/// True when the entry is past its expiry at observation time `now`.
pub open spec fn expired(e: EntryS, now: u64) -> bool {
    match e.expire_at {
        Option::Some(t) => t <= now,
        Option::None => false,
    }
}

/// The live byte-string under a key, if any: absent keys, expired entries
/// and entries of another kind all read as nothing.
pub open spec fn live_bytes(m: Map<Seq<char>, EntryS>, k: Seq<char>, now: u64) -> Option<Seq<u8>> {
    if m.contains_key(k) && !expired(m[k], now) {
        match m[k].data {
            ValueS::Bytes(b) => Option::Some(b),
            _ => Option::None,
        }
    } else {
        Option::None
    }
}

/// The mapping that an association list denotes, later pairs winning.
pub open spec fn map_of(l: Seq<(String, Entry)>) -> Map<Seq<char>, EntryS>
    decreases l.len(),
{
    if l.len() == 0 {
        Map::empty()
    } else {
        map_of(l.drop_last()).insert(l.last().0@, eview(l.last().1))
    }
}

/// No two pairs of the list share a key.
pub open spec fn distinct_keys(l: Seq<(String, Entry)>) -> bool {
    forall|i: int, j: int| 0 <= i < j < l.len() ==> (#[trigger] l[i]).0@ != (#[trigger] l[j]).0@
}

/// The store: entries and the ascending expiry index over (instant, key).
pub struct Store {
    entries: Vec<(String, Entry)>,
    expirations: Vec<(u64, String)>,
}

impl Store {
    /// The mapping from key to entry that the store holds.
    pub closed spec fn entries_map(self) -> Map<Seq<char>, EntryS> {
        map_of(self.entries@)
    }

    /// The expiry index, as (instant, key) pairs in ascending instant order.
    pub closed spec fn index(self) -> Seq<(u64, Seq<char>)> {
        self.expirations@.map_values(|p: (u64, String)| (p.0, p.1@))
    }

    /// The structural invariant: keys are unique; the index is sorted by
    /// instant and duplicate-free; and it holds exactly one pair for every
    /// entry with an expiry, matching in instant and key, and none besides.
    pub closed spec fn wf(self) -> bool {
        &&& distinct_keys(self.entries@)
        &&& forall|i: int, j: int|
            0 <= i < j < self.index().len() ==> (#[trigger] self.index()[i]).0 <= (
            #[trigger] self.index()[j]).0
        &&& forall|i: int, j: int|
            0 <= i < j < self.index().len() ==> (#[trigger] self.index()[i]) != (
            #[trigger] self.index()[j])
        &&& forall|i: int|
            0 <= i < self.index().len() ==> self.entries_map().contains_key(
                (#[trigger] self.index()[i]).1,
            ) && self.entries_map()[self.index()[i].1].expire_at == Option::Some(
                self.index()[i].0,
            )
        &&& forall|k: Seq<char>|
            #![trigger self.entries_map()[k]]
            self.entries_map().contains_key(k) && self.entries_map()[k].expire_at is Some
                ==> exists|i: int|
                0 <= i < self.index().len() && (#[trigger] self.index()[i]) == (
                self.entries_map()[k].expire_at->Some_0,
                k,
            )
    }

    /// Index consistency, stated for readers of the model: under the
    /// invariant, an entry with expiry `t` under key `k` has exactly one
    /// index pair `(t, k)`, an entry without expiry has none, every index
    /// pair belongs to such an entry, and the index ascends by instant, so
    /// its head is the least remaining deadline.
    pub proof fn lemma_index_consistent(self)
        requires
            self.wf(),
        ensures
            forall|i: int, j: int|
                0 <= i < j < self.index().len() ==> (#[trigger] self.index()[i]).0 <= (
                #[trigger] self.index()[j]).0,
            forall|k: Seq<char>|
                #![trigger self.entries_map()[k]]
                self.entries_map().contains_key(k) && self.entries_map()[k].expire_at is Some
                    ==> exists|i: int|
                    0 <= i < self.index().len() && (#[trigger] self.index()[i]) == (
                    self.entries_map()[k].expire_at->Some_0,
                    k,
                ),
            forall|i: int, j: int|
                0 <= i < j < self.index().len() ==> (#[trigger] self.index()[i]) != (
                #[trigger] self.index()[j]),
            forall|i: int|
                0 <= i < self.index().len() ==> self.entries_map().contains_key(
                    (#[trigger] self.index()[i]).1,
                ) && self.entries_map()[self.index()[i].1].expire_at == Option::Some(
                    self.index()[i].0,
                ),
    {
    }

    /// An empty store.
    pub fn new() -> (r: Store)
        ensures
            r.wf(),
            r.entries_map() == Map::<Seq<char>, EntryS>::empty(),
            r.index() == Seq::<(u64, Seq<char>)>::empty(),
    {
        let r = Store { entries: Vec::new(), expirations: Vec::new() };
        proof {
            assert(r.index() =~= Seq::<(u64, Seq<char>)>::empty());
        }
        r
    }
}

/// The byte-string previously under a key, regardless of expiry.
pub open spec fn prev_bytes(m: Map<Seq<char>, EntryS>, k: Seq<char>) -> Option<Seq<u8>> {
    if m.contains_key(k) {
        match m[k].data {
            ValueS::Bytes(b) => Option::Some(b),
            _ => Option::None,
        }
    } else {
        Option::None
    }
}

impl Store {
    /// Position of the pair holding `key`, if any.
    fn find_key(&self, key: &str) -> (r: Option<usize>)
        ensures
            match r {
                Option::Some(i) => i < self.entries@.len() && self.entries@[i as int].0@ == key@,
                Option::None => forall|i: int|
                    0 <= i < self.entries@.len() ==> (#[trigger] self.entries@[i]).0@ != key@,
            },
    {
        let mut i: usize = 0;
        while i < self.entries.len()
            invariant
                i <= self.entries@.len(),
                forall|j: int| 0 <= j < i ==> (#[trigger] self.entries@[j]).0@ != key@,
            decreases self.entries@.len() - i,
        {
            if str_eq(self.entries[i].0.as_str(), key) {
                return Some(i);
            }
            i = i + 1;
        }
        None
    }

    /// Whether the store holds an entry under `key`, expired or not.
    pub fn contains_key(&self, key: &str) -> (r: bool)
        requires
            self.wf(),
        ensures
            r == self.entries_map().contains_key(key@),
    {
        match self.find_key(key) {
            Option::Some(i) => {
                proof {
                    lemma_map_of_get(self.entries@, i as int);
                }
                true
            },
            Option::None => {
                proof {
                    lemma_map_of_absent(self.entries@, key@);
                }
                false
            },
        }
    }

    /// The stored byte-string under `key`, unless the entry has expired at
    /// `now`: an expired entry is never observably returned, whether or not
    /// the sweeper has physically removed it yet.
    pub fn get_bytes(&self, key: &str, now: u64) -> (r: Option<Vec<u8>>)
        requires
            self.wf(),
        ensures
            match r {
                Option::Some(v) => live_bytes(self.entries_map(), key@, now) == Option::Some(v@),
                Option::None => live_bytes(self.entries_map(), key@, now) is None,
            },
    {
        match self.find_key(key) {
            Option::Some(i) => {
                proof {
                    lemma_map_of_get(self.entries@, i as int);
                }
                if let Option::Some(t) = self.entries[i].1.expire_at {
                    if t <= now {
                        return None;
                    }
                }
                match &self.entries[i].1.data {
                    Value::Bytes(b) => Some(vstd::slice::slice_to_vec(b.as_slice())),
                    _ => None,
                }
            },
            Option::None => {
                proof {
                    lemma_map_of_absent(self.entries@, key@);
                }
                None
            },
        }
    }

    /// Removes the index pair `(t, key)`, which must be present and unique.
    fn remove_index_pair(&mut self, t: u64, key: &str)
        requires
            exists|j: int|
                0 <= j < old(self).index().len() && (#[trigger] old(self).index()[j]) == (t, key@),
            forall|j1: int, j2: int|
                0 <= j1 < j2 < old(self).index().len() ==> (#[trigger] old(self).index()[j1]) != (
                #[trigger] old(self).index()[j2]),
        ensures
            final(self).entries@ == old(self).entries@,
            exists|j: int|
                0 <= j < old(self).index().len() && (#[trigger] old(self).index()[j]) == (t, key@)
                    && final(self).index() == old(self).index().remove(j),
    {
        let mut j: usize = 0;
        while j < self.expirations.len()
            invariant
                self == old(self),
                j <= self.expirations@.len(),
                forall|i: int| 0 <= i < j ==> (#[trigger] self.index()[i]) != (t, key@),
                exists|i: int|
                    0 <= i < self.index().len() && (#[trigger] self.index()[i]) == (t, key@),
            decreases self.expirations@.len() - j,
        {
            if self.expirations[j].0 == t && str_eq(self.expirations[j].1.as_str(), key) {
                assert(self.index()[j as int] == (t, key@));
                self.expirations.remove(j);
                proof {
                    assert(final(self).index() =~= old(self).index().remove(j as int));
                }
                return ;
            }
            assert(self.index()[j as int] != (t, key@));
            j = j + 1;
        }
        proof {
            let i = choose|i: int|
                0 <= i < self.index().len() && (#[trigger] self.index()[i]) == (t, key@);
            assert(false);
        }
    }

    /// Inserts the pair `(t, key)` into the index at its sorted place; no
    /// pair with this key may be present.
    fn insert_index_pair(&mut self, t: u64, key: &str)
        requires
            forall|j1: int, j2: int|
                0 <= j1 < j2 < old(self).index().len() ==> (#[trigger] old(self).index()[j1]).0
                    <= (#[trigger] old(self).index()[j2]).0,
            forall|j1: int, j2: int|
                0 <= j1 < j2 < old(self).index().len() ==> (#[trigger] old(self).index()[j1]) != (
                #[trigger] old(self).index()[j2]),
            forall|j: int|
                0 <= j < old(self).index().len() ==> (#[trigger] old(self).index()[j]).1 != key@,
        ensures
            final(self).entries@ == old(self).entries@,
            exists|p: int|
                0 <= p <= old(self).index().len() && final(self).index() == old(
                    self,
                ).index().insert(p, (t, key@)),
            forall|j1: int, j2: int|
                0 <= j1 < j2 < final(self).index().len() ==> (#[trigger] final(self).index()[j1]).0
                    <= (#[trigger] final(self).index()[j2]).0,
            forall|j1: int, j2: int|
                0 <= j1 < j2 < final(self).index().len() ==> (#[trigger] final(self).index()[j1])
                    != (#[trigger] final(self).index()[j2]),
    {
        let mut p: usize = 0;
        while p < self.expirations.len() && self.expirations[p].0 <= t
            invariant
                self == old(self),
                p <= self.expirations@.len(),
                forall|i: int| 0 <= i < p ==> (#[trigger] self.index()[i]).0 <= t,
            decreases self.expirations@.len() - p,
        {
            p = p + 1;
        }
        assert(p < self.expirations@.len() ==> self.index()[p as int].0 > t);
        self.expirations.insert(p, (t, key.to_owned()));
        proof {
            let oldix = old(self).index();
            let newix = final(self).index();
            assert(newix =~= oldix.insert(p as int, (t, key@)));
            assert forall|j1: int, j2: int| 0 <= j1 < j2 < newix.len() implies (
            #[trigger] newix[j1]).0 <= (#[trigger] newix[j2]).0 by {
                if j1 < p && j2 < p {
                    assert(newix[j1] == oldix[j1] && newix[j2] == oldix[j2]);
                } else if j1 < p && j2 == p {
                    assert(newix[j1] == oldix[j1]);
                } else if j1 < p && j2 > p {
                    assert(newix[j1] == oldix[j1] && newix[j2] == oldix[j2 - 1]);
                    assert(oldix[j1].0 <= oldix[j2 - 1].0);
                } else if j1 == p {
                    assert(newix[j2] == oldix[j2 - 1]);
                    assert(j2 - 1 >= p);
                } else {
                    assert(newix[j1] == oldix[j1 - 1] && newix[j2] == oldix[j2 - 1]);
                }
            }
            assert forall|j1: int, j2: int| 0 <= j1 < j2 < newix.len() implies (
            #[trigger] newix[j1]) != (#[trigger] newix[j2]) by {
                if j1 == p || j2 == p {
                    if j1 == p {
                        assert(newix[j2] == oldix[j2 - 1]);
                        assert(oldix[j2 - 1].1 != key@);
                    } else {
                        assert(newix[j1] == oldix[j1]);
                        assert(oldix[j1].1 != key@);
                    }
                } else {
                    let a0: int = if j1 < p {
                        j1
                    } else {
                        j1 - 1
                    };
                    let b0: int = if j2 < p {
                        j2
                    } else {
                        j2 - 1
                    };
                    assert(newix[j1] == oldix[a0] && newix[j2] == oldix[b0]);
                }
            }
        }
    }
}


impl Store {
    /// Eagerly deletes the entry under `key` together with its expiry-index
    /// pair, returning the byte-string it held, if any.
    pub fn remove(&mut self, key: &str) -> (r: Option<Vec<u8>>)
        requires
            old(self).wf(),
        ensures
            final(self).wf(),
            final(self).entries_map() == old(self).entries_map().remove(key@),
            match r {
                Option::Some(v) => prev_bytes(old(self).entries_map(), key@) == Option::Some(v@),
                Option::None => prev_bytes(old(self).entries_map(), key@) is None,
            },
            forall|j: int|
                0 <= j < final(self).index().len() ==> (#[trigger] final(self).index()[j]).1
                    != key@,
            (if old(self).entries_map().contains_key(key@) && old(
                self,
            ).entries_map()[key@].expire_at is Some {
                final(self).index().len() == old(self).index().len() - 1
            } else {
                final(self).index() == old(self).index()
            }),
    {
        let i = match self.find_key(key) {
            Option::Some(i) => i,
            Option::None => {
                proof {
                    lemma_map_of_absent(self.entries@, key@);
                    assert(final(self).entries_map() =~= old(self).entries_map().remove(key@));
                    assert forall|j: int| 0 <= j < final(self).index().len() implies (
                    #[trigger] final(self).index()[j]).1 != key@ by {
                        assert(self.entries_map().contains_key(self.index()[j].1));
                    }
                }
                return None;
            },
        };
        proof {
            lemma_map_of_get(self.entries@, i as int);
        }
        let prev = match &self.entries[i].1.data {
            Value::Bytes(b) => Some(vstd::slice::slice_to_vec(b.as_slice())),
            _ => None,
        };
        let exp = self.entries[i].1.expire_at;
        let ghost mid = *self;
        if let Option::Some(t) = exp {
            proof {
                assert(self.entries_map()[key@].expire_at == Option::Some(t));
            }
            self.remove_index_pair(t, key);
        }
        proof {
            lemma_map_of_remove(self.entries@, i as int);
        }
        let ghost pre = *self;
        self.entries.remove(i);
        proof {
            assert(final(self).entries@ =~= pre.entries@.remove(i as int));
            assert(final(self).entries_map() =~= old(self).entries_map().remove(key@));
            let newself = *self;
            assert forall|j: int| 0 <= j < newself.index().len() implies (
            #[trigger] newself.index()[j]).1 != key@ by {
                if exp is Some {
                    let t0 = exp->0;
                    let jj = choose|jj: int|
                        0 <= jj < old(self).index().len() && (#[trigger] old(self).index()[jj]) == (
                        t0,
                        key@,
                        ) && newself.index() == old(self).index().remove(jj);
                    let j0: int = if j < jj {
                        j
                    } else {
                        j + 1
                    };
                    assert(newself.index()[j] == old(self).index()[j0]);
                    if old(self).index()[j0].1 == key@ {
                        assert(old(self).entries_map()[key@].expire_at == Option::Some(
                            old(self).index()[j0].0,
                        ));
                        assert(old(self).index()[j0] == (t0, key@));
                        assert(j0 != jj);
                        assert(false);
                    }
                } else {
                    assert(newself.index()[j] == old(self).index()[j]);
                    if old(self).index()[j].1 == key@ {
                        assert(old(self).entries_map()[key@].expire_at is Some);
                        assert(false);
                    }
                }
            }
            assert(newself.wf()) by {
                let oldix = old(self).index();
                let newix = newself.index();
                let m2 = newself.entries_map();
                if exp is Some {
                    let t0 = exp->0;
                    let jj = choose|jj: int|
                        0 <= jj < oldix.len() && (#[trigger] oldix[jj]) == (t0, key@)
                            && newix == oldix.remove(jj);
                    assert forall|a: int, b: int| 0 <= a < b < newix.len() implies (
                    #[trigger] newix[a]).0 <= (#[trigger] newix[b]).0 && newix[a] != newix[b] by {
                        let a0: int = if a < jj {
                            a
                        } else {
                            a + 1
                        };
                        let b0: int = if b < jj {
                            b
                        } else {
                            b + 1
                        };
                        assert(newix[a] == oldix[a0] && newix[b] == oldix[b0]);
                    }
                    assert forall|a: int| 0 <= a < newix.len() implies m2.contains_key(
                        (#[trigger] newix[a]).1,
                    ) && m2[newix[a].1].expire_at == Option::Some(newix[a].0) by {
                        let a0: int = if a < jj {
                            a
                        } else {
                            a + 1
                        };
                        assert(newix[a] == oldix[a0]);
                        assert(newix[a].1 != key@);
                    }
                    assert forall|k: Seq<char>|
                        #![trigger m2[k]]
                        m2.contains_key(k) && m2[k].expire_at is Some implies exists|a: int|
                        0 <= a < newix.len() && (#[trigger] newix[a]) == (
                        m2[k].expire_at->Some_0,
                        k,
                        ) by {
                        let t1 = m2[k].expire_at->Some_0;
                        let a0 = choose|a0: int|
                            0 <= a0 < oldix.len() && (#[trigger] oldix[a0]) == (t1, k);
                        assert(k != key@);
                        assert(a0 != jj);
                        let a: int = if a0 < jj {
                            a0
                        } else {
                            a0 - 1
                        };
                        assert(newix[a] == oldix[a0]);
                    }
                } else {
                    assert(newix == oldix);
                    assert forall|k: Seq<char>|
                        #![trigger m2[k]]
                        m2.contains_key(k) && m2[k].expire_at is Some implies exists|a: int|
                        0 <= a < newix.len() && (#[trigger] newix[a]) == (
                        m2[k].expire_at->Some_0,
                        k,
                        ) by {
                        let t1 = m2[k].expire_at->Some_0;
                        let a0 = choose|a0: int|
                            0 <= a0 < oldix.len() && (#[trigger] oldix[a0]) == (t1, k);
                        assert(newix[a0] == oldix[a0]);
                    }
                }
            }
        }
        prev
    }
}


/// The map after removing the first `i` keys of the list, in order.
pub open spec fn remove_upto(
    m: Map<Seq<char>, EntryS>,
    ks: Seq<Seq<char>>,
    i: int,
) -> Map<Seq<char>, EntryS>
    decreases i,
{
    if i <= 0 {
        m
    } else {
        remove_upto(m, ks, i - 1).remove(ks[i - 1])
    }
}

/// The texts of a vector of keys.
pub open spec fn key_views(ks: Seq<String>) -> Seq<Seq<char>> {
    ks.map_values(|k: String| k@)
}

impl Store {
    /// Inserts or replaces the entry under `key` as a byte-string with the
    /// given expiry, removing any previous expiry-index pair before
    /// installing the new one; returns the previous byte-string, if one was
    /// stored.
    pub fn set_bytes(&mut self, key: &str, value: Vec<u8>, expire_at: Option<u64>) -> (r: Option<
        Vec<u8>,
    >)
        requires
            old(self).wf(),
        ensures
            final(self).wf(),
            final(self).entries_map() == old(self).entries_map().insert(
                key@,
                EntryS { data: ValueS::Bytes(value@), expire_at },
            ),
            match r {
                Option::Some(v) => prev_bytes(old(self).entries_map(), key@) == Option::Some(v@),
                Option::None => prev_bytes(old(self).entries_map(), key@) is None,
            },
    {
        let prev = self.remove(key);
        let ghost mid = *self;
        proof {
            assert forall|i: int| 0 <= i < mid.entries@.len() implies (
            #[trigger] mid.entries@[i]).0@ != key@ by {
                if mid.entries@[i].0@ == key@ {
                    lemma_map_of_get(mid.entries@, i);
                }
            }
        }
        self.entries.push((key.to_owned(), Entry { data: Value::Bytes(value), expire_at }));
        let ghost mid2 = *self;
        proof {
            assert(mid2.entries@.drop_last() =~= mid.entries@);
            assert(mid2.entries_map() =~= mid.entries_map().insert(
                key@,
                EntryS { data: ValueS::Bytes(value@), expire_at },
            ));
            assert(mid2.entries_map() =~= old(self).entries_map().insert(
                key@,
                EntryS { data: ValueS::Bytes(value@), expire_at },
            ));
            assert(distinct_keys(mid2.entries@)) by {
                assert forall|a: int, b: int| 0 <= a < b < mid2.entries@.len() implies (
                #[trigger] mid2.entries@[a]).0@ != (#[trigger] mid2.entries@[b]).0@ by {
                    if b == mid2.entries@.len() - 1 {
                        assert(mid2.entries@[a] == mid.entries@[a]);
                    } else {
                        assert(mid2.entries@[a] == mid.entries@[a] && mid2.entries@[b]
                            == mid.entries@[b]);
                    }
                }
            }
            assert(mid2.index() == mid.index());
        }
        if let Option::Some(t) = expire_at {
            self.insert_index_pair(t, key);
            proof {
                let m2 = final(self).entries_map();
                let newix = final(self).index();
                let p = choose|p: int|
                    0 <= p <= mid2.index().len() && newix == mid2.index().insert(p, (t, key@));
                assert forall|a: int| 0 <= a < newix.len() implies m2.contains_key(
                    (#[trigger] newix[a]).1,
                ) && m2[newix[a].1].expire_at == Option::Some(newix[a].0) by {
                    if a != p {
                        let a0: int = if a < p {
                            a
                        } else {
                            a - 1
                        };
                        assert(newix[a] == mid2.index()[a0]);
                        assert(mid2.index()[a0] == mid.index()[a0]);
                        assert(newix[a].1 != key@);
                    }
                }
                assert forall|k: Seq<char>|
                    #![trigger m2[k]]
                    m2.contains_key(k) && m2[k].expire_at is Some implies exists|a: int|
                    0 <= a < newix.len() && (#[trigger] newix[a]) == (
                    m2[k].expire_at->Some_0,
                    k,
                    ) by {
                    if k == key@ {
                        assert(newix[p] == (t, key@));
                    } else {
                        let t1 = m2[k].expire_at->Some_0;
                        let a0 = choose|a0: int|
                            0 <= a0 < mid.index().len() && (#[trigger] mid.index()[a0]) == (t1, k);
                        let a: int = if a0 < p {
                            a0
                        } else {
                            a0 + 1
                        };
                        assert(newix[a] == mid2.index()[a0]);
                    }
                }
            }
        } else {
            proof {
                let m2 = final(self).entries_map();
                let newix = final(self).index();
                assert forall|k: Seq<char>|
                    #![trigger m2[k]]
                    m2.contains_key(k) && m2[k].expire_at is Some implies exists|a: int|
                    0 <= a < newix.len() && (#[trigger] newix[a]) == (
                    m2[k].expire_at->Some_0,
                    k,
                    ) by {
                    assert(k != key@);
                    let t1 = m2[k].expire_at->Some_0;
                    let a0 = choose|a0: int|
                        0 <= a0 < mid.index().len() && (#[trigger] mid.index()[a0]) == (t1, k);
                    assert(newix[a0] == mid.index()[a0]);
                }
            }
        }
        proof {
            assert(self.entries@ == mid2.entries@);
        }
        prev
    }

    /// Overwrites only the value under `key`, leaving its expiry untouched;
    /// a no-op when the key is absent.
    pub fn update_bytes(&mut self, key: &str, value: Vec<u8>)
        requires
            old(self).wf(),
        ensures
            final(self).wf(),
            final(self).entries_map() == (if old(self).entries_map().contains_key(key@) {
                old(self).entries_map().insert(
                    key@,
                    EntryS {
                        data: ValueS::Bytes(value@),
                        expire_at: old(self).entries_map()[key@].expire_at,
                    },
                )
            } else {
                old(self).entries_map()
            }),
    {
        match self.find_key(key) {
            Option::Some(i) => {
                proof {
                    lemma_map_of_get(self.entries@, i as int);
                }
                let exp = self.entries[i].1.expire_at;
                let ghost oldl = self.entries@;
                self.entries[i] = (
                    key.to_owned(),
                    Entry { data: Value::Bytes(value), expire_at: exp },
                );
                proof {
                    let k2 = self.entries@[i as int].0;
                    let e2 = self.entries@[i as int].1;
                    assert(self.entries@ =~= oldl.update(i as int, (k2, e2)));
                    lemma_map_of_update(oldl, i as int, k2, e2);
                }
            },
            Option::None => {
                proof {
                    lemma_map_of_absent(self.entries@, key@);
                }
            },
        }
    }

    /// Removes every key of the list, left to right.
    pub fn remove_vec(&mut self, keys: &Vec<String>)
        requires
            old(self).wf(),
        ensures
            final(self).wf(),
            final(self).entries_map() == remove_upto(
                old(self).entries_map(),
                key_views(keys@),
                keys@.len() as int,
            ),
    {
        let mut i: usize = 0;
        while i < keys.len()
            invariant
                i <= keys@.len(),
                self.wf(),
                self.entries_map() == remove_upto(
                    old(self).entries_map(),
                    key_views(keys@),
                    i as int,
                ),
            decreases keys@.len() - i,
        {
            self.remove(keys[i].as_str());
            i = i + 1;
        }
    }

    /// Purges every entry whose expiry instant is at or before `now`,
    /// scanning the index from its earliest instant, and returns the instant
    /// of the next entry still in the future, or nothing when the index is
    /// empty afterwards. Entries without expiry, and unexpired entries, are
    /// untouched.
    pub fn purge_expired(&mut self, now: u64) -> (r: Option<u64>)
        requires
            old(self).wf(),
        ensures
            final(self).wf(),
            forall|k: Seq<char>|
                #![trigger final(self).entries_map().contains_key(k)]
                final(self).entries_map().contains_key(k) <==> (
                old(self).entries_map().contains_key(k) && !expired(
                    old(self).entries_map()[k],
                    now,
                )),
            forall|k: Seq<char>|
                #![trigger final(self).entries_map()[k]]
                final(self).entries_map().contains_key(k) ==> final(self).entries_map()[k] == old(
                    self,
                ).entries_map()[k],
            match r {
                Option::Some(t) => final(self).index().len() > 0 && t == final(self).index()[0].0
                    && t > now,
                Option::None => final(self).index().len() == 0,
            },
    {
        while self.expirations.len() > 0 && self.expirations[0].0 <= now
            invariant
                self.wf(),
                forall|k: Seq<char>|
                    #![trigger self.entries_map().contains_key(k)]
                    self.entries_map().contains_key(k) ==> old(self).entries_map().contains_key(k),
                forall|k: Seq<char>|
                    #![trigger self.entries_map()[k]]
                    self.entries_map().contains_key(k) ==> self.entries_map()[k] == old(
                        self,
                    ).entries_map()[k],
                forall|k: Seq<char>|
                    #![trigger old(self).entries_map()[k]]
                    old(self).entries_map().contains_key(k)
                        && !self.entries_map().contains_key(k) ==> expired(
                        old(self).entries_map()[k],
                        now,
                    ),
                forall|k: Seq<char>|
                    #![trigger old(self).entries_map().contains_key(k)]
                    old(self).entries_map().contains_key(k) && !expired(
                        old(self).entries_map()[k],
                        now,
                    ) ==> self.entries_map().contains_key(k),
            decreases self.expirations@.len(),
        {
            let t = self.expirations[0].0;
            let k2 = self.expirations[0].1.clone();
            proof {
                assert(self.index()[0] == (t, k2@));
                assert(self.entries_map().contains_key(k2@));
                assert(self.entries_map()[k2@].expire_at == Option::Some(t));
            }
            self.remove(k2.as_str());
        }
        proof {
            assert forall|k: Seq<char>|
                #![trigger self.entries_map()[k]]
                self.entries_map().contains_key(k) implies !expired(self.entries_map()[k], now) by {
                if self.entries_map()[k].expire_at is Some {
                    let t1 = self.entries_map()[k].expire_at->Some_0;
                    let a = choose|a: int|
                        0 <= a < self.index().len() && (#[trigger] self.index()[a]) == (t1, k);
                    if a > 0 {
                        assert(self.index()[0].0 <= self.index()[a].0);
                    }
                    assert(self.index()[0].0 > now);
                }
            }
            assert forall|k: Seq<char>|
                #![trigger final(self).entries_map().contains_key(k)]
                final(self).entries_map().contains_key(k) <==> (old(
                    self,
                ).entries_map().contains_key(k) && !expired(old(self).entries_map()[k], now)) by {
                if self.entries_map().contains_key(k) {
                    assert(self.entries_map()[k] == old(self).entries_map()[k]);
                    assert(!expired(self.entries_map()[k], now));
                }
            }
        }
        if self.expirations.len() == 0 {
            None
        } else {
            let t0 = self.expirations[0].0;
            proof {
                assert(self.entries_map().contains_key(self.index()[0].1));
            }
            Some(t0)
        }
    }
}


/// The entry with a key matches the map the list denotes.
proof fn lemma_map_of_get(l: Seq<(String, Entry)>, i: int)
    requires
        0 <= i < l.len(),
        distinct_keys(l),
    ensures
        map_of(l).contains_key(l[i].0@),
        map_of(l)[l[i].0@] == eview(l[i].1),
    decreases l.len(),
{
    if i < l.len() - 1 {
        assert(l.drop_last()[i] == l[i]);
        lemma_map_of_get(l.drop_last(), i);
        assert(l[l.len() - 1].0@ != l[i].0@);
    }
}

/// A key on no pair of the list is not in the map it denotes.
proof fn lemma_map_of_absent(l: Seq<(String, Entry)>, k: Seq<char>)
    requires
        forall|i: int| 0 <= i < l.len() ==> (#[trigger] l[i]).0@ != k,
    ensures
        !map_of(l).contains_key(k),
    decreases l.len(),
{
    if l.len() > 0 {
        lemma_map_of_absent(l.drop_last(), k);
    }
}

/// Replacing the pair at `i` by one with the same key text updates the
/// denoted map at that key alone.
proof fn lemma_map_of_update(l: Seq<(String, Entry)>, i: int, k2: String, e: Entry)
    requires
        0 <= i < l.len(),
        distinct_keys(l),
        k2@ == l[i].0@,
    ensures
        map_of(l.update(i, (k2, e))) =~= map_of(l).insert(l[i].0@, eview(e)),
        distinct_keys(l.update(i, (k2, e))),
    decreases l.len(),
{
    let l2 = l.update(i, (k2, e));
    assert forall|a: int, b: int| 0 <= a < b < l2.len() implies (#[trigger] l2[a]).0@ != (
    #[trigger] l2[b]).0@ by {
        assert(l2[a].0@ == l[a].0@ && l2[b].0@ == l[b].0@);
    }
    if i == l.len() - 1 {
        assert(l2.drop_last() =~= l.drop_last());
        assert(map_of(l2) =~= map_of(l).insert(l[i].0@, eview(e)));
    } else {
        assert(l2.drop_last() =~= l.drop_last().update(i, (k2, e)));
        assert(l.drop_last()[i] == l[i]);
        lemma_map_of_update(l.drop_last(), i, k2, e);
        assert(l[l.len() - 1].0@ != l[i].0@);
        assert(map_of(l2) =~= map_of(l).insert(l[i].0@, eview(e)));
    }
}

/// Removing the pair at `i` removes that key from the denoted map.
proof fn lemma_map_of_remove(l: Seq<(String, Entry)>, i: int)
    requires
        0 <= i < l.len(),
        distinct_keys(l),
    ensures
        map_of(l.remove(i)) =~= map_of(l).remove(l[i].0@),
        distinct_keys(l.remove(i)),
    decreases l.len(),
{
    let l2 = l.remove(i);
    assert forall|a: int, b: int| 0 <= a < b < l2.len() implies (#[trigger] l2[a]).0@ != (
    #[trigger] l2[b]).0@ by {
        let a0: int = if a < i {
            a
        } else {
            a + 1
        };
        let b0: int = if b < i {
            b
        } else {
            b + 1
        };
        assert(l2[a] == l[a0] && l2[b] == l[b0]);
    }
    if i == l.len() - 1 {
        assert(l2 =~= l.drop_last());
        lemma_map_of_absent_last(l);
    } else {
        assert(l2.drop_last() =~= l.drop_last().remove(i));
        assert(l.drop_last()[i] == l[i]);
        lemma_map_of_remove(l.drop_last(), i);
        assert(l[l.len() - 1].0@ != l[i].0@);
        assert(map_of(l2) =~= map_of(l).remove(l[i].0@));
    }
}

/// With distinct keys, the last key is absent from the rest of the list, so
/// dropping the last pair removes exactly its key.
proof fn lemma_map_of_absent_last(l: Seq<(String, Entry)>)
    requires
        l.len() > 0,
        distinct_keys(l),
    ensures
        map_of(l.drop_last()) =~= map_of(l).remove(l[l.len() - 1].0@),
{
    let k = l[l.len() - 1].0@;
    assert forall|i: int| 0 <= i < l.drop_last().len() implies (#[trigger] l.drop_last()[i]).0@
        != k by {
        assert(l.drop_last()[i] == l[i]);
    }
    lemma_map_of_absent(l.drop_last(), k);
}

/// Store expiry invariant: an entry whose expiry is `t` reads as absent at
/// every observation time at or past `t`, no matter whether the sweeper has
/// physically removed it yet.
pub proof fn lemma_expiry_observed(m: Map<Seq<char>, EntryS>, k: Seq<char>, t: u64, now: u64)
    requires
        m.contains_key(k),
        m[k].expire_at == Option::Some(t),
        t <= now,
    ensures
        live_bytes(m, k, now) is None,
{
}

/// Active expiration is invisible to readers: a store purged at `now` reads
/// at `now` exactly as the unpurged store did, for every key.
pub proof fn lemma_purge_invisible(
    m0: Map<Seq<char>, EntryS>,
    m1: Map<Seq<char>, EntryS>,
    now: u64,
)
    requires
        forall|k: Seq<char>|
            #![trigger m1.contains_key(k)]
            m1.contains_key(k) <==> (m0.contains_key(k) && !expired(m0[k], now)),
        forall|k: Seq<char>| #![trigger m1[k]] m1.contains_key(k) ==> m1[k] == m0[k],
    ensures
        forall|k: Seq<char>|
            #![trigger live_bytes(m1, k, now)]
            live_bytes(m1, k, now) == live_bytes(m0, k, now),
{
    assert forall|k: Seq<char>|
        #![trigger live_bytes(m1, k, now)]
        live_bytes(m1, k, now) == live_bytes(m0, k, now) by {
        if m1.contains_key(k) {
            assert(m1[k] == m0[k]);
        }
    }
}

} // verus!
