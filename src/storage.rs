//! DHT records and the two local stores of a peer.
use vstd::prelude::*;

use crate::key::Key;
use crate::PeerId;

verus! {

/// Represents the data associated with a record.
#[derive(Debug)]
pub enum RecordData {
    /// Provider record containing a key and a list of providers.
    ProviderRecord { key: Key, providers: Vec<PeerId> },
}

/// Represents a record in the storage.
#[derive(Debug)]
pub struct Record {
    /// The data associated with the record.
    pub data: RecordData,
    /// The expiration time of the record.
    pub expires_at: u64,
}

/// What a record holds: its key, its providers and its expiration time.
pub type RecordView = (Key, Seq<PeerId>, u64);

impl View for Record {
    type V = RecordView;

    open spec fn view(&self) -> RecordView {
        match &self.data {
            RecordData::ProviderRecord { key, providers } => (*key, providers@, self.expires_at),
        }
    }
}

impl Clone for RecordData {
    fn clone(&self) -> (r: Self)
        ensures
            match (self, &r) {
                (
                    RecordData::ProviderRecord { key: k1, providers: p1 },
                    RecordData::ProviderRecord { key: k2, providers: p2 },
                ) => k1 == k2 && p1@ == p2@,
            },
    {
        match self {
            RecordData::ProviderRecord { key, providers } => {
                let p = providers.clone();
                assert(p@ =~= providers@);
                RecordData::ProviderRecord { key: *key, providers: p }
            },
        }
    }
}

impl Clone for Record {
    fn clone(&self) -> (r: Self)
        ensures
            r@ == self@,
    {
        Record { data: self.data.clone(), expires_at: self.expires_at }
    }
}

impl Record {
    /// A provider record for `key` whose one provider is `self_id`, which
    /// expires `expiration_interval` after `curr_time` (at the end of time
    /// if that sum does not fit).
    pub fn new_provider_record(
        self_id: PeerId,
        key: Key,
        curr_time: u64,
        expiration_interval: u64,
    ) -> (r: Record)
        ensures
            r@ == (key, seq![self_id], curr_time.saturating_add(expiration_interval)),
    {
        let providers = vec![self_id];
        Record {
            data: RecordData::ProviderRecord { key, providers },
            expires_at: curr_time.saturating_add(expiration_interval),
        }
    }

    /// Returns the key associated with the record.
    pub fn key(&self) -> (r: Key)
        ensures
            r == self@.0,
    {
        match &self.data {
            RecordData::ProviderRecord { key, .. } => *key,
        }
    }

    /// The peers that provide the record's content.
    pub fn providers(&self) -> (r: &Vec<PeerId>)
        ensures
            r@ == self@.1,
    {
        match &self.data {
            RecordData::ProviderRecord { providers, .. } => providers,
        }
    }

    /// A copy of the record that expires `expiration_interval` after
    /// `curr_time`.
    pub fn refreshed(&self, curr_time: u64, expiration_interval: u64) -> (r: Record)
        ensures
            r@ == (self@.0, self@.1, curr_time.saturating_add(expiration_interval)),
    {
        Record { data: self.data.clone(), expires_at: curr_time.saturating_add(expiration_interval) }
    }
}

/// The position of `key` among the keys of `s`, if it is there.
pub open spec fn has_key<V>(s: Seq<(Key, V)>, key: Key) -> bool {
    exists|i: int| 0 <= i < s.len() && s[i].0 == key
}

pub open spec fn keys_unique<V>(s: Seq<(Key, V)>) -> bool {
    forall|i: int, j: int|
        0 <= i < s.len() && 0 <= j < s.len() && i != j ==> (#[trigger] s[i]).0 != (#[trigger] s[j]).0
}

pub open spec fn index_of_key<V>(s: Seq<(Key, V)>, key: Key) -> int {
    choose|i: int| 0 <= i < s.len() && s[i].0 == key
}

pub open spec fn record_entries(s: Seq<(Key, Record)>) -> Seq<(Key, RecordView)> {
    s.map_values(|e: (Key, Record)| (e.0, e.1@))
}

/// Represents the local storage for the DHT: records by key.
#[derive(Debug)]
pub struct LocalDHTStorage {
    records: Vec<(Key, Record)>,
}

impl LocalDHTStorage {
    pub closed spec fn entries(&self) -> Seq<(Key, RecordView)> {
        record_entries(self.records@)
    }

    pub open spec fn wf(&self) -> bool {
        keys_unique(self.entries())
    }

    /// The stored records, by key.
    pub open spec fn view(&self) -> Map<Key, RecordView> {
        Map::new(
            |k: Key| has_key(self.entries(), k),
            |k: Key| self.entries()[index_of_key(self.entries(), k)].1,
        )
    }

    /// Creates an empty store.
    pub fn new() -> (r: LocalDHTStorage)
        ensures
            r.wf(),
            r.view() == Map::<Key, RecordView>::empty(),
    {
        let r = LocalDHTStorage { records: Vec::new() };
        assert(r.view() =~= Map::<Key, RecordView>::empty());
        r
    }

    fn find(&self, key: &Key) -> (r: Option<usize>)
        requires
            self.wf(),
        ensures
            match r {
                Some(i) => i < self.entries().len() && self.entries()[i as int].0 == *key
                    && index_of_key(self.entries(), *key) == i,
                None => !has_key(self.entries(), *key),
            },
    {
        let mut i: usize = 0;
        while i < self.records.len()
            invariant
                i <= self.records@.len(),
                self.wf(),
                self.entries().len() == self.records@.len(),
                forall|j: int| 0 <= j < i ==> (#[trigger] self.entries()[j]).0 != *key,
            decreases self.records@.len() - i,
        {
            assert(self.entries()[i as int].0 == self.records@[i as int].0);
            if self.records[i].0 == *key {
                proof {
                    assert(has_key(self.entries(), *key)) by {
                        assert(self.entries()[i as int].0 == *key);
                    }
                    let c = index_of_key(self.entries(), *key);
                    assert(self.entries()[c].0 == *key);
                    assert(0 <= c < self.entries().len());
                    assert(keys_unique(self.entries()));
                    if c != i {
                        assert(self.entries()[c].0 != self.entries()[i as int].0);
                    }
                }
                return Some(i);
            }
            i = i + 1;
        }
        None
    }

    /// The record stored under `key`, if any.
    pub fn get(&self, key: &Key) -> (r: Option<Record>)
        requires
            self.wf(),
        ensures
            match r {
                Some(rec) => self.view().contains_key(*key) && rec@ == self.view()[*key],
                None => !self.view().contains_key(*key),
            },
    {
        match self.find(key) {
            Some(i) => {
                assert(self.entries()[i as int].1 == self.records@[i as int].1@);
                Some(self.records[i].1.clone())
            },
            None => None,
        }
    }

    /// Stores `record` under `key`, replacing what was there.
    pub fn put(&mut self, key: Key, record: Record)
        requires
            old(self).wf(),
        ensures
            final(self).wf(),
            final(self).view() == old(self).view().insert(key, record@),
    {
        let ghost old_e = self.entries();
        let ghost rv = record@;
        match self.find(&key) {
            Some(i) => {
                self.records.set(i, (key, record));
                assert(self.entries() =~= old_e.update(i as int, (key, rv)));
            },
            None => {
                self.records.push((key, record));
                assert(self.entries() =~= old_e.push((key, rv)));
            },
        }
        proof {
            let e = self.entries();
            assert forall|k: Key| #[trigger] has_key(e, k) == (has_key(old_e, k) || k == key) by {
                if has_key(old_e, k) {
                    let j = choose|j: int| 0 <= j < old_e.len() && old_e[j].0 == k;
                    if k != key {
                        assert(e[j].0 == k);
                    }
                }
                if has_key(e, k) && k != key {
                    let j = choose|j: int| 0 <= j < e.len() && e[j].0 == k;
                    assert(old_e[j].0 == k);
                }
                if k == key {
                    assert(e[index_of_key(old_e, key)].0 == key || e[e.len() - 1].0 == key);
                }
            }
            assert(self.wf());
            assert forall|k: Key| has_key(e, k) implies #[trigger] e[index_of_key(e, k)].1 == (
            if k == key {
                rv
            } else {
                old_e[index_of_key(old_e, k)].1
            }) by {
                let j = index_of_key(e, k);
                if k != key {
                    let j0 = index_of_key(old_e, k);
                    assert(e[j0].0 == k);
                }
            }
            assert(self.view() =~= old(self).view().insert(key, rv));
        }
    }

    /// Removes the record stored under `key`; returns whether there was one.
    pub fn remove(&mut self, key: &Key) -> (r: bool)
        requires
            old(self).wf(),
        ensures
            final(self).wf(),
            r == old(self).view().contains_key(*key),
            final(self).view() == old(self).view().remove(*key),
    {
        let ghost old_e = self.entries();
        match self.find(key) {
            Some(i) => {
                self.records.remove(i);
                proof {
                    let e = self.entries();
                    assert(e =~= old_e.remove(i as int));
                    assert forall|k: Key| #[trigger] has_key(e, k) == (has_key(old_e, k) && k != *key) by {
                        if has_key(old_e, k) && k != *key {
                            let j = choose|j: int| 0 <= j < old_e.len() && old_e[j].0 == k;
                            if j < i {
                                assert(e[j].0 == k);
                            } else {
                                assert(e[j - 1].0 == k);
                            }
                        }
                        if has_key(e, k) {
                            let j = choose|j: int| 0 <= j < e.len() && e[j].0 == k;
                            if j < i {
                                assert(old_e[j].0 == k);
                            } else {
                                assert(old_e[j + 1].0 == k);
                            }
                        }
                    }
                    assert forall|k: Key| has_key(e, k) implies #[trigger] e[index_of_key(e, k)].1
                        == old_e[index_of_key(old_e, k)].1 by {
                        let j = index_of_key(e, k);
                        if j < i {
                            assert(old_e[j].0 == k);
                        } else {
                            assert(old_e[j + 1].0 == k);
                        }
                    }
                    assert(self.view() =~= old(self).view().remove(*key));
                }
                true
            },
            None => {
                assert(self.view() =~= old(self).view().remove(*key));
                false
            },
        }
    }

    /// Keeps only the records that expire after `curr_time`.
    pub fn remove_expired(&mut self, curr_time: u64)
        requires
            old(self).wf(),
        ensures
            final(self).wf(),
            final(self).view() == old(self).view().restrict(
                old(self).view().dom().filter(|k: Key| old(self).view()[k].2 > curr_time),
            ),
    {
        let ghost old_e = self.entries();
        let ghost old_v = self.view();
        let mut kept: Vec<(Key, Record)> = Vec::new();
        let mut i: usize = 0;
        while i < self.records.len()
            invariant
                self.entries() == old_e,
                keys_unique(old_e),
                forall|k: Key| #[trigger] old_v.contains_key(k) <==> has_key(old_e, k),
                forall|k: Key| has_key(old_e, k) ==> #[trigger] old_v[k] == old_e[index_of_key(old_e, k)].1,
                i <= old_e.len(),
                keys_unique(record_entries(kept@)),
                forall|k: Key| #[trigger] has_key(record_entries(kept@), k)
                    <==> (exists|j: int| 0 <= j < i && old_e[j].0 == k && old_e[j].1.2 > curr_time),
                forall|a: int| 0 <= a < kept@.len() ==> old_v.contains_key(#[trigger] kept@[a].0)
                    && kept@[a].1@ == old_v[kept@[a].0],
            decreases old_e.len() - i,
        {
            let ghost ke = record_entries(kept@);
            assert(old_e[i as int] == (self.records@[i as int].0, self.records@[i as int].1@));
            if self.records[i].1.expires_at > curr_time {
                let k = self.records[i].0;
                let rec = self.records[i].1.clone();
                let ghost kept_before = kept@;
                kept.push((k, rec));
                proof {
                    let ke2 = record_entries(kept@);
                    assert(ke2 =~= ke.push((k, rec@)));
                    assert(!has_key(ke, k)) by {
                        if has_key(ke, k) {
                            let j = choose|j: int| 0 <= j < i && old_e[j].0 == k && old_e[j].1.2 > curr_time;
                            assert(old_e[j].0 == old_e[i as int].0);
                        }
                    }
                    assert(keys_unique(ke2)) by {
                        assert forall|x: int, y: int| 0 <= x < ke2.len() && 0 <= y < ke2.len() && x != y implies ke2[x].0 != ke2[y].0 by {
                            if x == ke.len() && y < ke.len() {
                                assert(ke[y].0 == ke2[y].0);
                            } else if y == ke.len() && x < ke.len() {
                                assert(ke[x].0 == ke2[x].0);
                            } else {
                                assert(ke[x] == ke2[x] && ke[y] == ke2[y]);
                            }
                        }
                    }
                    assert forall|kk: Key| #[trigger] has_key(ke2, kk) <==> (exists|j: int| 0 <= j < i + 1 && old_e[j].0 == kk && old_e[j].1.2 > curr_time) by {
                        if has_key(ke2, kk) {
                            let x = choose|x: int| 0 <= x < ke2.len() && ke2[x].0 == kk;
                            if x < ke.len() {
                                assert(ke[x].0 == kk);
                                assert(has_key(ke, kk));
                            } else {
                                assert(old_e[i as int].0 == kk);
                            }
                        }
                        if exists|j: int| 0 <= j < i + 1 && old_e[j].0 == kk && old_e[j].1.2 > curr_time {
                            let j = choose|j: int| 0 <= j < i + 1 && old_e[j].0 == kk && old_e[j].1.2 > curr_time;
                            if j < i {
                                assert(has_key(ke, kk));
                                let x = choose|x: int| 0 <= x < ke.len() && ke[x].0 == kk;
                                assert(ke2[x].0 == kk);
                            } else {
                                assert(ke2[ke.len() as int].0 == kk);
                            }
                        }
                    }
                    assert(has_key(old_e, k)) by {
                        assert(old_e[i as int].0 == k);
                    }
                    assert(index_of_key(old_e, k) == i) by {
                        let c = index_of_key(old_e, k);
                        assert(old_e[c].0 == k);
                    }
                    assert(old_v.contains_key(k));
                    assert(old_v[k] == rec@);
                    assert forall|a: int| 0 <= a < kept@.len() implies old_v.contains_key(#[trigger] kept@[a].0)
                        && kept@[a].1@ == old_v[kept@[a].0] by {
                        if a < kept@.len() - 1 {
                            assert(kept@[a] == kept_before[a]);
                        } else {
                            assert(kept@[a] == (k, rec));
                        }
                    }
                }
            } else {
                proof {
                    assert forall|kk: Key| #[trigger] has_key(ke, kk) <==> (exists|j: int| 0 <= j < i + 1 && old_e[j].0 == kk && old_e[j].1.2 > curr_time) by {
                        if exists|j: int| 0 <= j < i + 1 && old_e[j].0 == kk && old_e[j].1.2 > curr_time {
                            let j = choose|j: int| 0 <= j < i + 1 && old_e[j].0 == kk && old_e[j].1.2 > curr_time;
                            assert(j != i);
                        }
                    }
                }
            }
            i = i + 1;
        }
        self.records = kept;
        proof {
            let e = self.entries();
            let flt = old_v.dom().filter(|k: Key| old_v[k].2 > curr_time);
            assert forall|k: Key| #[trigger] has_key(e, k) <==> flt.contains(k) by {
                if has_key(e, k) {
                    let j = choose|j: int| 0 <= j < old_e.len() && old_e[j].0 == k && old_e[j].1.2 > curr_time;
                    assert(has_key(old_e, k));
                    let c = index_of_key(old_e, k);
                    assert(old_e[c].0 == k);
                    assert(c == j);
                }
                if flt.contains(k) {
                    let c = index_of_key(old_e, k);
                    assert(old_e[c].0 == k);
                }
            }
            assert forall|k: Key| has_key(e, k) implies #[trigger] e[index_of_key(e, k)].1 == old_v[k] by {
                let x = index_of_key(e, k);
                assert(e[x] == (kept@[x].0, kept@[x].1@));
            }
            assert(self.view() =~= old_v.restrict(flt));
        }
    }

    /// Clears the storage, removing all records.
    pub fn clear(&mut self)
        ensures
            final(self).wf(),
            final(self).view() == Map::<Key, RecordView>::empty(),
    {
        self.records.clear();
        assert(self.view() =~= Map::<Key, RecordView>::empty());
    }
}

pub open spec fn string_entries(s: Seq<(Key, String)>) -> Seq<(Key, Seq<char>)> {
    s.map_values(|e: (Key, String)| (e.0, e.1@))
}

/// Represents the local file storage: content by key.
#[derive(Debug)]
pub struct LocalFileStorage {
    data: Vec<(Key, String)>,
}

impl LocalFileStorage {
    pub closed spec fn entries(&self) -> Seq<(Key, Seq<char>)> {
        string_entries(self.data@)
    }

    pub open spec fn wf(&self) -> bool {
        keys_unique(self.entries())
    }

    /// The stored content, by key.
    pub open spec fn view(&self) -> Map<Key, Seq<char>> {
        Map::new(
            |k: Key| has_key(self.entries(), k),
            |k: Key| self.entries()[index_of_key(self.entries(), k)].1,
        )
    }

    /// Creates an empty store.
    pub fn new() -> (r: LocalFileStorage)
        ensures
            r.wf(),
            r.view() == Map::<Key, Seq<char>>::empty(),
    {
        let r = LocalFileStorage { data: Vec::new() };
        assert(r.view() =~= Map::<Key, Seq<char>>::empty());
        r
    }

    fn find(&self, key: &Key) -> (r: Option<usize>)
        requires
            self.wf(),
        ensures
            match r {
                Some(i) => i < self.entries().len() && self.entries()[i as int].0 == *key
                    && index_of_key(self.entries(), *key) == i,
                None => !has_key(self.entries(), *key),
            },
    {
        let mut i: usize = 0;
        while i < self.data.len()
            invariant
                i <= self.data@.len(),
                self.wf(),
                self.entries().len() == self.data@.len(),
                forall|j: int| 0 <= j < i ==> (#[trigger] self.entries()[j]).0 != *key,
            decreases self.data@.len() - i,
        {
            assert(self.entries()[i as int].0 == self.data@[i as int].0);
            if self.data[i].0 == *key {
                proof {
                    assert(has_key(self.entries(), *key)) by {
                        assert(self.entries()[i as int].0 == *key);
                    }
                    let c = index_of_key(self.entries(), *key);
                    assert(self.entries()[c].0 == *key);
                    assert(0 <= c < self.entries().len());
                    assert(keys_unique(self.entries()));
                    if c != i {
                        assert(self.entries()[c].0 != self.entries()[i as int].0);
                    }
                }
                return Some(i);
            }
            i = i + 1;
        }
        None
    }

    /// The content stored under `key`, if any.
    pub fn get(&self, key: &Key) -> (r: Option<String>)
        requires
            self.wf(),
        ensures
            match r {
                Some(rec) => self.view().contains_key(*key) && rec@ == self.view()[*key],
                None => !self.view().contains_key(*key),
            },
    {
        match self.find(key) {
            Some(i) => {
                assert(self.entries()[i as int].1 == self.data@[i as int].1@);
                Some(self.data[i].1.clone())
            },
            None => None,
        }
    }

    /// Stores `data` under `key`, replacing what was there.
    pub fn put(&mut self, key: Key, data: String)
        requires
            old(self).wf(),
        ensures
            final(self).wf(),
            final(self).view() == old(self).view().insert(key, data@),
    {
        let ghost old_e = self.entries();
        let ghost rv = data@;
        match self.find(&key) {
            Some(i) => {
                self.data.set(i, (key, data));
                assert(self.entries() =~= old_e.update(i as int, (key, rv)));
            },
            None => {
                self.data.push((key, data));
                assert(self.entries() =~= old_e.push((key, rv)));
            },
        }
        proof {
            let e = self.entries();
            assert forall|k: Key| #[trigger] has_key(e, k) == (has_key(old_e, k) || k == key) by {
                if has_key(old_e, k) {
                    let j = choose|j: int| 0 <= j < old_e.len() && old_e[j].0 == k;
                    if k != key {
                        assert(e[j].0 == k);
                    }
                }
                if has_key(e, k) && k != key {
                    let j = choose|j: int| 0 <= j < e.len() && e[j].0 == k;
                    assert(old_e[j].0 == k);
                }
                if k == key {
                    assert(e[index_of_key(old_e, key)].0 == key || e[e.len() - 1].0 == key);
                }
            }
            assert(self.wf());
            assert forall|k: Key| has_key(e, k) implies #[trigger] e[index_of_key(e, k)].1 == (
            if k == key {
                rv
            } else {
                old_e[index_of_key(old_e, k)].1
            }) by {
                let j = index_of_key(e, k);
                if k != key {
                    let j0 = index_of_key(old_e, k);
                    assert(e[j0].0 == k);
                }
            }
            assert(self.view() =~= old(self).view().insert(key, rv));
        }
    }

    /// Removes the content stored under `key`; returns whether there was any.
    pub fn remove(&mut self, key: &Key) -> (r: bool)
        requires
            old(self).wf(),
        ensures
            final(self).wf(),
            r == old(self).view().contains_key(*key),
            final(self).view() == old(self).view().remove(*key),
    {
        let ghost old_e = self.entries();
        match self.find(key) {
            Some(i) => {
                self.data.remove(i);
                proof {
                    let e = self.entries();
                    assert(e =~= old_e.remove(i as int));
                    assert forall|k: Key| #[trigger] has_key(e, k) == (has_key(old_e, k) && k != *key) by {
                        if has_key(old_e, k) && k != *key {
                            let j = choose|j: int| 0 <= j < old_e.len() && old_e[j].0 == k;
                            if j < i {
                                assert(e[j].0 == k);
                            } else {
                                assert(e[j - 1].0 == k);
                            }
                        }
                        if has_key(e, k) {
                            let j = choose|j: int| 0 <= j < e.len() && e[j].0 == k;
                            if j < i {
                                assert(old_e[j].0 == k);
                            } else {
                                assert(old_e[j + 1].0 == k);
                            }
                        }
                    }
                    assert forall|k: Key| has_key(e, k) implies #[trigger] e[index_of_key(e, k)].1
                        == old_e[index_of_key(old_e, k)].1 by {
                        let j = index_of_key(e, k);
                        if j < i {
                            assert(old_e[j].0 == k);
                        } else {
                            assert(old_e[j + 1].0 == k);
                        }
                    }
                    assert(self.view() =~= old(self).view().remove(*key));
                }
                true
            },
            None => {
                assert(self.view() =~= old(self).view().remove(*key));
                false
            },
        }
    }

    /// Clears the storage, removing all content.
    pub fn clear(&mut self)
        ensures
            final(self).wf(),
            final(self).view() == Map::<Key, Seq<char>>::empty(),
    {
        self.data.clear();
        assert(self.view() =~= Map::<Key, Seq<char>>::empty());
    }
}

} // verus!
