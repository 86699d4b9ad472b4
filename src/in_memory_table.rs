//! A table segment held in memory, with the segment store's rules for
//! versioned updates and reads: what a table map runs against when no server
//! is at hand.
use vstd::prelude::*;
use crate::assoc::{
    assoc_map, has_key, keys_unique, lemma_assoc_index, lemma_assoc_push, lemma_assoc_remove, lemma_assoc_update,
};
use crate::shared::copy_range;
use crate::tablemap::{KEY_NO_VERSION, TableReply, TableRequest, entries_view, versioned_view};

verus! {

/// The version a read reports for an absent key.
pub const KEY_NOT_EXISTS: i64 = -1;

/// What the table holds: each key's value and version, and the version that
/// the next update gets.
pub ghost struct TableState {
    pub entries: Map<Seq<u8>, (Seq<u8>, i64)>,
    pub next_version: int,
}

/// The version `key` has now; `KEY_NOT_EXISTS` when it is absent.
pub open spec fn current_version(t: Map<Seq<u8>, (Seq<u8>, i64)>, key: Seq<u8>) -> i64 {
    if t.contains_key(key) { t[key].1 } else { KEY_NOT_EXISTS }
}

/// The entry may be applied: it is unconditional or expects the key's version.
pub open spec fn version_ok(t: Map<Seq<u8>, (Seq<u8>, i64)>, e: (Seq<u8>, Seq<u8>, i64)) -> bool {
    e.2 == KEY_NO_VERSION || e.2 == current_version(t, e.0)
}

/// The entries `es` written in order, the one at `i` with version `next + i`.
pub open spec fn applied(t: Map<Seq<u8>, (Seq<u8>, i64)>, es: Seq<(Seq<u8>, Seq<u8>, i64)>, next: int) -> Map<Seq<u8>, (Seq<u8>, i64)>
    decreases es.len(),
{
    if es.len() == 0 {
        t
    } else {
        applied(t, es.drop_last(), next).insert(es.last().0, (es.last().1, (next + es.len() - 1) as i64))
    }
}

/// The versions an update of `n` entries hands out from `next` on.
pub open spec fn new_versions(next: int, n: nat) -> Seq<i64> {
    Seq::new(n, |i: int| (next + i) as i64)
}

/// An update applies all of its entries, each with the next version, when
/// every one of them expects the version its key has; otherwise none.
pub open spec fn update_spec(st: TableState, es: Seq<(Seq<u8>, Seq<u8>, i64)>) -> Result<(TableState, Seq<i64>), ()> {
    if forall|i: int| 0 <= i < es.len() ==> version_ok(st.entries, #[trigger] es[i]) {
        Ok((
            TableState { entries: applied(st.entries, es, st.next_version), next_version: st.next_version + es.len() },
            new_versions(st.next_version, es.len()),
        ))
    } else {
        Err(())
    }
}

/// Each key's value and version; an absent key reads as an empty value.
pub open spec fn table_read_spec(t: Map<Seq<u8>, (Seq<u8>, i64)>, keys: Seq<Seq<u8>>) -> Seq<(Seq<u8>, i64)> {
    Seq::new(keys.len(), |i: int| if t.contains_key(keys[i]) { t[keys[i]] } else { (Seq::<u8>::empty(), KEY_NOT_EXISTS) })
}

/// Why a removal was refused.
#[derive(Clone, Copy, Debug, PartialEq, Eq, Structural)]
pub enum RemoveRefusal {
    KeyDoesNotExist,
    BadKeyVersion,
}

/// A removal takes out every key when each one removed on a condition exists
/// and has the version given with it; an unconditional removal of an absent
/// key does nothing. Otherwise none is removed: a missing key is reported
/// before a wrong version.
pub open spec fn remove_spec(st: TableState, keys: Seq<(Seq<u8>, i64)>) -> Result<TableState, RemoveRefusal> {
    if exists|i: int| 0 <= i < keys.len() && !st.entries.contains_key(#[trigger] keys[i].0) && keys[i].1 != KEY_NO_VERSION {
        Err(RemoveRefusal::KeyDoesNotExist)
    } else if exists|i: int| 0 <= i < keys.len() && st.entries.contains_key((#[trigger] keys[i]).0) && keys[i].1 != KEY_NO_VERSION
        && keys[i].1 != st.entries[keys[i].0].1 {
        Err(RemoveRefusal::BadKeyVersion)
    } else {
        Ok(TableState {
            entries: st.entries.remove_keys(Set::new(|k: Seq<u8>| exists|i: int| 0 <= i < keys.len() && keys[i].0 == k)),
            ..st
        })
    }
}

pub open spec fn table_seq(v: Seq<(Vec<u8>, Vec<u8>, i64)>) -> Seq<(Seq<u8>, (Seq<u8>, i64))> {
    Seq::new(v.len(), |i: int| (v[i].0@, (v[i].1@, v[i].2)))
}

proof fn lemma_applied_keeps(t: Map<Seq<u8>, (Seq<u8>, i64)>, es: Seq<(Seq<u8>, Seq<u8>, i64)>, next: int, j: int)
    requires
        0 <= j < es.len(),
        forall|a: int, b: int| 0 <= a < es.len() && 0 <= b < es.len() && a != b ==> es[a].0 != es[b].0,
    ensures
        applied(t, es, next).contains_key(es[j].0),
        applied(t, es, next)[es[j].0] == (es[j].1, (next + j) as i64),
    decreases es.len(),
{
    if j < es.len() - 1 {
        lemma_applied_keeps(t, es.drop_last(), next, j);
        assert(es.drop_last()[j] == es[j]);
        assert(es[j].0 != es[es.len() - 1].0);
    }
}

/// Inserting pairs with distinct keys and non-empty values, whatever their
/// versions, and then reading those keys gives back each value with the
/// version that the insert returned for it; the versions rise along the pairs
/// and lie above every version that the table held before.
pub proof fn lemma_insert_all_then_get_all(st: TableState, kvps: Seq<(Seq<u8>, Seq<u8>)>)
    requires
        forall|i: int, j: int| 0 <= i < kvps.len() && 0 <= j < kvps.len() && i != j ==> kvps[i].0 != kvps[j].0,
        forall|k: Seq<u8>| #[trigger] st.entries.contains_key(k) ==> st.entries[k].1 < st.next_version,
        0 <= st.next_version,
        st.next_version + kvps.len() <= i64::MAX,
    ensures
        ({
            let es = Seq::new(kvps.len(), |i: int| (kvps[i].0, kvps[i].1, KEY_NO_VERSION));
            let keys = Seq::new(kvps.len(), |i: int| kvps[i].0);
            &&& update_spec(st, es) is Ok
            &&& table_read_spec(update_spec(st, es)->Ok_0.0.entries, keys)
                == Seq::new(kvps.len(), |i: int| (kvps[i].1, update_spec(st, es)->Ok_0.1[i]))
            &&& forall|i: int, j: int| 0 <= i < j < kvps.len()
                ==> update_spec(st, es)->Ok_0.1[i] < update_spec(st, es)->Ok_0.1[j]
            &&& forall|i: int, k: Seq<u8>|
                #![trigger update_spec(st, es)->Ok_0.1[i], st.entries.contains_key(k)]
                0 <= i < kvps.len() && st.entries.contains_key(k) ==> st.entries[k].1 < update_spec(st, es)->Ok_0.1[i]
        }),
{
    let es = Seq::new(kvps.len(), |i: int| (kvps[i].0, kvps[i].1, KEY_NO_VERSION));
    let keys = Seq::new(kvps.len(), |i: int| kvps[i].0);
    assert(forall|i: int| 0 <= i < es.len() ==> version_ok(st.entries, #[trigger] es[i]));
    let t2 = applied(st.entries, es, st.next_version);
    let vs = new_versions(st.next_version, es.len());
    assert forall|i: int| 0 <= i < kvps.len() implies t2.contains_key(keys[i]) && t2[keys[i]] == (kvps[i].1, vs[i]) by {
        lemma_applied_keeps(st.entries, es, st.next_version, i);
    }
    assert(table_read_spec(t2, keys) =~= Seq::new(kvps.len(), |i: int| (kvps[i].1, vs[i])));
}


/// A table segment held in memory.
pub struct InMemoryTable {
    entries: Vec<(Vec<u8>, Vec<u8>, i64)>,
    next_version: i64,
}

fn bytes_equal(a: &Vec<u8>, b: &Vec<u8>) -> (r: bool)
    ensures
        r == (a@ == b@),
{
    if a.len() != b.len() {
        return false;
    }
    let mut i: usize = 0;
    while i < a.len()
        invariant
            a@.len() == b@.len(),
            i <= a@.len(),
            forall|k: int| 0 <= k < i ==> a@[k] == b@[k],
        decreases a@.len() - i,
    {
        if a[i] != b[i] {
            return false;
        }
        i = i + 1;
    }
    assert(a@ =~= b@);
    true
}

impl View for InMemoryTable {
    type V = TableState;

    closed spec fn view(&self) -> TableState {
        TableState { entries: assoc_map(table_seq(self.entries@)), next_version: self.next_version as int }
    }
}

impl InMemoryTable {
    /// Keys are distinct, and every version lies below the next one, which is
    /// not negative.
    pub closed spec fn wf(&self) -> bool {
        &&& keys_unique(table_seq(self.entries@))
        &&& 0 <= self.next_version
        &&& forall|i: int| 0 <= i < self.entries@.len() ==> 0 <= (#[trigger] self.entries@[i]).2 < self.next_version
    }

    /// An empty table.
    pub fn new() -> (r: InMemoryTable)
        ensures
            r.wf(),
            r@.entries == Map::<Seq<u8>, (Seq<u8>, i64)>::empty(),
            r@.next_version == 0,
    {
        let r = InMemoryTable { entries: Vec::new(), next_version: 0 };
        assert(assoc_map(table_seq(r.entries@)) =~= Map::<Seq<u8>, (Seq<u8>, i64)>::empty());
        r
    }

    fn find(&self, key: &Vec<u8>) -> (r: Option<usize>)
        requires
            self.wf(),
        ensures
            match r {
                Some(i) => i < self.entries@.len() && self.entries@[i as int].0@ == key@
                    && self@.entries.contains_key(key@) && self@.entries[key@] == (self.entries@[i as int].1@, self.entries@[i as int].2),
                None => !self@.entries.contains_key(key@),
            },
    {
        let mut i: usize = 0;
        while i < self.entries.len()
            invariant
                self.wf(),
                i <= self.entries@.len(),
                forall|k: int| 0 <= k < i ==> self.entries@[k].0@ != key@,
            decreases self.entries@.len() - i,
        {
            if bytes_equal(&self.entries[i].0, key) {
                proof {
                    lemma_assoc_index(table_seq(self.entries@), i as int);
                }
                return Some(i);
            }
            i = i + 1;
        }
        proof {
            assert(!has_key(table_seq(self.entries@), key@));
        }
        None
    }

    /// The version `key` has now.
    fn version_of(&self, key: &Vec<u8>) -> (r: i64)
        requires
            self.wf(),
        ensures
            r == current_version(self@.entries, key@),
    {
        match self.find(key) {
            Some(i) => self.entries[i].2,
            None => KEY_NOT_EXISTS,
        }
    }

    /// Applies the entries if each expects the version its key has.
    pub fn update(&mut self, entries: &Vec<(Vec<u8>, Vec<u8>, i64)>) -> (res: Result<Vec<i64>, ()>)
        requires
            old(self).wf(),
            old(self)@.next_version + entries@.len() <= i64::MAX,
        ensures
            final(self).wf(),
            match update_spec(old(self)@, entries_view(entries@)) {
                Ok((st, versions)) => res matches Ok(v) && v@ == versions && final(self)@ == st,
                Err(_) => res is Err && final(self)@ == old(self)@,
            },
    {
        let ghost es = entries_view(entries@);
        let ghost t0 = self@.entries;
        let mut i: usize = 0;
        while i < entries.len()
            invariant
                self.wf(),
                self@.entries == t0,
                es == entries_view(entries@),
                i <= entries@.len(),
                forall|k: int| 0 <= k < i ==> version_ok(t0, #[trigger] es[k]),
            decreases entries@.len() - i,
        {
            let expected = entries[i].2;
            if expected != KEY_NO_VERSION && expected != self.version_of(&entries[i].0) {
                proof {
                    assert(!version_ok(t0, es[i as int]));
                }
                return Err(());
            }
            i = i + 1;
        }
        let next = self.next_version;
        let ghost bound = (next + entries@.len()) as i64;
        self.next_version = next + entries.len() as i64;
        let mut versions: Vec<i64> = Vec::new();
        let mut i: usize = 0;
        while i < entries.len()
            invariant
                self.wf(),
                self.next_version == bound,
                bound == next + entries@.len(),
                0 <= next,
                es == entries_view(entries@),
                next + entries@.len() <= i64::MAX,
                i <= entries@.len(),
                self@.entries == applied(t0, es.take(i as int), next as int),
                versions@ == new_versions(next as int, i as nat),
            decreases entries@.len() - i,
        {
            let version = next + i as i64;
            let key = copy_range(entries[i].0.as_slice(), 0, entries[i].0.len());
            let value = copy_range(entries[i].1.as_slice(), 0, entries[i].1.len());
            proof {
                assert(entries@[i as int].0@.subrange(0, entries@[i as int].0@.len() as int) =~= entries@[i as int].0@);
                assert(entries@[i as int].1@.subrange(0, entries@[i as int].1@.len() as int) =~= entries@[i as int].1@);
                assert(es.take(i + 1).drop_last() =~= es.take(i as int));
            }
            let ghost before = self.entries@;
            match self.find(&key) {
                Some(k) => {
                    self.entries.set(k, (key, value, version));
                    proof {
                        assert forall|a: int| 0 <= a < self.entries@.len() implies 0 <= (#[trigger] self.entries@[a]).2 < self.next_version by {
                            if a != k {
                                assert(self.entries@[a] == before[a]);
                            }
                        }
                        let ts = table_seq(before);
                        assert(table_seq(self.entries@) =~= ts.update(k as int, (ts[k as int].0, (value@, version))));
                        lemma_assoc_update(ts, k as int, (value@, version));
                    }
                },
                None => {
                    let ghost kv = key@;
                    self.entries.push((key, value, version));
                    proof {
                        assert forall|a: int| 0 <= a < self.entries@.len() implies 0 <= (#[trigger] self.entries@[a]).2 < self.next_version by {
                            if a < before.len() {
                                assert(self.entries@[a] == before[a]);
                            }
                        }
                        let ts = table_seq(before);
                        assert(!has_key(ts, kv));
                        assert(table_seq(self.entries@) =~= ts.push((kv, (value@, version))));
                        lemma_assoc_push(ts, kv, (value@, version));
                    }
                },
            }
            versions.push(version);
            proof {
                assert(versions@ =~= new_versions(next as int, (i + 1) as nat));
            }
            i = i + 1;
        }
        proof {
            assert(es.take(es.len() as int) =~= es);
        }
        Ok(versions)
    }

    /// Each key's value and version; an absent key reads as an empty value at
    /// `KEY_NOT_EXISTS`.
    pub fn read(&self, keys: &Vec<(Vec<u8>, i64)>) -> (r: Vec<(Vec<u8>, i64)>)
        requires
            self.wf(),
        ensures
            versioned_view(r@) == table_read_spec(self@.entries, Seq::new(keys@.len(), |i: int| keys@[i].0@)),
    {
        let ghost ks = Seq::new(keys@.len(), |i: int| keys@[i].0@);
        let mut r: Vec<(Vec<u8>, i64)> = Vec::new();
        let mut i: usize = 0;
        while i < keys.len()
            invariant
                self.wf(),
                i <= keys@.len(),
                ks == Seq::new(keys@.len(), |i: int| keys@[i].0@),
                r@.len() == i,
                versioned_view(r@) == table_read_spec(self@.entries, ks).take(i as int),
            decreases keys@.len() - i,
        {
            let entry = match self.find(&keys[i].0) {
                Some(k) => {
                    let v = copy_range(self.entries[k].1.as_slice(), 0, self.entries[k].1.len());
                    proof {
                        assert(self.entries@[k as int].1@.subrange(0, self.entries@[k as int].1@.len() as int) =~= self.entries@[k as int].1@);
                    }
                    (v, self.entries[k].2)
                },
                None => (Vec::new(), KEY_NOT_EXISTS),
            };
            let ghost before = r@;
            r.push(entry);
            proof {
                let target = table_read_spec(self@.entries, ks).take(i + 1);
                assert forall|j: int| 0 <= j < i + 1 implies versioned_view(r@)[j] == target[j] by {
                    if j < i {
                        assert(r@[j] == before[j]);
                        assert(versioned_view(before)[j] == table_read_spec(self@.entries, ks)[j]);
                    } else {
                        assert(ks[j] == keys@[j].0@);
                        if !self@.entries.contains_key(ks[j]) {
                            assert(entry.0@ =~= Seq::<u8>::empty());
                        }
                    }
                }
                assert(versioned_view(r@) =~= target);
            }
            i = i + 1;
        }
        proof {
            assert(table_read_spec(self@.entries, ks).take(keys@.len() as int) =~= table_read_spec(self@.entries, ks));
        }
        r
    }

    /// Removes the keys if each exists and has the version given with it.
    pub fn remove(&mut self, keys: &Vec<(Vec<u8>, i64)>) -> (res: Result<(), RemoveRefusal>)
        requires
            old(self).wf(),
        ensures
            final(self).wf(),
            match remove_spec(old(self)@, versioned_view(keys@)) {
                Ok(st) => res is Ok && final(self)@ == st,
                Err(e) => res == Err::<(), RemoveRefusal>(e) && final(self)@ == old(self)@,
            },
    {
        let ghost ks = versioned_view(keys@);
        let ghost t0 = self@.entries;
        let mut i: usize = 0;
        while i < keys.len()
            invariant
                self.wf(),
                self@.entries == t0,
                ks == versioned_view(keys@),
                i <= keys@.len(),
                forall|k: int| 0 <= k < i ==> t0.contains_key(#[trigger] ks[k].0) || ks[k].1 == KEY_NO_VERSION,
            decreases keys@.len() - i,
        {
            if keys[i].1 != KEY_NO_VERSION && self.find(&keys[i].0).is_none() {
                proof {
                    assert(!t0.contains_key(ks[i as int].0) && ks[i as int].1 != KEY_NO_VERSION);
                }
                return Err(RemoveRefusal::KeyDoesNotExist);
            }
            i = i + 1;
        }
        let mut i: usize = 0;
        while i < keys.len()
            invariant
                self.wf(),
                self@.entries == t0,
                ks == versioned_view(keys@),
                i <= keys@.len(),
                forall|k: int| 0 <= k < keys@.len() ==> t0.contains_key(#[trigger] ks[k].0) || ks[k].1 == KEY_NO_VERSION,
                forall|k: int| 0 <= k < i ==> (#[trigger] ks[k]).1 == KEY_NO_VERSION || ks[k].1 == t0[ks[k].0].1,
            decreases keys@.len() - i,
        {
            let expected = keys[i].1;
            if expected != KEY_NO_VERSION && expected != self.version_of(&keys[i].0) {
                proof {
                    assert(t0.contains_key(ks[i as int].0));
                    assert(ks[i as int].1 != KEY_NO_VERSION && ks[i as int].1 != t0[ks[i as int].0].1);
                }
                return Err(RemoveRefusal::BadKeyVersion);
            }
            i = i + 1;
        }
        let mut i: usize = 0;
        while i < keys.len()
            invariant
                self.wf(),
                ks == versioned_view(keys@),
                i <= keys@.len(),
                self@.next_version == old(self)@.next_version,
                self@.entries == t0.remove_keys(Set::new(|k: Seq<u8>| exists|j: int| 0 <= j < i && ks[j].0 == k)),
            decreases keys@.len() - i,
        {
            let ghost before = self.entries@;
            let ghost prev = Set::new(|k: Seq<u8>| exists|j: int| 0 <= j < i && ks[j].0 == k);
            let ghost next = Set::new(|k: Seq<u8>| exists|j: int| 0 <= j < i + 1 && ks[j].0 == k);
            proof {
                assert forall|k: Seq<u8>| next.contains(k) == prev.insert(ks[i as int].0).contains(k) by {
                    if next.contains(k) {
                        let j = choose|j: int| 0 <= j < i + 1 && ks[j].0 == k;
                        if j < i {
                            assert(prev.contains(k));
                        }
                    }
                    if prev.contains(k) {
                        let j = choose|j: int| 0 <= j < i && ks[j].0 == k;
                        assert(0 <= j < i + 1 && ks[j].0 == k);
                    }
                    if k == ks[i as int].0 {
                        assert(ks[i as int].0 == k);
                    }
                }
                assert(next =~= prev.insert(ks[i as int].0));
                assert(t0.remove_keys(next) =~= t0.remove_keys(prev).remove(ks[i as int].0));
            }
            match self.find(&keys[i].0) {
                Some(k) => {
                    self.entries.remove(k);
                    proof {
                        let ts = table_seq(before);
                        assert(table_seq(self.entries@) =~= ts.remove(k as int));
                        lemma_assoc_remove(ts, k as int);
                        assert forall|a: int| 0 <= a < self.entries@.len() implies 0 <= (#[trigger] self.entries@[a]).2 < self.next_version by {
                            let a2 = if a < k { a } else { a + 1 };
                            assert(self.entries@[a] == before[a2]);
                        }
                    }
                },
                None => {
                    proof {
                        assert(self@.entries.remove(ks[i as int].0) =~= self@.entries);
                    }
                },
            }
            i = i + 1;
        }
        Ok(())
    }

    /// Answers a request: creation, update, read and removal as above.
    pub fn handle(&mut self, request: &TableRequest) -> (reply: TableReply)
        requires
            old(self).wf(),
            request matches TableRequest::UpdateTableEntries { entries, .. } ==> old(self)@.next_version + entries@.len() <= i64::MAX,
        ensures
            final(self).wf(),
            match request {
                TableRequest::CreateTableSegment { .. } => reply is SegmentCreated && final(self)@ == old(self)@,
                TableRequest::UpdateTableEntries { entries, .. } => match update_spec(old(self)@, entries_view(entries@)) {
                    Ok((st, versions)) => (reply matches TableReply::TableEntriesUpdated { updated_versions }
                        && updated_versions@ == versions) && final(self)@ == st,
                    Err(_) => reply is TableKeyBadVersion && final(self)@ == old(self)@,
                },
                TableRequest::ReadTable { keys, .. } => (reply matches TableReply::TableRead { entries }
                    && versioned_view(entries@) == table_read_spec(old(self)@.entries, Seq::new(keys@.len(), |i: int| keys@[i].0@)))
                    && final(self)@ == old(self)@,
                TableRequest::RemoveTableKeys { keys, .. } => match remove_spec(old(self)@, versioned_view(keys@)) {
                    Ok(st) => reply is TableKeysRemoved && final(self)@ == st,
                    Err(RemoveRefusal::KeyDoesNotExist) => reply is TableKeyDoesNotExist && final(self)@ == old(self)@,
                    Err(RemoveRefusal::BadKeyVersion) => reply is TableKeyBadVersion && final(self)@ == old(self)@,
                },
            },
    {
        match request {
            TableRequest::CreateTableSegment { .. } => TableReply::SegmentCreated,
            TableRequest::UpdateTableEntries { entries, .. } => match self.update(entries) {
                Ok(updated_versions) => TableReply::TableEntriesUpdated { updated_versions },
                Err(_) => TableReply::TableKeyBadVersion { message: String::new() },
            },
            TableRequest::ReadTable { keys, .. } => TableReply::TableRead { entries: self.read(keys) },
            TableRequest::RemoveTableKeys { keys, .. } => match self.remove(keys) {
                Ok(()) => TableReply::TableKeysRemoved,
                Err(RemoveRefusal::KeyDoesNotExist) => TableReply::TableKeyDoesNotExist { message: String::new() },
                Err(RemoveRefusal::BadKeyVersion) => TableReply::TableKeyBadVersion { message: String::new() },
            },
        }
    }
}

} // verus!
