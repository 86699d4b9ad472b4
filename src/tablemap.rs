//! A map of byte keys to byte values with versions, kept in a table segment.
//! The map builds the requests for the table segment and reads its replies;
//! sending them is left to the caller.
use vstd::prelude::*;
use crate::shared::copy_range;

verus! {

/// The version that makes an update or removal unconditional.
pub const KEY_NO_VERSION: i64 = -9223372036854775808;

/// A request to the table segment.
#[derive(Debug)]
pub enum TableRequest {
    CreateTableSegment { segment: String },
    /// Each entry is (key, value, expected key version).
    UpdateTableEntries { segment: String, entries: Vec<(Vec<u8>, Vec<u8>, i64)> },
    /// Each key with the version it is read at.
    ReadTable { segment: String, keys: Vec<(Vec<u8>, i64)> },
    /// Each key with the version it is expected to have.
    RemoveTableKeys { segment: String, keys: Vec<(Vec<u8>, i64)> },
}

/// A reply of the table segment.
#[derive(Debug)]
pub enum TableReply {
    SegmentCreated,
    SegmentAlreadyExists,
    /// The new version of each updated key, in the order of the request.
    TableEntriesUpdated { updated_versions: Vec<i64> },
    /// For each key asked, its value (empty when the key is absent) and version.
    TableRead { entries: Vec<(Vec<u8>, i64)> },
    TableKeysRemoved,
    TableKeyBadVersion { message: String },
    TableKeyDoesNotExist { message: String },
    /// Any other reply.
    Other,
}

/// Why a table-map operation failed.
#[derive(Debug)]
pub enum TableError {
    /// The request could not be sent or its reply not read.
    ConnectionError { can_retry: bool, operation: String },
    /// The key to remove does not exist.
    KeyDoesNotExist { operation: String, error_msg: String },
    /// A key's version is not the one the request expected.
    IncorrectKeyVersion { operation: String, error_msg: String },
}

pub open spec fn bytes_view(v: Seq<Vec<u8>>) -> Seq<Seq<u8>> {
    Seq::new(v.len(), |i: int| v[i]@)
}

pub open spec fn entries_view(v: Seq<(Vec<u8>, Vec<u8>, i64)>) -> Seq<(Seq<u8>, Seq<u8>, i64)> {
    Seq::new(v.len(), |i: int| (v[i].0@, v[i].1@, v[i].2))
}

pub open spec fn versioned_view(v: Seq<(Vec<u8>, i64)>) -> Seq<(Seq<u8>, i64)> {
    Seq::new(v.len(), |i: int| (v[i].0@, v[i].1))
}

pub open spec fn pairs_view(v: Seq<(Vec<u8>, Vec<u8>)>) -> Seq<(Seq<u8>, Seq<u8>)> {
    Seq::new(v.len(), |i: int| (v[i].0@, v[i].1@))
}

/// Each key at version `KEY_NO_VERSION`.
pub open spec fn unversioned(keys: Seq<Seq<u8>>) -> Seq<(Seq<u8>, i64)> {
    Seq::new(keys.len(), |i: int| (keys[i], KEY_NO_VERSION))
}

/// A value as read: `None` for an absent key (an empty value).
pub open spec fn read_entry(e: (Seq<u8>, i64)) -> Option<(Seq<u8>, i64)> {
    if e.0.len() == 0 { None } else { Some(e) }
}

pub open spec fn read_entries_view(v: Seq<Option<(Vec<u8>, i64)>>) -> Seq<Option<(Seq<u8>, i64)>> {
    Seq::new(v.len(), |i: int| match v[i] { Some(e) => Some((e.0@, e.1)), None => None })
}

/// The replies that an update may get.
pub open spec fn update_reply_expected(reply: Option<TableReply>) -> bool {
    match reply {
        None => true,
        Some(TableReply::TableEntriesUpdated { .. }) => true,
        Some(TableReply::TableKeyBadVersion { .. }) => true,
        _ => false,
    }
}

/// The replies that a read may get: one entry or more.
pub open spec fn read_reply_expected(reply: Option<TableReply>) -> bool {
    match reply {
        None => true,
        Some(TableReply::TableRead { entries }) => entries@.len() > 0,
        _ => false,
    }
}

/// The replies that a removal may get.
pub open spec fn remove_reply_expected(reply: Option<TableReply>) -> bool {
    match reply {
        None => true,
        Some(TableReply::TableKeysRemoved) => true,
        Some(TableReply::TableKeyBadVersion { .. }) => true,
        Some(TableReply::TableKeyDoesNotExist { .. }) => true,
        _ => false,
    }
}

fn copy_bytes(v: &Vec<u8>) -> (r: Vec<u8>)
    ensures
        r@ == v@,
{
    let r = copy_range(v.as_slice(), 0, v.len());
    proof {
        assert(v@.subrange(0, v@.len() as int) =~= v@);
    }
    r
}

/// A map kept in the table segment of a given name.
pub struct TableMap {
    name: String,
}

impl TableMap {
    pub closed spec fn segment_name(&self) -> Seq<char> {
        self.name@
    }

    /// The map kept in the table segment `_tables/<name>/0.#epoch.0`.
    pub fn new(name: &str) -> (r: TableMap)
        ensures
            r.segment_name() == "_tables/"@ + name@ + "/0.#epoch.0"@,
    {
        let mut full = "_tables/".to_owned();
        full.append(name);
        full.append("/0.#epoch.0");
        TableMap { name: full }
    }

    /// The request that creates the table segment.
    pub fn create_request(&self) -> (r: TableRequest)
        ensures
            r matches TableRequest::CreateTableSegment { segment } && segment@ == self.segment_name(),
    {
        TableRequest::CreateTableSegment { segment: self.name.clone() }
    }

    /// Reads the reply to the creation: a created segment, or one that
    /// already existed, is a success.
    pub fn create_reply(&self, reply: Option<TableReply>) -> (res: Result<(), TableError>)
        requires
            reply is None || reply matches Some(TableReply::SegmentCreated) || reply matches Some(TableReply::SegmentAlreadyExists),
        ensures
            res is Ok <==> reply is Some,
            reply is None ==> res matches Err(TableError::ConnectionError { can_retry: true, .. }),
    {
        match reply {
            None => Err(TableError::ConnectionError { can_retry: true, operation: "Create table segment".to_owned() }),
            Some(_) => Ok(()),
        }
    }

    /// The request that updates the given entries, each at its expected version.
    pub fn insert_raw_values(&self, kvps: Vec<(Vec<u8>, Vec<u8>, i64)>) -> (r: TableRequest)
        ensures
            r matches TableRequest::UpdateTableEntries { segment, entries }
                && segment@ == self.segment_name() && entries_view(entries@) == entries_view(kvps@),
    {
        TableRequest::UpdateTableEntries { segment: self.name.clone(), entries: kvps }
    }

    /// The request that reads the given keys at their latest versions.
    pub fn get_raw_values(&self, keys: Vec<Vec<u8>>) -> (r: TableRequest)
        ensures
            r matches TableRequest::ReadTable { segment, keys: ks }
                && segment@ == self.segment_name() && versioned_view(ks@) == unversioned(bytes_view(keys@)),
    {
        let mut ks: Vec<(Vec<u8>, i64)> = Vec::new();
        let mut i: usize = 0;
        while i < keys.len()
            invariant
                i <= keys@.len(),
                ks@.len() == i,
                versioned_view(ks@) == unversioned(bytes_view(keys@)).take(i as int),
            decreases keys@.len() - i,
        {
            let k = copy_bytes(&keys[i]);
            let ghost before = ks@;
            ks.push((k, KEY_NO_VERSION));
            proof {
                assert forall|j: int| 0 <= j < i implies versioned_view(ks@)[j] == versioned_view(before)[j] by {
                    assert(ks@[j] == before[j]);
                }
                assert(bytes_view(keys@)[i as int] == keys@[i as int]@);
                assert(versioned_view(ks@) =~= unversioned(bytes_view(keys@)).take(i + 1));
            }
            i = i + 1;
        }
        proof {
            assert(unversioned(bytes_view(keys@)).take(keys@.len() as int) =~= unversioned(bytes_view(keys@)));
        }
        TableRequest::ReadTable { segment: self.name.clone(), keys: ks }
    }

    /// The request that removes `key` if it has `key_version`.
    pub fn remove_raw_value(&self, key: Vec<u8>, key_version: i64) -> (r: TableRequest)
        ensures
            r matches TableRequest::RemoveTableKeys { segment, keys }
                && segment@ == self.segment_name() && versioned_view(keys@) == seq![(key@, key_version)],
    {
        let keys = vec![(key, key_version)];
        proof {
            assert(versioned_view(keys@) =~= seq![(key@, key_version)]);
        }
        TableRequest::RemoveTableKeys { segment: self.name.clone(), keys }
    }

    /// Reads the reply to an update: the new versions, or the error.
    pub fn insert_raw_values_reply(reply: Option<TableReply>) -> (res: Result<Vec<i64>, TableError>)
        requires
            update_reply_expected(reply),
        ensures
            match reply {
                Some(TableReply::TableEntriesUpdated { updated_versions }) => res matches Ok(v) && v@ == updated_versions@,
                Some(TableReply::TableKeyBadVersion { message }) => res matches Err(TableError::IncorrectKeyVersion { error_msg, .. })
                    && error_msg@ == message@,
                _ => res matches Err(TableError::ConnectionError { can_retry: true, .. }),
            },
    {
        match reply {
            Some(TableReply::TableEntriesUpdated { updated_versions }) => Ok(updated_versions),
            Some(TableReply::TableKeyBadVersion { message }) => Err(TableError::IncorrectKeyVersion {
                operation: "Insert into tablemap".to_owned(),
                error_msg: message,
            }),
            _ => Err(TableError::ConnectionError { can_retry: true, operation: "Insert into tablemap".to_owned() }),
        }
    }

    /// Reads the reply to a read: the value and version of each key asked.
    pub fn get_raw_values_reply(reply: Option<TableReply>) -> (res: Result<Vec<(Vec<u8>, i64)>, TableError>)
        requires
            read_reply_expected(reply),
        ensures
            match reply {
                Some(TableReply::TableRead { entries }) => res matches Ok(v) && versioned_view(v@) == versioned_view(entries@),
                _ => res matches Err(TableError::ConnectionError { can_retry: true, .. }),
            },
    {
        match reply {
            Some(TableReply::TableRead { entries }) => Ok(entries),
            _ => Err(TableError::ConnectionError { can_retry: true, operation: "Read from tablemap".to_owned() }),
        }
    }

    /// Reads the reply to a removal.
    pub fn remove_raw_value_reply(reply: Option<TableReply>) -> (res: Result<(), TableError>)
        requires
            remove_reply_expected(reply),
        ensures
            match reply {
                Some(TableReply::TableKeysRemoved) => res is Ok,
                Some(TableReply::TableKeyBadVersion { message }) => res matches Err(TableError::IncorrectKeyVersion { error_msg, .. })
                    && error_msg@ == message@,
                Some(TableReply::TableKeyDoesNotExist { message }) => res matches Err(TableError::KeyDoesNotExist { error_msg, .. })
                    && error_msg@ == message@,
                _ => res matches Err(TableError::ConnectionError { can_retry: true, .. }),
            },
    {
        let op = "Remove keys from tablemap";
        match reply {
            Some(TableReply::TableKeysRemoved) => Ok(()),
            Some(TableReply::TableKeyBadVersion { message }) => Err(TableError::IncorrectKeyVersion {
                operation: op.to_owned(),
                error_msg: message,
            }),
            Some(TableReply::TableKeyDoesNotExist { message }) => Err(TableError::KeyDoesNotExist {
                operation: op.to_owned(),
                error_msg: message,
            }),
            _ => Err(TableError::ConnectionError { can_retry: true, operation: op.to_owned() }),
        }
    }

    /// The request that reads `key`.
    pub fn get(&self, key: Vec<u8>) -> (r: TableRequest)
        ensures
            r matches TableRequest::ReadTable { segment, keys }
                && segment@ == self.segment_name() && versioned_view(keys@) == seq![(key@, KEY_NO_VERSION)],
    {
        let keys = vec![key];
        let r = self.get_raw_values(keys);
        proof {
            assert(unversioned(bytes_view(keys@)) =~= seq![(key@, KEY_NO_VERSION)]);
        }
        r
    }

    /// Reads the reply to `get`: the value and its version, `None` for an
    /// absent key.
    pub fn get_reply(reply: Option<TableReply>) -> (res: Result<Option<(Vec<u8>, i64)>, TableError>)
        requires
            read_reply_expected(reply),
        ensures
            match reply {
                Some(TableReply::TableRead { entries }) => res matches Ok(v)
                    && read_entries_view(seq![v]) == seq![read_entry(versioned_view(entries@)[0])],
                _ => res matches Err(TableError::ConnectionError { can_retry: true, .. }),
            },
    {
        match reply {
            Some(TableReply::TableRead { mut entries }) => {
                let ghost first = versioned_view(entries@)[0];
                let (data, version) = entries.swap_remove(0);
                let v = if data.len() == 0 { None } else { Some((data, version)) };
                proof {
                    assert(read_entries_view(seq![v]) =~= seq![read_entry(first)]);
                }
                Ok(v)
            },
            _ => Err(TableError::ConnectionError { can_retry: true, operation: "Read from tablemap".to_owned() }),
        }
    }

    /// The request that updates `key` to `value` whatever its version.
    pub fn insert(&self, key: Vec<u8>, value: Vec<u8>) -> (r: TableRequest)
        ensures
            r matches TableRequest::UpdateTableEntries { segment, entries }
                && segment@ == self.segment_name() && entries_view(entries@) == seq![(key@, value@, KEY_NO_VERSION)],
    {
        self.insert_conditionally(key, value, KEY_NO_VERSION)
    }

    /// The request that updates `key` to `value` if it has `key_version`.
    pub fn insert_conditionally(&self, key: Vec<u8>, value: Vec<u8>, key_version: i64) -> (r: TableRequest)
        ensures
            r matches TableRequest::UpdateTableEntries { segment, entries }
                && segment@ == self.segment_name() && entries_view(entries@) == seq![(key@, value@, key_version)],
    {
        let kvps = vec![(key, value, key_version)];
        proof {
            assert(entries_view(kvps@) =~= seq![(key@, value@, key_version)]);
        }
        self.insert_raw_values(kvps)
    }

    /// The request that removes `key` whatever its version.
    pub fn remove(&self, key: Vec<u8>) -> (r: TableRequest)
        ensures
            r matches TableRequest::RemoveTableKeys { segment, keys }
                && segment@ == self.segment_name() && versioned_view(keys@) == seq![(key@, KEY_NO_VERSION)],
    {
        self.remove_raw_value(key, KEY_NO_VERSION)
    }

    /// The request that removes `key` if it has `key_version`.
    pub fn remove_conditionally(&self, key: Vec<u8>, key_version: i64) -> (r: TableRequest)
        ensures
            r matches TableRequest::RemoveTableKeys { segment, keys }
                && segment@ == self.segment_name() && versioned_view(keys@) == seq![(key@, key_version)],
    {
        self.remove_raw_value(key, key_version)
    }

    /// The request that reads all of `keys`.
    pub fn get_all(&self, keys: Vec<Vec<u8>>) -> (r: TableRequest)
        ensures
            r matches TableRequest::ReadTable { segment, keys: ks }
                && segment@ == self.segment_name() && versioned_view(ks@) == unversioned(bytes_view(keys@)),
    {
        self.get_raw_values(keys)
    }

    /// Reads the reply to `get_all`: for each key its value and version,
    /// `None` for an absent key.
    pub fn get_all_reply(reply: Option<TableReply>) -> (res: Result<Vec<Option<(Vec<u8>, i64)>>, TableError>)
        requires
            read_reply_expected(reply),
        ensures
            match reply {
                Some(TableReply::TableRead { entries }) => res matches Ok(v)
                    && read_entries_view(v@) == Seq::new(entries@.len(), |i: int| read_entry(versioned_view(entries@)[i])),
                _ => res matches Err(TableError::ConnectionError { can_retry: true, .. }),
            },
    {
        match reply {
            Some(TableReply::TableRead { entries }) => {
                let ghost ev = versioned_view(entries@);
                let mut r: Vec<Option<(Vec<u8>, i64)>> = Vec::new();
                let mut i: usize = 0;
                while i < entries.len()
                    invariant
                        i <= entries@.len(),
                        r@.len() == i,
                        ev == versioned_view(entries@),
                        read_entries_view(r@) == Seq::new(entries@.len(), |k: int| read_entry(ev[k])).take(i as int),
                    decreases entries@.len() - i,
                {
                    let v = if entries[i].0.len() == 0 {
                        None
                    } else {
                        Some((copy_bytes(&entries[i].0), entries[i].1))
                    };
                    let ghost before = r@;
                    r.push(v);
                    proof {
                        assert forall|j: int| 0 <= j < i implies read_entries_view(r@)[j] == read_entries_view(before)[j] by {
                            assert(r@[j] == before[j]);
                        }
                        assert(ev[i as int] == (entries@[i as int].0@, entries@[i as int].1));
                        assert(read_entries_view(r@) =~= Seq::new(entries@.len(), |k: int| read_entry(ev[k])).take(i + 1));
                    }
                    i = i + 1;
                }
                proof {
                    assert(Seq::new(entries@.len(), |k: int| read_entry(ev[k])).take(entries@.len() as int)
                        =~= Seq::new(entries@.len(), |k: int| read_entry(ev[k])));
                }
                Ok(r)
            },
            _ => Err(TableError::ConnectionError { can_retry: true, operation: "Read from tablemap".to_owned() }),
        }
    }

    /// The request that updates every pair whatever the versions.
    pub fn insert_all(&self, kvps: Vec<(Vec<u8>, Vec<u8>)>) -> (r: TableRequest)
        ensures
            r matches TableRequest::UpdateTableEntries { segment, entries }
                && segment@ == self.segment_name()
                && entries_view(entries@) == Seq::new(kvps@.len(), |i: int| (pairs_view(kvps@)[i].0, pairs_view(kvps@)[i].1, KEY_NO_VERSION)),
    {
        let ghost pv = pairs_view(kvps@);
        let mut entries: Vec<(Vec<u8>, Vec<u8>, i64)> = Vec::new();
        let mut i: usize = 0;
        while i < kvps.len()
            invariant
                i <= kvps@.len(),
                entries@.len() == i,
                pv == pairs_view(kvps@),
                entries_view(entries@) == Seq::new(kvps@.len(), |k: int| (pv[k].0, pv[k].1, KEY_NO_VERSION)).take(i as int),
            decreases kvps@.len() - i,
        {
            let k = copy_bytes(&kvps[i].0);
            let v = copy_bytes(&kvps[i].1);
            let ghost before = entries@;
            entries.push((k, v, KEY_NO_VERSION));
            proof {
                assert forall|j: int| 0 <= j < i implies entries_view(entries@)[j] == entries_view(before)[j] by {
                    assert(entries@[j] == before[j]);
                }
                assert(pv[i as int] == (kvps@[i as int].0@, kvps@[i as int].1@));
                assert(entries_view(entries@) =~= Seq::new(kvps@.len(), |k: int| (pv[k].0, pv[k].1, KEY_NO_VERSION)).take(i + 1));
            }
            i = i + 1;
        }
        proof {
            assert(Seq::new(kvps@.len(), |k: int| (pv[k].0, pv[k].1, KEY_NO_VERSION)).take(kvps@.len() as int)
                =~= Seq::new(kvps@.len(), |k: int| (pv[k].0, pv[k].1, KEY_NO_VERSION)));
        }
        self.insert_raw_values(entries)
    }

    /// The request that updates every entry if each key has the version given
    /// with it; none is updated otherwise.
    pub fn insert_conditionally_all(&self, kvps: Vec<(Vec<u8>, Vec<u8>, i64)>) -> (r: TableRequest)
        ensures
            r matches TableRequest::UpdateTableEntries { segment, entries }
                && segment@ == self.segment_name() && entries_view(entries@) == entries_view(kvps@),
    {
        self.insert_raw_values(kvps)
    }
}

} // verus!
