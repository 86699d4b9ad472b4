use pravega_core::tablemap::{TableError, TableMap, TableReply, TableRequest, KEY_NO_VERSION};

fn map() -> TableMap {
    TableMap::new("table")
}

const SEGMENT: &str = "_tables/table/0.#epoch.0";

#[test]
fn create_request_names_the_segment() {
    match map().create_request() {
        TableRequest::CreateTableSegment { segment } => assert_eq!(segment, SEGMENT),
        other => panic!("unexpected request {:?}", other),
    }
    assert!(map().create_reply(Some(TableReply::SegmentCreated)).is_ok());
    assert!(map().create_reply(Some(TableReply::SegmentAlreadyExists)).is_ok());
    assert!(matches!(map().create_reply(None), Err(TableError::ConnectionError { can_retry: true, .. })));
}

#[test]
fn insert_is_unconditional() {
    match map().insert(vec![1], vec![2, 3]) {
        TableRequest::UpdateTableEntries { segment, entries } => {
            assert_eq!(segment, SEGMENT);
            assert_eq!(entries, vec![(vec![1], vec![2, 3], KEY_NO_VERSION)]);
        },
        other => panic!("unexpected request {:?}", other),
    }
    assert_eq!(KEY_NO_VERSION, i64::MIN);
}

#[test]
fn insert_conditionally_carries_the_version() {
    match map().insert_conditionally(vec![1], vec![2], 5) {
        TableRequest::UpdateTableEntries { entries, .. } => assert_eq!(entries, vec![(vec![1], vec![2], 5)]),
        other => panic!("unexpected request {:?}", other),
    }
    match map().insert_conditionally_all(vec![(vec![1], vec![2], 5), (vec![3], vec![4], 6)]) {
        TableRequest::UpdateTableEntries { entries, .. } => {
            assert_eq!(entries, vec![(vec![1], vec![2], 5), (vec![3], vec![4], 6)])
        },
        other => panic!("unexpected request {:?}", other),
    }
}

#[test]
fn insert_all_then_get_all() {
    let kvps = vec![(vec![1], vec![10]), (vec![2], vec![20])];
    match map().insert_all(kvps) {
        TableRequest::UpdateTableEntries { entries, .. } => assert_eq!(
            entries,
            vec![(vec![1], vec![10], KEY_NO_VERSION), (vec![2], vec![20], KEY_NO_VERSION)]
        ),
        other => panic!("unexpected request {:?}", other),
    }
    let versions = TableMap::insert_raw_values_reply(Some(TableReply::TableEntriesUpdated { updated_versions: vec![3, 4] }));
    assert_eq!(versions.expect("versions"), vec![3, 4]);
    match map().get_all(vec![vec![1], vec![2]]) {
        TableRequest::ReadTable { keys, .. } => assert_eq!(keys, vec![(vec![1], KEY_NO_VERSION), (vec![2], KEY_NO_VERSION)]),
        other => panic!("unexpected request {:?}", other),
    }
    let read = TableMap::get_all_reply(Some(TableReply::TableRead { entries: vec![(vec![10], 3), (vec![20], 4)] }));
    assert_eq!(read.expect("values"), vec![Some((vec![10], 3)), Some((vec![20], 4))]);
}

#[test]
fn absent_keys_read_as_none() {
    let read = TableMap::get_all_reply(Some(TableReply::TableRead { entries: vec![(vec![], 0), (vec![7], 2)] }));
    assert_eq!(read.expect("values"), vec![None, Some((vec![7], 2))]);
    let one = TableMap::get_reply(Some(TableReply::TableRead { entries: vec![(vec![], 0)] }));
    assert_eq!(one.expect("value"), None);
    let one = TableMap::get_reply(Some(TableReply::TableRead { entries: vec![(vec![9], 1)] }));
    assert_eq!(one.expect("value"), Some((vec![9], 1)));
    match map().get(vec![4]) {
        TableRequest::ReadTable { keys, .. } => assert_eq!(keys, vec![(vec![4], KEY_NO_VERSION)]),
        other => panic!("unexpected request {:?}", other),
    }
}

#[test]
fn remove_requests_and_replies() {
    match map().remove(vec![1]) {
        TableRequest::RemoveTableKeys { keys, .. } => assert_eq!(keys, vec![(vec![1], KEY_NO_VERSION)]),
        other => panic!("unexpected request {:?}", other),
    }
    match map().remove_conditionally(vec![1], 8) {
        TableRequest::RemoveTableKeys { keys, .. } => assert_eq!(keys, vec![(vec![1], 8)]),
        other => panic!("unexpected request {:?}", other),
    }
    assert!(TableMap::remove_raw_value_reply(Some(TableReply::TableKeysRemoved)).is_ok());
    match TableMap::remove_raw_value_reply(Some(TableReply::TableKeyDoesNotExist { message: "gone".to_string() })) {
        Err(TableError::KeyDoesNotExist { error_msg, .. }) => assert_eq!(error_msg, "gone"),
        other => panic!("unexpected result {:?}", other),
    }
    match TableMap::remove_raw_value_reply(Some(TableReply::TableKeyBadVersion { message: "stale".to_string() })) {
        Err(TableError::IncorrectKeyVersion { error_msg, .. }) => assert_eq!(error_msg, "stale"),
        other => panic!("unexpected result {:?}", other),
    }
    assert!(matches!(TableMap::remove_raw_value_reply(None), Err(TableError::ConnectionError { can_retry: true, .. })));
}

#[test]
fn update_errors() {
    match TableMap::insert_raw_values_reply(Some(TableReply::TableKeyBadVersion { message: "stale".to_string() })) {
        Err(TableError::IncorrectKeyVersion { error_msg, operation }) => {
            assert_eq!(error_msg, "stale");
            assert_eq!(operation, "Insert into tablemap");
        },
        other => panic!("unexpected result {:?}", other),
    }
    assert!(matches!(TableMap::insert_raw_values_reply(None), Err(TableError::ConnectionError { can_retry: true, .. })));
    assert!(matches!(TableMap::get_all_reply(None), Err(TableError::ConnectionError { can_retry: true, .. })));
}

use pravega_core::in_memory_table::{InMemoryTable, KEY_NOT_EXISTS};

#[test]
fn insert_all_then_get_all_round_trip() {
    let mut table = InMemoryTable::new();
    let map = map();
    // an earlier update, so that versions have something to rise above
    let first = TableMap::insert_raw_values_reply(Some(table.handle(&map.insert(vec![9], vec![90]))))
        .expect("first insert");
    assert_eq!(first, vec![0]);

    let kvps = vec![(vec![1], vec![10]), (vec![2], vec![20, 21]), (vec![9], vec![91])];
    let versions = TableMap::insert_raw_values_reply(Some(table.handle(&map.insert_all(kvps.clone()))))
        .expect("insert all");
    assert_eq!(versions, vec![1, 2, 3]);
    let keys: Vec<Vec<u8>> = kvps.iter().map(|(k, _)| k.clone()).collect();
    let values = TableMap::get_all_reply(Some(table.handle(&map.get_all(keys)))).expect("get all");
    assert_eq!(values, vec![Some((vec![10], 1)), Some((vec![20, 21], 2)), Some((vec![91], 3))]);
    assert!(versions.windows(2).all(|w| w[0] < w[1]));
    assert!(versions.iter().all(|v| *v > first[0]));
}

#[test]
fn conditional_update_checks_versions() {
    let mut table = InMemoryTable::new();
    let map = map();
    let v = TableMap::insert_raw_values_reply(Some(table.handle(&map.insert(vec![1], vec![1])))).expect("insert");
    // a stale version refuses the whole update
    let stale = table.handle(&map.insert_conditionally_all(vec![(vec![1], vec![2], v[0] + 5), (vec![3], vec![3], KEY_NO_VERSION)]));
    assert!(matches!(TableMap::insert_raw_values_reply(Some(stale)), Err(TableError::IncorrectKeyVersion { .. })));
    let read = TableMap::get_all_reply(Some(table.handle(&map.get_all(vec![vec![1], vec![3]])))).expect("read");
    assert_eq!(read, vec![Some((vec![1], v[0])), None]);
    // the current version, and absence for a new key, are accepted
    let ok = table.handle(&map.insert_conditionally_all(vec![(vec![1], vec![2], v[0]), (vec![3], vec![3], KEY_NOT_EXISTS)]));
    assert_eq!(TableMap::insert_raw_values_reply(Some(ok)).expect("update"), vec![1, 2]);
    let one = TableMap::get_reply(Some(table.handle(&map.get(vec![1])))).expect("get");
    assert_eq!(one, Some((vec![2], 1)));
}

#[test]
fn removal_from_the_table() {
    let mut table = InMemoryTable::new();
    let map = map();
    TableMap::insert_raw_values_reply(Some(table.handle(&map.insert_all(vec![(vec![1], vec![1]), (vec![2], vec![2])]))))
        .expect("insert");
    // an unconditional removal of an absent key does nothing
    TableMap::remove_raw_value_reply(Some(table.handle(&map.remove(vec![3])))).expect("absent key");
    match TableMap::remove_raw_value_reply(Some(table.handle(&map.remove_conditionally(vec![3], 0)))) {
        Err(TableError::KeyDoesNotExist { operation, .. }) => assert_eq!(operation, "Remove keys from tablemap"),
        other => panic!("unexpected result {:?}", other),
    }
    assert!(matches!(
        TableMap::remove_raw_value_reply(Some(table.handle(&map.remove_conditionally(vec![1], 7)))),
        Err(TableError::IncorrectKeyVersion { .. })
    ));
    TableMap::remove_raw_value_reply(Some(table.handle(&map.remove_conditionally(vec![1], 0)))).expect("remove");
    let read = TableMap::get_all_reply(Some(table.handle(&map.get_all(vec![vec![1], vec![2]])))).expect("read");
    assert_eq!(read, vec![None, Some((vec![2], 1))]);
    TableMap::remove_raw_value_reply(Some(table.handle(&map.remove(vec![2])))).expect("remove");
    assert_eq!(TableMap::get_reply(Some(table.handle(&map.get(vec![2])))).expect("get"), None);
    assert!(matches!(table.handle(&map.create_request()), TableReply::SegmentCreated));
}
