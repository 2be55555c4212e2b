use std::collections::BTreeMap;

use netrecon::codec::DatabaseResult;
use netrecon::store::{plan_batches, row_from_columns, select_matching_keys, Column, BATCH_SIZE};

type Store = BTreeMap<(u8, Vec<u8>), Vec<u8>>;

fn col(c: Column) -> u8 {
    match c {
        Column::Presence => 0,
        Column::Ports => 1,
        Column::Services => 2,
    }
}

fn record(id: &str, ports: Vec<i32>, services: &str) -> DatabaseResult {
    DatabaseResult { id: id.to_string(), ports, services: services.to_string() }
}

fn save(store: &mut Store, rows: &Vec<DatabaseResult>) {
    for batch in plan_batches(rows) {
        for put in batch {
            store.insert((col(put.column), put.key), put.value);
        }
    }
}

fn get(store: &Store, host: &str) -> Option<DatabaseResult> {
    let key = host.as_bytes().to_vec();
    let present = store.contains_key(&(0, key.clone()));
    let ports = store.get(&(1, key.clone())).map(|v| v.as_slice());
    let services = store.get(&(2, key)).map(|v| v.as_slice());
    row_from_columns(host, present, ports, services)
}

fn scan(store: &Store, column: u8, query: &str) -> Vec<String> {
    let entries: Vec<(Vec<u8>, Vec<u8>)> = store
        .iter()
        .filter(|((c, _), _)| *c == column)
        .map(|((_, k), v)| (k.clone(), v.clone()))
        .collect();
    select_matching_keys(&entries, query)
}

#[test]
fn plan_writes_three_columns_per_row() {
    let rows = vec![record("a", vec![22, 80], "ssh")];
    let batches = plan_batches(&rows);
    assert_eq!(batches.len(), 1);
    let b = &batches[0];
    assert_eq!(b.len(), 3);
    assert_eq!(b[0].column, Column::Presence);
    assert_eq!(b[0].key, b"a".to_vec());
    assert!(b[0].value.is_empty());
    assert_eq!(b[1].column, Column::Ports);
    assert_eq!(b[1].value, b"22,80".to_vec());
    assert_eq!(b[2].column, Column::Services);
    assert_eq!(b[2].value, b"ssh".to_vec());
}

#[test]
fn plan_splits_into_batches() {
    assert!(plan_batches(&Vec::new()).is_empty());
    let rows: Vec<DatabaseResult> =
        (0..BATCH_SIZE + 1).map(|i| record(&format!("h{}", i), vec![], "")).collect();
    let batches = plan_batches(&rows);
    assert_eq!(batches.len(), 2);
    assert_eq!(batches[0].len(), 3 * BATCH_SIZE);
    assert_eq!(batches[1].len(), 3);
    assert_eq!(batches[1][0].key, format!("h{}", BATCH_SIZE).into_bytes());
}

#[test]
fn saved_row_reads_back_as_stored() {
    let mut store = Store::new();
    save(&mut store, &vec![record("1.1.1.1", vec![80, 443, 80], "http")]);
    let r = get(&store, "1.1.1.1").unwrap();
    assert_eq!(r.id, "1.1.1.1");
    assert_eq!(r.ports, vec![80, 443, 80]);
    assert_eq!(r.services, "http");
    assert!(get(&store, "2.2.2.2").is_none());
}

#[test]
fn later_row_overwrites_columns() {
    let mut store = Store::new();
    save(&mut store, &vec![record("h", vec![22], "old"), record("h", vec![80], "new")]);
    let r = get(&store, "h").unwrap();
    assert_eq!(r.ports, vec![80]);
    assert_eq!(r.services, "new");
}

#[test]
fn saving_twice_changes_nothing() {
    let rows = vec![record("a", vec![22, 80], "x"), record("b", vec![443], "y")];
    let mut once = Store::new();
    save(&mut once, &rows);
    let mut twice = once.clone();
    save(&mut twice, &rows);
    assert_eq!(once, twice);
}

#[test]
fn missing_columns_read_as_empty() {
    let r = row_from_columns("h", true, None, None).unwrap();
    assert_eq!(r.ports, Vec::<i32>::new());
    assert_eq!(r.services, "");
    assert!(row_from_columns("h", false, Some(b"80"), Some(b"x")).is_none());
}

#[test]
fn port_scan_is_substring_match() {
    let mut store = Store::new();
    save(&mut store, &vec![record("a", vec![22, 80], ""), record("b", vec![443], "")]);
    assert_eq!(scan(&store, 1, "80"), vec!["a".to_string()]);
    assert_eq!(scan(&store, 1, "4"), vec!["b".to_string()]);
    assert_eq!(scan(&store, 1, "9"), Vec::<String>::new());
}

#[test]
fn port_80_query_matches_8080() {
    let mut store = Store::new();
    save(&mut store, &vec![record("x", vec![80], ""), record("y", vec![8080], ""), record("z", vec![22], "")]);
    assert_eq!(scan(&store, 1, "80"), vec!["x".to_string(), "y".to_string()]);
}

#[test]
fn empty_service_query_returns_every_row_in_key_order() {
    let mut store = Store::new();
    save(&mut store, &vec![record("b", vec![], "dns"), record("a", vec![], "")]);
    let keys = scan(&store, 2, "");
    assert_eq!(keys, vec!["a".to_string(), "b".to_string()]);
    let rows: Vec<DatabaseResult> = keys.iter().map(|k| get(&store, k).unwrap()).collect();
    assert_eq!(rows[0].id, "a");
    assert_eq!(rows[1].services, "dns");
}

#[test]
fn scan_skips_values_that_are_not_text() {
    let entries = vec![(b"a".to_vec(), vec![0xFF, b'8', b'0']), (b"b".to_vec(), b"80".to_vec())];
    assert_eq!(select_matching_keys(&entries, "80"), vec!["b".to_string()]);
}
