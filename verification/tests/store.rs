use cycles::{Database, Date, Description, Id, Interval, StoreError};

fn fresh_path(name: &str) -> String {
    format!("/tmp/cycles_test_{}_{}", name, uuid::Uuid::new_v4().simple())
}

fn habit(label: &str) -> Description {
    Description {
        label: label.into(),
        description: Some("a habit".into()),
        color: None,
        tags: vec!["tag".into()],
        start: Date { days: 737884 },
        interval: Interval::Weekly,
        interval_multiplier: 1,
    }
}

fn sorted_entries(db: &Database) -> Vec<(Vec<u8>, Description)> {
    let mut v: Vec<(Vec<u8>, Description)> = db
        .entries()
        .unwrap()
        .into_iter()
        .map(|(id, d)| (id.as_bytes().clone(), d))
        .collect();
    v.sort_by(|a, b| a.0.cmp(&b.0));
    v
}

#[test]
fn append_then_entries() {
    let mut db = Database::new(&fresh_path("append")).unwrap();
    let a = db.append(&habit("water")).unwrap();
    let b = db.append(&habit("walk")).unwrap();
    assert_ne!(a, b);
    let entries = db.entries().unwrap();
    assert_eq!(entries.len(), 2);
    let labels: Vec<&str> = entries.iter().map(|(_, d)| d.label.as_str()).collect();
    assert!(labels.contains(&"water"));
    assert!(labels.contains(&"walk"));
}

#[test]
fn append_returns_unused_identifier() {
    let mut db = Database::new(&fresh_path("fresh_id")).unwrap();
    let mut seen: Vec<Id> = Vec::new();
    for i in 0..8 {
        let before = db.entries().unwrap();
        let id = db.append(&habit(&format!("habit {}", i))).unwrap();
        assert!(before.iter().all(|(old, _)| *old != id));
        seen.push(id);
    }
    assert_eq!(seen.len(), 8);
}

#[test]
fn update_is_idempotent() {
    let mut db = Database::new(&fresh_path("idempotent")).unwrap();
    let id = db.append(&habit("stretch")).unwrap();
    let v = habit("stretch, longer");
    db.update(&id, &v).unwrap();
    let once = sorted_entries(&db);
    db.update(&id, &v).unwrap();
    let twice = sorted_entries(&db);
    assert_eq!(once, twice);
    assert_eq!(once.len(), 1);
    assert_eq!(once[0].1.label, "stretch, longer");
}

#[test]
fn update_upserts_unknown_identifier() {
    let mut db = Database::new(&fresh_path("upsert")).unwrap();
    let id = Id::from_bytes((1u8..=16).collect()).unwrap();
    db.update(&id, &habit("imported")).unwrap();
    let entries = db.entries().unwrap();
    assert_eq!(entries.len(), 1);
    assert_eq!(entries[0].0, id);
    assert_eq!(entries[0].1.label, "imported");
}

#[test]
fn remove_unknown_identifier_is_noop() {
    let mut db = Database::new(&fresh_path("remove_noop")).unwrap();
    db.append(&habit("keep me")).unwrap();
    let before = sorted_entries(&db);
    let never_appended = Id::from_bytes(vec![7u8; 16]).unwrap();
    db.remove(&never_appended).unwrap();
    assert_eq!(sorted_entries(&db), before);
}

#[test]
fn remove_deletes_record() {
    let mut db = Database::new(&fresh_path("remove")).unwrap();
    let id = db.append(&habit("gone soon")).unwrap();
    db.remove(&id).unwrap();
    assert!(db.entries().unwrap().is_empty());
}

#[test]
fn export_import_reproduces_entries() {
    let mut source = Database::new(&fresh_path("export_src")).unwrap();
    source.append(&habit("water")).unwrap();
    source.append(&habit("walk")).unwrap();
    let blob = source.export_bytes().unwrap();

    let mut target = Database::new(&fresh_path("export_dst")).unwrap();
    assert!(target.entries().unwrap().is_empty());
    let imported = target.import_bytes(&blob).unwrap();
    assert_eq!(imported.len(), 2);
    assert_eq!(sorted_entries(&target), sorted_entries(&source));
}

#[test]
fn import_is_idempotent_and_upserts() {
    let mut source = Database::new(&fresh_path("import_src")).unwrap();
    let id = source.append(&habit("row")).unwrap();
    let blob = source.export_bytes().unwrap();

    let mut target = Database::new(&fresh_path("import_dst")).unwrap();
    target.update(&id, &habit("row, but stale")).unwrap();
    target.import_bytes(&blob).unwrap();
    target.import_bytes(&blob).unwrap();
    assert_eq!(sorted_entries(&target), sorted_entries(&source));
}

#[test]
fn import_rejects_garbage() {
    let mut db = Database::new(&fresh_path("garbage")).unwrap();
    db.append(&habit("safe")).unwrap();
    let before = sorted_entries(&db);
    let r = db.import_bytes(&vec![0xffu8; 7]);
    assert_eq!(r.unwrap_err(), StoreError::Corrupt);
    assert_eq!(sorted_entries(&db), before);
}

#[test]
fn records_survive_reopen() {
    let path = fresh_path("reopen");
    {
        let mut db = Database::new(&path).unwrap();
        db.append(&habit("durable")).unwrap();
    }
    let db = Database::new(&path).unwrap();
    let entries = db.entries().unwrap();
    assert_eq!(entries.len(), 1);
    assert_eq!(entries[0].1.label, "durable");
}

#[test]
fn open_unusable_path_is_io_error() {
    let r = Database::new("/dev/null");
    assert!(matches!(r, Err(StoreError::Io)));
}
