use nicknamedb::registry::IDLE_LIMIT_MS;
use nicknamedb::{Lookup, NicknameDb};

#[test]
fn same_host_string_is_a_hit() {
    let mut db = NicknameDb::new('^');
    assert_eq!(db.get_document_at(1, 2, "menfie", 0), Lookup::Created);
    let mut doc = db.lock(1, 2).unwrap();
    doc.insert_at('A', "FOO", 10);
    let name = doc.name.clone();
    assert!(db.unlock(1, 2, doc));
    assert_eq!(db.get_document_at(1, 2, &name, 20), Lookup::Hit);
    let mut doc = db.lock(1, 2).unwrap();
    assert_eq!(doc.name, "menfie ^AFOO");
    assert_eq!(doc.last_access(), 20);
    assert_eq!(doc.fetch_at('A', 30), Some("FOO".to_owned()));
    assert!(db.unlock(1, 2, doc));
    assert_eq!(db.len(), 1);
}

#[test]
fn other_host_string_makes_the_document_anew() {
    let mut db = NicknameDb::new('^');
    assert_eq!(db.get_document_at(1, 2, "menfie ^AFOO", 0), Lookup::Created);
    assert_eq!(db.get_document_at(1, 2, "menfie ^ABAR", 5), Lookup::Created);
    let mut doc = db.lock(1, 2).unwrap();
    assert_eq!(doc.name, "menfie ^ABAR");
    assert_eq!(doc.last_access(), 5);
    assert_eq!(doc.fetch_at('A', 6), Some("BAR".to_owned()));
    assert_eq!(db.len(), 1);
}

#[test]
fn identities_are_kept_apart() {
    let mut db = NicknameDb::new('^');
    assert_eq!(db.get_document_at(1, 2, "a", 0), Lookup::Created);
    assert_eq!(db.get_document_at(2, 1, "b", 0), Lookup::Created);
    assert_eq!(db.get_document_at(1, 1, "c", 0), Lookup::Created);
    assert_eq!(db.len(), 3);
    assert_eq!(db.position(2, 1), 1);
    assert_eq!(db.position(9, 9), 3);
    assert!(db.contains(1, 1));
    assert!(!db.contains(2, 2));
    assert_eq!(db.lock(2, 1).unwrap().name, "b");
}

#[test]
fn sweep_evicts_the_idle_and_keeps_the_locked() {
    let mut db = NicknameDb::new('^');
    db.get_document_at(1, 1, "a", 0);
    db.get_document_at(2, 2, "b", 0);
    db.get_document_at(3, 3, "c", 50_000);
    let held = db.lock(2, 2).unwrap();
    assert_eq!(db.sweep_at(IDLE_LIMIT_MS), 0);
    assert_eq!(db.len(), 3);
    assert_eq!(db.sweep_at(IDLE_LIMIT_MS + 1), 1);
    assert!(!db.contains(1, 1));
    assert!(db.contains(2, 2));
    assert!(db.contains(3, 3));
    assert!(db.unlock(2, 2, held));
    assert_eq!(db.sweep_at(IDLE_LIMIT_MS + 1), 1);
    assert!(!db.contains(2, 2));
    assert_eq!(db.len(), 1);
}

#[test]
fn lookup_sweeps() {
    let mut db = NicknameDb::new('^');
    db.get_document_at(1, 1, "a", 0);
    assert_eq!(db.get_document_at(2, 2, "b", 100_000), Lookup::Created);
    assert!(!db.contains(1, 1));
    assert!(db.contains(2, 2));
    assert_eq!(db.get_document_at(2, 2, "b", 500_000), Lookup::Hit);
    assert!(db.contains(2, 2));
}

#[test]
fn locked_entry_is_busy() {
    let mut db = NicknameDb::new('^');
    db.get_document_at(1, 1, "a", 0);
    let doc = db.lock(1, 1).unwrap();
    assert!(db.lock(1, 1).is_none());
    assert_eq!(db.get_document_at(1, 1, "z", 1), Lookup::Busy);
    assert!(db.unlock(1, 1, doc));
    assert_eq!(db.lock(1, 1).unwrap().name, "a");
}

#[test]
fn remove_drops_the_entry() {
    let mut db = NicknameDb::new('^');
    db.get_document_at(1, 1, "a", 0);
    assert!(db.remove(1, 1));
    assert!(!db.remove(1, 1));
    assert_eq!(db.len(), 0);
    assert!(db.lock(1, 1).is_none());
}

#[test]
fn unlock_without_a_locked_entry_drops_the_document() {
    let mut db = NicknameDb::new('^');
    db.get_document_at(1, 1, "a", 0);
    let doc = db.lock(1, 1).unwrap();
    assert!(db.remove(1, 1));
    assert!(!db.unlock(1, 1, doc));
    assert_eq!(db.len(), 0);
    db.get_document_at(1, 1, "b", 0);
    let other = nicknamedb::Document::new_at("c".to_owned(), '^', 0);
    assert!(!db.unlock(1, 1, other));
    assert_eq!(db.lock(1, 1).unwrap().name, "b");
}

#[test]
fn clock_lookup() {
    let mut db = NicknameDb::new('^');
    assert_eq!(db.get_document(7, 8, "menfie"), Lookup::Created);
    assert_eq!(db.get_document(7, 8, "menfie"), Lookup::Hit);
    assert_eq!(db.sweep(), 0);
    assert_eq!(db.len(), 1);
}

#[test]
fn unlock_refuses_another_delimiter() {
    let mut db = NicknameDb::new('^');
    db.get_document_at(1, 1, "menfie", 0);
    let doc = db.lock(1, 1).unwrap();
    let other = nicknamedb::Document::new_at("menfie".to_owned(), '#', 0);
    assert!(!db.unlock(1, 1, other));
    assert!(db.lock(1, 1).is_none());
    assert_eq!(db.get_document_at(1, 1, "menfie", 1), Lookup::Busy);
    assert!(db.unlock(1, 1, doc));
    assert_eq!(db.get_document_at(1, 1, "menfie", 2), Lookup::Hit);
    assert_eq!(db.lock(1, 1).unwrap().prefix(), '^');
}

#[test]
fn served_document_reads_as_a_fresh_one() {
    let mut db = NicknameDb::new('^');
    db.get_document_at(1, 1, "menfie ^AFOO #BBAR", 0);
    db.get_document_at(1, 1, "menfie ^AFOO #BBAR", 1);
    let mut served = db.lock(1, 1).unwrap();
    let mut fresh = nicknamedb::Document::new_at("menfie ^AFOO #BBAR".to_owned(), '^', 1);
    assert_eq!(served.prefix(), fresh.prefix());
    assert_eq!(served.name, fresh.name);
    assert_eq!(served.fetch_at('A', 2), fresh.fetch_at('A', 2));
    assert_eq!(served.fetch_at('B', 2), fresh.fetch_at('B', 2));
    assert_eq!(served.fetch_at('B', 2), None);
}
