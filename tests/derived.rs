use mononoke_core::derived::{
    derive_data_for_csids, derived_data_utils, derived_data_utils_unsafe, possible_derived_types, Backfill,
    BlobStore, DeriveMode, DerivedDataType, DerivedError,
};
use mononoke_core::types::ChangesetId;

fn cs(b: u8) -> ChangesetId {
    ChangesetId::repeated(b)
}

#[test]
fn factory_recognises_every_type() {
    for t in possible_derived_types() {
        let u = derived_data_utils(t.name()).unwrap();
        assert_eq!(u.kind, t);
        assert_eq!(u.mode, DeriveMode::OnlyIfEnabled);
        assert_eq!(u.name(), t.name());
    }
    assert_eq!(possible_derived_types().len(), 8);
    assert_eq!(DerivedDataType::from_name("fsnodes"), Some(DerivedDataType::Fsnodes));
    assert_eq!(derived_data_utils_unsafe("blame").unwrap().mode, DeriveMode::Unsafe);
}

#[test]
fn factory_refuses_unknown_name() {
    assert_eq!(derived_data_utils("nonsense").err(), Some(DerivedError::UnsupportedType { name: "nonsense".to_string() }));
    assert_eq!(DerivedDataType::from_name("Unodes"), None);
}

#[test]
fn derive_then_not_pending() {
    let mut u = derived_data_utils("unodes").unwrap();
    assert_eq!(u.pending(&vec![cs(1), cs(2), cs(3)]), vec![cs(1), cs(2), cs(3)]);
    let v = u.derive(cs(2), &vec![], b"value-2".to_vec()).unwrap();
    assert_eq!(v, b"value-2".to_vec());
    assert_eq!(u.pending(&vec![cs(2)]), vec![]);
    assert_eq!(u.pending(&vec![cs(1), cs(2), cs(3)]), vec![cs(1), cs(3)]);
    // a second derivation reuses the recorded value
    assert_eq!(u.derive(cs(2), &vec![], b"other".to_vec()).unwrap(), b"value-2".to_vec());
    assert_eq!(u.fetch(cs(2)), Some(b"value-2".to_vec()));
}

#[test]
fn regenerate_forgets_then_rederives() {
    let mut u = derived_data_utils("fastlog").unwrap();
    u.derive(cs(1), &vec![], b"old".to_vec()).unwrap();
    u.derive(cs(2), &vec![], b"keep".to_vec()).unwrap();
    u.regenerate(&vec![cs(1)]);
    assert_eq!(u.pending(&vec![cs(1), cs(2)]), vec![cs(1)]);
    assert_eq!(u.fetch(cs(1)), None);
    assert_eq!(u.derive(cs(1), &vec![], b"new".to_vec()).unwrap(), b"new".to_vec());
    assert_eq!(u.pending(&vec![cs(1), cs(2)]), vec![]);
    assert_eq!(u.fetch(cs(2)), Some(b"keep".to_vec()));
}

#[test]
fn backfill_aborted_before_commit_changes_nothing() {
    let u = derived_data_utils_unsafe("blame").unwrap();
    let before = u.pending(&vec![cs(1), cs(2)]);
    let mut store = BlobStore::new();
    let mut b = Backfill::new();
    b.stage(cs(1), b"v1".to_vec(), vec![(b"key1".to_vec(), b"blob1".to_vec())]);
    b.flush(&mut store);
    drop(b);
    assert_eq!(u.pending(&vec![cs(1), cs(2)]), before);
    assert_eq!(store.get(&b"key1".to_vec()), Some(b"blob1".to_vec()));
}

#[test]
fn backfill_commit_requires_flush() {
    let mut u = derived_data_utils_unsafe("blame").unwrap();
    let mut b = Backfill::new();
    b.stage(cs(1), b"v1".to_vec(), vec![]);
    assert_eq!(b.commit(&mut u), Err(DerivedError::NotFlushed));
    assert_eq!(u.pending(&vec![cs(1)]), vec![cs(1)]);
}

#[test]
fn backfill_flushes_blobs_then_records_mapping() {
    let mut u = derived_data_utils_unsafe("fsnodes").unwrap();
    let mut store = BlobStore::new();
    let mut b = Backfill::new();
    b.stage(cs(1), b"v1".to_vec(), vec![(b"k1".to_vec(), b"b1".to_vec())]);
    b.stage(cs(2), b"v2".to_vec(), vec![(b"k2".to_vec(), b"b2".to_vec())]);
    assert_eq!(b.get(&u, cs(1)), Some(b"v1".to_vec()));
    assert_eq!(u.fetch(cs(1)), None);
    assert_eq!(store.get(&b"k1".to_vec()), None);
    b.flush(&mut store);
    assert_eq!(store.get(&b"k2".to_vec()), Some(b"b2".to_vec()));
    b.commit(&mut u).unwrap();
    assert_eq!(u.pending(&vec![cs(1), cs(2), cs(3)]), vec![cs(3)]);
    assert_eq!(u.fetch(cs(2)), Some(b"v2".to_vec()));
}

#[test]
fn blob_store_latest_write_wins() {
    let mut store = BlobStore::new();
    store.put(b"k".to_vec(), b"1".to_vec());
    store.put(b"k".to_vec(), b"2".to_vec());
    assert_eq!(store.get(&b"k".to_vec()), Some(b"2".to_vec()));
    assert_eq!(store.get(&b"x".to_vec()), None);
}

#[test]
fn oldest_underived_picks_earliest_author_date() {
    let u = derived_data_utils("unodes").unwrap();
    let lists = vec![
        vec![(cs(1), 300), (cs(9), 1)],
        vec![],
        vec![(cs(2), 100), (cs(3), 50)],
        vec![(cs(4), 100)],
    ];
    assert_eq!(u.find_oldest_underived(&lists), Some((cs(2), 100)));
    assert_eq!(u.find_oldest_underived(&vec![vec![], vec![]]), None);
    assert_eq!(u.find_oldest_underived(&vec![]), None);
}

#[test]
fn derivation_plan_runs_type_by_type() {
    let plan = derive_data_for_csids(&vec![cs(1), cs(2)], &vec!["unodes".to_string(), "blame".to_string()]).unwrap();
    assert_eq!(
        plan,
        vec![
            (DerivedDataType::Unodes, cs(1)),
            (DerivedDataType::Unodes, cs(2)),
            (DerivedDataType::Blame, cs(1)),
            (DerivedDataType::Blame, cs(2)),
        ]
    );
    assert_eq!(
        derive_data_for_csids(&vec![cs(1)], &vec!["unodes".to_string(), "bogus".to_string()]),
        Err(DerivedError::UnsupportedType { name: "bogus".to_string() })
    );
}

#[test]
fn parents_are_derived_first_unless_unsafe() {
    let mut u = derived_data_utils("unodes").unwrap();
    assert_eq!(
        u.derive(cs(2), &vec![cs(0), cs(1)], b"v2".to_vec()),
        Err(DerivedError::UnderivedParent { index: 0 })
    );
    assert_eq!(u.pending(&vec![cs(2)]), vec![cs(2)]);
    u.derive(cs(0), &vec![], b"v0".to_vec()).unwrap();
    assert_eq!(
        u.derive(cs(2), &vec![cs(0), cs(1)], b"v2".to_vec()),
        Err(DerivedError::UnderivedParent { index: 1 })
    );
    u.derive(cs(1), &vec![cs(0)], b"v1".to_vec()).unwrap();
    assert_eq!(u.derive(cs(2), &vec![cs(0), cs(1)], b"v2".to_vec()), Ok(b"v2".to_vec()));

    let mut unsafe_utils = derived_data_utils_unsafe("unodes").unwrap();
    assert_eq!(unsafe_utils.derive(cs(2), &vec![cs(0)], b"v2".to_vec()), Ok(b"v2".to_vec()));
}
