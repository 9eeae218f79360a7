use mononoke_core::idmap::{IdMap, IdMapError, MemIdMap};
use mononoke_core::types::{ChangesetId, RepositoryId, Vertex};

fn cs(b: u8) -> ChangesetId {
    ChangesetId::repeated(b)
}

#[test]
fn test_get_last_entry() {
    let repo_id = RepositoryId::new(0);
    let mut idmap = IdMap::new();

    assert!(idmap.get_last_entry(repo_id).is_none());

    idmap.insert(repo_id, Vertex(1), cs(0x11)).unwrap();
    idmap.insert(repo_id, Vertex(2), cs(0x22)).unwrap();
    idmap.insert(repo_id, Vertex(3), cs(0x33)).unwrap();

    assert_eq!(idmap.get_last_entry(repo_id), Some((Vertex(3), cs(0x33))));
    assert!(idmap.get_last_entry(RepositoryId::new(1)).is_none());
}

#[test]
fn test_insert_many() {
    let repo_id = RepositoryId::new(0);
    let mut idmap = IdMap::new();

    assert!(idmap.get_last_entry(repo_id).is_none());

    idmap.insert_many(repo_id, vec![]).unwrap();
    idmap
        .insert_many(repo_id, vec![(Vertex(1), cs(0x11)), (Vertex(2), cs(0x22)), (Vertex(3), cs(0x33))])
        .unwrap();

    assert_eq!(idmap.get_changeset_id(repo_id, Vertex(1)).unwrap(), cs(0x11));
    assert_eq!(idmap.get_changeset_id(repo_id, Vertex(3)).unwrap(), cs(0x33));

    idmap
        .insert_many(repo_id, vec![(Vertex(1), cs(0x11)), (Vertex(2), cs(0x22)), (Vertex(3), cs(0x33))])
        .unwrap();
    assert_eq!(idmap.get_changeset_id(repo_id, Vertex(2)).unwrap(), cs(0x22));

    idmap.insert_many(repo_id, vec![(Vertex(1), cs(0x11)), (Vertex(4), cs(0x44))]).unwrap();
    assert_eq!(idmap.get_changeset_id(repo_id, Vertex(4)).unwrap(), cs(0x44));

    assert!(idmap.insert_many(repo_id, vec![(Vertex(1), cs(0x55))]).is_err());
}

#[test]
fn test_find_many_changeset_ids() {
    let repo_id = RepositoryId::new(0);
    let mut idmap = IdMap::new();

    let response = idmap.find_many_changeset_ids(repo_id, &vec![Vertex(1), Vertex(2), Vertex(3), Vertex(6)]);
    assert!(response.is_empty());

    idmap
        .insert_many(
            repo_id,
            vec![
                (Vertex(1), cs(0x11)),
                (Vertex(2), cs(0x22)),
                (Vertex(3), cs(0x33)),
                (Vertex(4), cs(0x44)),
                (Vertex(5), cs(0x55)),
            ],
        )
        .unwrap();

    let mut response = idmap.find_many_changeset_ids(repo_id, &vec![Vertex(1), Vertex(2), Vertex(3), Vertex(6)]);
    response.sort_by_key(|p| p.0 .0);
    assert_eq!(response, vec![(Vertex(1), cs(0x11)), (Vertex(2), cs(0x22)), (Vertex(3), cs(0x33))]);

    let mut response = idmap.find_many_changeset_ids(repo_id, &vec![Vertex(4), Vertex(5)]);
    response.sort_by_key(|p| p.0 .0);
    assert_eq!(response, vec![(Vertex(4), cs(0x44)), (Vertex(5), cs(0x55))]);

    let response = idmap.find_many_changeset_ids(repo_id, &vec![Vertex(6)]);
    assert!(response.is_empty());

    let response = idmap.find_many_changeset_ids(repo_id, &vec![Vertex(2), Vertex(2)]);
    assert_eq!(response, vec![(Vertex(2), cs(0x22))]);
}

#[test]
fn conflicting_vertex_is_a_duplicate_assignment() {
    let repo_id = RepositoryId::new(0);
    let mut idmap = IdMap::new();
    idmap.insert(repo_id, Vertex(1), cs(0x11)).unwrap();
    match idmap.insert(repo_id, Vertex(1), cs(0x55)) {
        Err(IdMapError::DuplicateAssignment { vertex, existing, attempted }) => {
            assert_eq!(vertex, Vertex(1));
            assert_eq!(existing, cs(0x11));
            assert_eq!(attempted, cs(0x55));
        }
        _ => panic!("expected a duplicate assignment"),
    }
    assert_eq!(idmap.find_changeset_id(repo_id, Vertex(1)), Some(cs(0x11)));
    assert_eq!(idmap.find_vertex(repo_id, cs(0x55)), None);
}

#[test]
fn changeset_under_another_vertex_is_refused() {
    let repo_id = RepositoryId::new(0);
    let mut idmap = IdMap::new();
    idmap.insert(repo_id, Vertex(1), cs(0x11)).unwrap();
    match idmap.insert(repo_id, Vertex(2), cs(0x11)) {
        Err(IdMapError::ChangesetAssigned { vertex, cs_id, assigned_to }) => {
            assert_eq!(vertex, Vertex(2));
            assert_eq!(cs_id, cs(0x11));
            assert_eq!(assigned_to, Vertex(1));
        }
        _ => panic!("expected the changeset to be taken"),
    }
    assert_eq!(idmap.find_changeset_id(repo_id, Vertex(2)), None);
}

#[test]
fn conflict_within_one_batch_is_refused() {
    let repo_id = RepositoryId::new(0);
    let mut idmap = IdMap::new();
    let r = idmap.insert_many(repo_id, vec![(Vertex(7), cs(0x11)), (Vertex(7), cs(0x22))]);
    assert!(matches!(r, Err(IdMapError::DuplicateAssignment { .. })));
    assert_eq!(idmap.find_changeset_id(repo_id, Vertex(7)), None);
}

#[test]
fn round_trip_between_vertex_and_changeset() {
    let repo_id = RepositoryId::new(3);
    let mut idmap = IdMap::new();
    idmap.insert_many(repo_id, vec![(Vertex(9), cs(0x99)), (Vertex(2), cs(0x22))]).unwrap();
    for (v, c) in [(Vertex(9), cs(0x99)), (Vertex(2), cs(0x22))].iter() {
        assert_eq!(idmap.find_vertex(repo_id, idmap.get_changeset_id(repo_id, *v).unwrap()), Some(*v));
        assert_eq!(idmap.find_changeset_id(repo_id, idmap.get_vertex(repo_id, *c).unwrap()), Some(*c));
    }
    assert!(matches!(idmap.get_vertex(repo_id, cs(0x01)), Err(IdMapError::ChangesetNotFound { .. })));
    assert!(matches!(idmap.get_changeset_id(repo_id, Vertex(1)), Err(IdMapError::VertexNotFound { .. })));
}

#[test]
fn repositories_are_separate() {
    let mut idmap = IdMap::new();
    idmap.insert(RepositoryId::new(0), Vertex(1), cs(0x11)).unwrap();
    idmap.insert(RepositoryId::new(1), Vertex(1), cs(0x22)).unwrap();
    assert_eq!(idmap.find_changeset_id(RepositoryId::new(0), Vertex(1)), Some(cs(0x11)));
    assert_eq!(idmap.find_changeset_id(RepositoryId::new(1), Vertex(1)), Some(cs(0x22)));
}

#[test]
fn large_batch_spans_several_transactions() {
    let repo_id = RepositoryId::new(0);
    let mut idmap = IdMap::new();
    let mut pairs = Vec::new();
    for i in 0..1200u64 {
        let mut b = [0u8; 32];
        b[..8].copy_from_slice(&i.to_be_bytes());
        pairs.push((Vertex(1200 - i), ChangesetId::from_bytes(b)));
    }
    idmap.insert_many(repo_id, pairs).unwrap();
    assert_eq!(idmap.get_last_entry(repo_id).unwrap().0, Vertex(1200));
    let mut b = [0u8; 32];
    b[..8].copy_from_slice(&0u64.to_be_bytes());
    assert_eq!(idmap.find_vertex(repo_id, ChangesetId::from_bytes(b)), Some(Vertex(1200)));
}

#[test]
fn mem_idmap_insert_and_lookup() {
    let mut m = MemIdMap::new();
    assert_eq!(m.len(), 0);
    m.insert(Vertex(1), cs(0x11));
    m.insert(Vertex(2), cs(0x22));
    assert_eq!(m.len(), 2);
    assert_eq!(m.find_changeset_id(Vertex(1)), Some(cs(0x11)));
    assert_eq!(m.find_vertex(cs(0x22)), Some(Vertex(2)));
    assert!(matches!(m.get_changeset_id(Vertex(3)), Err(IdMapError::VertexNotFound { .. })));
    assert!(matches!(m.get_vertex(cs(0x33)), Err(IdMapError::ChangesetNotFound { .. })));
    m.insert(Vertex(1), cs(0x33));
    assert_eq!(m.len(), 2);
    assert_eq!(m.get_changeset_id(Vertex(1)).unwrap(), cs(0x33));
    let mut all = m.iter();
    all.sort_by_key(|p| p.0 .0);
    assert_eq!(all, vec![(Vertex(1), cs(0x33)), (Vertex(2), cs(0x22))]);
}

#[test]
fn replication_is_awaited_between_transactions_only() {
    let repo_id = RepositoryId::new(0);
    let mut idmap = IdMap::new();
    idmap.insert_many(repo_id, vec![(Vertex(1), cs(0x11))]).unwrap();
    assert_eq!(idmap.replication_waits, 0);
    let mut pairs = Vec::new();
    for i in 0..2001u64 {
        let mut b = [0u8; 32];
        b[..8].copy_from_slice(&(i + 100).to_be_bytes());
        pairs.push((Vertex(i + 100), ChangesetId::from_bytes(b)));
    }
    idmap.insert_many(repo_id, pairs).unwrap();
    // three transactions of at most 1000 pairs, two waits between them
    assert_eq!(idmap.replication_waits, 2);
    // rows written after the last wait are read from the master
    assert!(idmap.replica_len < idmap.rows.len());
    let mut b = [0u8; 32];
    b[..8].copy_from_slice(&2100u64.to_be_bytes());
    assert_eq!(idmap.find_vertex(repo_id, ChangesetId::from_bytes(b)), Some(Vertex(2100)));
    assert_eq!(idmap.find_changeset_id(repo_id, Vertex(1)), Some(cs(0x11)));
    idmap.wait_for_replication();
    assert_eq!(idmap.replica_len, idmap.rows.len());
    assert_eq!(idmap.replication_waits, 3);
}

#[test]
fn failed_single_transaction_leaves_rows_unchanged() {
    let repo_id = RepositoryId::new(0);
    let mut idmap = IdMap::new();
    idmap.insert(repo_id, Vertex(1), cs(0x11)).unwrap();
    let before = idmap.rows.len();
    assert!(idmap.insert_many(repo_id, vec![(Vertex(2), cs(0x22)), (Vertex(1), cs(0x55))]).is_err());
    assert_eq!(idmap.rows.len(), before);
    assert_eq!(idmap.find_changeset_id(repo_id, Vertex(2)), None);
}

#[test]
fn mem_idmap_len_grows_by_one_for_a_fresh_pair() {
    let mut m = MemIdMap::new();
    m.insert(Vertex(5), cs(0x55));
    let before = m.len();
    m.insert(Vertex(6), cs(0x66));
    assert_eq!(m.len(), before + 1);
}
