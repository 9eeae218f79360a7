use mononoke_core::bookmarks::{
    Bookmark, BookmarkError, BookmarkKind, BookmarkName, BookmarkPagination, BookmarkPrefix,
    BookmarkUpdateLogEntry, BookmarkUpdateReason, Bookmarks, RawBundleReplayData,
};
use mononoke_core::types::{ChangesetId, RepositoryId};

fn cs(b: u8) -> ChangesetId {
    ChangesetId::repeated(b)
}

fn ones() -> ChangesetId {
    cs(0x11)
}
fn twos() -> ChangesetId {
    cs(0x22)
}
fn threes() -> ChangesetId {
    cs(0x33)
}
fn fours() -> ChangesetId {
    cs(0x44)
}
fn fives() -> ChangesetId {
    cs(0x55)
}
fn sixes() -> ChangesetId {
    cs(0x66)
}

fn repo_zero() -> RepositoryId {
    RepositoryId::new(0)
}
fn repo_one() -> RepositoryId {
    RepositoryId::new(1)
}
fn repo_two() -> RepositoryId {
    RepositoryId::new(2)
}

fn create_bookmark_name(book: &str) -> BookmarkName {
    BookmarkName::new(book).unwrap()
}

struct Expected {
    id: u64,
    repo_id: RepositoryId,
    name: &'static str,
    to: Option<ChangesetId>,
    from: Option<ChangesetId>,
    reason: BookmarkUpdateReason,
}

fn compare_log_entries(expected: Vec<Expected>, actual: Vec<BookmarkUpdateLogEntry>) {
    assert_eq!(expected.len(), actual.len());
    for (e, a) in expected.iter().zip(actual.iter()) {
        assert_eq!(e.id, a.id);
        assert_eq!(e.repo_id, a.repo_id);
        assert_eq!(e.name.as_bytes(), a.bookmark_name.as_bytes());
        assert_eq!(e.to, a.to_changeset_id);
        assert_eq!(e.from, a.from_changeset_id);
        assert_eq!(e.reason, a.reason);
    }
}

fn fetch_single(bookmarks: &Bookmarks, repo: RepositoryId, id: u64) -> BookmarkUpdateLogEntry {
    let mut v = bookmarks.read_next_bookmark_log_entries(repo, id, 1);
    assert_eq!(v.len(), 1);
    v.remove(0)
}

const TS: i64 = 1_600_000_000_000;

#[test]
fn test_simple_unconditional_set_get() {
    let mut bookmarks = Bookmarks::new();
    let name_correct = create_bookmark_name("book");
    let name_incorrect = create_bookmark_name("book2");

    let mut txn = bookmarks.create_transaction(repo_zero());
    txn.force_set(&name_correct, ones(), BookmarkUpdateReason::TestMove, None).unwrap();
    assert!(txn.commit(&mut bookmarks, TS));

    assert_eq!(bookmarks.get(repo_zero(), &name_correct), Some(ones()));
    assert_eq!(bookmarks.get(repo_zero(), &name_incorrect), None);

    compare_log_entries(
        vec![Expected {
            id: 1,
            repo_id: repo_zero(),
            name: "book",
            to: Some(ones()),
            from: None,
            reason: BookmarkUpdateReason::TestMove,
        }],
        bookmarks.read_next_bookmark_log_entries(repo_zero(), 0, 1),
    );
}

#[test]
fn test_multi_unconditional_set_get() {
    let mut bookmarks = Bookmarks::new();
    let name_1 = create_bookmark_name("book");
    let name_2 = create_bookmark_name("book2");

    let mut txn = bookmarks.create_transaction(repo_zero());
    txn.force_set(&name_1, ones(), BookmarkUpdateReason::TestMove, None).unwrap();
    txn.force_set(&name_2, twos(), BookmarkUpdateReason::TestMove, None).unwrap();
    assert!(txn.commit(&mut bookmarks, TS));

    assert_eq!(bookmarks.get(repo_zero(), &name_1), Some(ones()));
    assert_eq!(bookmarks.get(repo_zero(), &name_2), Some(twos()));
}

#[test]
fn test_unconditional_set_same_bookmark() {
    let mut bookmarks = Bookmarks::new();
    let name_1 = create_bookmark_name("book");

    let mut txn = bookmarks.create_transaction(repo_zero());
    txn.force_set(&name_1, ones(), BookmarkUpdateReason::TestMove, None).unwrap();
    assert!(txn.commit(&mut bookmarks, TS));

    let mut txn = bookmarks.create_transaction(repo_zero());
    txn.force_set(&name_1, ones(), BookmarkUpdateReason::TestMove, None).unwrap();
    assert!(txn.commit(&mut bookmarks, TS));

    assert_eq!(bookmarks.get(repo_zero(), &name_1), Some(ones()));
}

#[test]
fn test_simple_create() {
    let mut bookmarks = Bookmarks::new();
    let name_1 = create_bookmark_name("book");

    let mut txn = bookmarks.create_transaction(repo_zero());
    txn.create(&name_1, ones(), BookmarkUpdateReason::TestMove, None).unwrap();
    assert!(txn.commit(&mut bookmarks, TS));

    assert_eq!(bookmarks.get(repo_zero(), &name_1), Some(ones()));

    compare_log_entries(
        vec![Expected {
            id: 1,
            repo_id: repo_zero(),
            name: "book",
            to: Some(ones()),
            from: None,
            reason: BookmarkUpdateReason::TestMove,
        }],
        bookmarks.read_next_bookmark_log_entries(repo_zero(), 0, 1),
    );
}

#[test]
fn test_create_already_existing() {
    let mut bookmarks = Bookmarks::new();
    let name_1 = create_bookmark_name("book");

    let mut txn = bookmarks.create_transaction(repo_zero());
    txn.create(&name_1, ones(), BookmarkUpdateReason::TestMove, None).unwrap();
    assert!(txn.commit(&mut bookmarks, TS));

    let mut txn = bookmarks.create_transaction(repo_zero());
    txn.create(&name_1, ones(), BookmarkUpdateReason::TestMove, None).unwrap();
    assert!(!txn.commit(&mut bookmarks, TS));
}

#[test]
fn test_create_change_same_bookmark() {
    let bookmarks = Bookmarks::new();
    let name_1 = create_bookmark_name("book");

    let mut txn = bookmarks.create_transaction(repo_zero());
    txn.create(&name_1, ones(), BookmarkUpdateReason::TestMove, None).unwrap();
    assert!(txn.force_set(&name_1, ones(), BookmarkUpdateReason::TestMove, None).is_err());

    let mut txn = bookmarks.create_transaction(repo_zero());
    txn.force_set(&name_1, ones(), BookmarkUpdateReason::TestMove, None).unwrap();
    assert!(txn.create(&name_1, ones(), BookmarkUpdateReason::TestMove, None).is_err());

    let mut txn = bookmarks.create_transaction(repo_zero());
    txn.force_set(&name_1, ones(), BookmarkUpdateReason::TestMove, None).unwrap();
    assert!(txn.update(&name_1, twos(), ones(), BookmarkUpdateReason::TestMove, None).is_err());

    let mut txn = bookmarks.create_transaction(repo_zero());
    txn.update(&name_1, twos(), ones(), BookmarkUpdateReason::TestMove, None).unwrap();
    assert!(txn.force_set(&name_1, ones(), BookmarkUpdateReason::TestMove, None).is_err());

    let mut txn = bookmarks.create_transaction(repo_zero());
    txn.update(&name_1, twos(), ones(), BookmarkUpdateReason::TestMove, None).unwrap();
    assert!(txn.force_delete(&name_1, BookmarkUpdateReason::TestMove, None).is_err());

    let mut txn = bookmarks.create_transaction(repo_zero());
    txn.force_delete(&name_1, BookmarkUpdateReason::TestMove, None).unwrap();
    assert!(txn.update(&name_1, twos(), ones(), BookmarkUpdateReason::TestMove, None).is_err());

    let mut txn = bookmarks.create_transaction(repo_zero());
    txn.delete(&name_1, ones(), BookmarkUpdateReason::TestMove, None).unwrap();
    assert!(txn.update(&name_1, twos(), ones(), BookmarkUpdateReason::TestMove, None).is_err());

    let mut txn = bookmarks.create_transaction(repo_zero());
    txn.update(&name_1, twos(), ones(), BookmarkUpdateReason::TestMove, None).unwrap();
    assert_eq!(
        txn.delete(&name_1, ones(), BookmarkUpdateReason::TestMove, None),
        Err(BookmarkError::AlreadyStaged)
    );
}

#[test]
fn test_simple_update_bookmark() {
    let mut bookmarks = Bookmarks::new();
    let name_1 = create_bookmark_name("book");

    let mut txn = bookmarks.create_transaction(repo_zero());
    txn.create(&name_1, ones(), BookmarkUpdateReason::TestMove, None).unwrap();
    assert!(txn.commit(&mut bookmarks, TS));

    let mut txn = bookmarks.create_transaction(repo_zero());
    txn.update(&name_1, twos(), ones(), BookmarkUpdateReason::TestMove, None).unwrap();
    assert!(txn.commit(&mut bookmarks, TS));

    assert_eq!(bookmarks.get(repo_zero(), &name_1), Some(twos()));

    compare_log_entries(
        vec![Expected {
            id: 2,
            repo_id: repo_zero(),
            name: "book",
            to: Some(twos()),
            from: Some(ones()),
            reason: BookmarkUpdateReason::TestMove,
        }],
        bookmarks.read_next_bookmark_log_entries(repo_zero(), 1, 1),
    );
}

#[test]
fn test_noop_update() {
    let mut bookmarks = Bookmarks::new();
    let name_1 = create_bookmark_name("book");

    let mut txn = bookmarks.create_transaction(repo_zero());
    txn.create(&name_1, ones(), BookmarkUpdateReason::TestMove, None).unwrap();
    assert!(txn.commit(&mut bookmarks, TS));

    let mut txn = bookmarks.create_transaction(repo_zero());
    txn.update(&name_1, ones(), ones(), BookmarkUpdateReason::TestMove, None).unwrap();
    assert!(txn.commit(&mut bookmarks, TS));

    assert_eq!(bookmarks.get(repo_zero(), &name_1), Some(ones()));
}

#[test]
fn test_scratch_update_bookmark() {
    let mut bookmarks = Bookmarks::new();
    let name_1 = create_bookmark_name("book");

    let mut txn = bookmarks.create_transaction(repo_zero());
    txn.create_scratch(&name_1, ones()).unwrap();
    assert!(txn.commit(&mut bookmarks, TS));

    let mut txn = bookmarks.create_transaction(repo_zero());
    txn.update_scratch(&name_1, twos(), ones()).unwrap();
    assert!(txn.commit(&mut bookmarks, TS));

    assert_eq!(bookmarks.get(repo_zero(), &name_1), Some(twos()));

    compare_log_entries(vec![], bookmarks.read_next_bookmark_log_entries(repo_zero(), 1, 1));
}

#[test]
fn scratch_moves_leave_the_log_empty() {
    let mut bookmarks = Bookmarks::new();
    let name_1 = create_bookmark_name("book");
    let mut txn = bookmarks.create_transaction(repo_zero());
    txn.create_scratch(&name_1, ones()).unwrap();
    assert!(txn.commit(&mut bookmarks, TS));
    let mut txn = bookmarks.create_transaction(repo_zero());
    txn.update_scratch(&name_1, twos(), ones()).unwrap();
    assert!(txn.commit(&mut bookmarks, TS));
    assert_eq!(bookmarks.get(repo_zero(), &name_1), Some(twos()));
    assert_eq!(bookmarks.read_next_bookmark_log_entries(repo_zero(), 0, 10).len(), 0);
}

#[test]
fn update_refuses_scratch_and_update_scratch_refuses_public() {
    let mut bookmarks = Bookmarks::new();
    let scratch = create_bookmark_name("scratch/a");
    let public = create_bookmark_name("main");
    let mut txn = bookmarks.create_transaction(repo_zero());
    txn.create_scratch(&scratch, ones()).unwrap();
    txn.create(&public, ones(), BookmarkUpdateReason::Push, None).unwrap();
    assert!(txn.commit(&mut bookmarks, TS));

    let mut txn = bookmarks.create_transaction(repo_zero());
    txn.update(&scratch, twos(), ones(), BookmarkUpdateReason::Push, None).unwrap();
    assert!(!txn.commit(&mut bookmarks, TS));

    let mut txn = bookmarks.create_transaction(repo_zero());
    txn.update_scratch(&public, twos(), ones()).unwrap();
    assert!(!txn.commit(&mut bookmarks, TS));
    assert_eq!(bookmarks.get(repo_zero(), &public), Some(ones()));
    assert_eq!(bookmarks.get(repo_zero(), &scratch), Some(ones()));
    assert_eq!(bookmarks.get_entry(repo_zero(), &scratch), Some((BookmarkKind::Scratch, ones())));
    assert_eq!(
        bookmarks.get_entry(repo_zero(), &public),
        Some((BookmarkKind::PullDefaultPublishing, ones()))
    );
}

#[test]
fn test_update_non_existent_bookmark() {
    let mut bookmarks = Bookmarks::new();
    let name_1 = create_bookmark_name("book");

    let mut txn = bookmarks.create_transaction(repo_zero());
    txn.update(&name_1, twos(), ones(), BookmarkUpdateReason::TestMove, None).unwrap();
    assert_eq!(txn.commit(&mut bookmarks, TS), false);
}

#[test]
fn test_update_existing_bookmark_with_incorrect_commit() {
    let mut bookmarks = Bookmarks::new();
    let name_1 = create_bookmark_name("book");

    let mut txn = bookmarks.create_transaction(repo_zero());
    txn.create(&name_1, ones(), BookmarkUpdateReason::TestMove, None).unwrap();
    assert!(txn.commit(&mut bookmarks, TS));

    let mut txn = bookmarks.create_transaction(repo_zero());
    txn.update(&name_1, ones(), twos(), BookmarkUpdateReason::TestMove, None).unwrap();
    assert_eq!(txn.commit(&mut bookmarks, TS), false);
}

#[test]
fn update_with_wrong_predecessor_changes_nothing() {
    let mut bookmarks = Bookmarks::new();
    let name_1 = create_bookmark_name("book");
    let mut txn = bookmarks.create_transaction(repo_zero());
    txn.create(&name_1, ones(), BookmarkUpdateReason::TestMove, None).unwrap();
    assert!(txn.commit(&mut bookmarks, TS));

    let mut txn = bookmarks.create_transaction(repo_zero());
    txn.update(&name_1, ones(), twos(), BookmarkUpdateReason::TestMove, None).unwrap();
    assert!(!txn.commit(&mut bookmarks, TS));
    assert_eq!(bookmarks.get(repo_zero(), &name_1), Some(ones()));
    assert_eq!(bookmarks.read_next_bookmark_log_entries(repo_zero(), 0, 10).len(), 1);
}

#[test]
fn failed_precondition_leaves_whole_transaction_unapplied() {
    let mut bookmarks = Bookmarks::new();
    let a = create_bookmark_name("a");
    let b = create_bookmark_name("b");
    let mut txn = bookmarks.create_transaction(repo_zero());
    txn.create(&a, ones(), BookmarkUpdateReason::TestMove, None).unwrap();
    txn.delete(&b, twos(), BookmarkUpdateReason::TestMove, None).unwrap();
    assert!(!txn.commit(&mut bookmarks, TS));
    assert_eq!(bookmarks.get(repo_zero(), &a), None);
    assert_eq!(bookmarks.read_next_bookmark_log_entries(repo_zero(), 0, 10).len(), 0);
}

#[test]
fn test_force_delete() {
    let mut bookmarks = Bookmarks::new();
    let name_1 = create_bookmark_name("book");

    let mut txn = bookmarks.create_transaction(repo_zero());
    txn.force_delete(&name_1, BookmarkUpdateReason::TestMove, None).unwrap();
    assert!(txn.commit(&mut bookmarks, TS));

    assert_eq!(bookmarks.get(repo_zero(), &name_1), None);

    let mut txn = bookmarks.create_transaction(repo_zero());
    txn.create(&name_1, ones(), BookmarkUpdateReason::TestMove, None).unwrap();
    assert!(txn.commit(&mut bookmarks, TS));
    assert!(bookmarks.get(repo_zero(), &name_1).is_some());

    let mut txn = bookmarks.create_transaction(repo_zero());
    txn.force_delete(&name_1, BookmarkUpdateReason::TestMove, None).unwrap();
    assert!(txn.commit(&mut bookmarks, TS));

    assert_eq!(bookmarks.get(repo_zero(), &name_1), None);

    compare_log_entries(
        vec![Expected {
            id: 3,
            repo_id: repo_zero(),
            name: "book",
            to: None,
            from: None,
            reason: BookmarkUpdateReason::TestMove,
        }],
        bookmarks.read_next_bookmark_log_entries(repo_zero(), 2, 1),
    );
}

#[test]
fn test_delete() {
    let mut bookmarks = Bookmarks::new();
    let name_1 = create_bookmark_name("book");

    let mut txn = bookmarks.create_transaction(repo_zero());
    txn.delete(&name_1, ones(), BookmarkUpdateReason::TestMove, None).unwrap();
    assert_eq!(txn.commit(&mut bookmarks, TS), false);

    let mut txn = bookmarks.create_transaction(repo_zero());
    txn.create(&name_1, ones(), BookmarkUpdateReason::TestMove, None).unwrap();
    assert!(txn.commit(&mut bookmarks, TS));
    assert!(bookmarks.get(repo_zero(), &name_1).is_some());

    let mut txn = bookmarks.create_transaction(repo_zero());
    txn.delete(&name_1, ones(), BookmarkUpdateReason::TestMove, None).unwrap();
    assert!(txn.commit(&mut bookmarks, TS));

    compare_log_entries(
        vec![Expected {
            id: 2,
            repo_id: repo_zero(),
            name: "book",
            to: None,
            from: Some(ones()),
            reason: BookmarkUpdateReason::TestMove,
        }],
        bookmarks.read_next_bookmark_log_entries(repo_zero(), 1, 1),
    );
}

#[test]
fn test_delete_incorrect_hash() {
    let mut bookmarks = Bookmarks::new();
    let name_1 = create_bookmark_name("book");

    let mut txn = bookmarks.create_transaction(repo_zero());
    txn.create(&name_1, ones(), BookmarkUpdateReason::TestMove, None).unwrap();
    assert!(txn.commit(&mut bookmarks, TS));
    assert!(bookmarks.get(repo_zero(), &name_1).is_some());

    let mut txn = bookmarks.create_transaction(repo_zero());
    txn.delete(&name_1, twos(), BookmarkUpdateReason::TestMove, None).unwrap();
    assert_eq!(txn.commit(&mut bookmarks, TS), false);
}

#[test]
fn test_create_different_repos() {
    let mut bookmarks = Bookmarks::new();
    let name_1 = create_bookmark_name("book");

    let mut txn = bookmarks.create_transaction(repo_zero());
    txn.force_set(&name_1, ones(), BookmarkUpdateReason::TestMove, None).unwrap();
    assert!(txn.commit(&mut bookmarks, TS));

    // Updating value from another repo, should fail
    let mut txn = bookmarks.create_transaction(repo_one());
    txn.update(&name_1, twos(), ones(), BookmarkUpdateReason::TestMove, None).unwrap();
    assert_eq!(txn.commit(&mut bookmarks, TS), false);

    // Creating value should succeed
    let mut txn = bookmarks.create_transaction(repo_one());
    txn.create(&name_1, twos(), BookmarkUpdateReason::TestMove, None).unwrap();
    assert!(txn.commit(&mut bookmarks, TS));

    assert_eq!(bookmarks.get(repo_zero(), &name_1), Some(ones()));
    assert_eq!(bookmarks.get(repo_one(), &name_1), Some(twos()));

    // Force deleting should delete only from one repo
    let mut txn = bookmarks.create_transaction(repo_one());
    txn.force_delete(&name_1, BookmarkUpdateReason::TestMove, None).unwrap();
    assert!(txn.commit(&mut bookmarks, TS));
    assert_eq!(bookmarks.get(repo_zero(), &name_1), Some(ones()));

    // delete should fail for another repo
    let mut txn = bookmarks.create_transaction(repo_one());
    txn.delete(&name_1, ones(), BookmarkUpdateReason::TestMove, None).unwrap();
    assert_eq!(txn.commit(&mut bookmarks, TS), false);
}

#[test]
fn test_log_correct_order() {
    let mut bookmarks = Bookmarks::new();
    let name_1 = create_bookmark_name("book");
    let name_2 = create_bookmark_name("book2");

    let mut txn = bookmarks.create_transaction(repo_zero());
    txn.force_set(&name_1, ones(), BookmarkUpdateReason::TestMove, None).unwrap();
    assert!(txn.commit(&mut bookmarks, TS));

    let mut txn = bookmarks.create_transaction(repo_zero());
    txn.update(&name_1, twos(), ones(), BookmarkUpdateReason::TestMove, None).unwrap();
    assert!(txn.commit(&mut bookmarks, TS));

    let mut txn = bookmarks.create_transaction(repo_zero());
    txn.update(&name_1, threes(), twos(), BookmarkUpdateReason::TestMove, None).unwrap();
    assert!(txn.commit(&mut bookmarks, TS));

    let mut txn = bookmarks.create_transaction(repo_zero());
    txn.update(&name_1, fours(), threes(), BookmarkUpdateReason::TestMove, None).unwrap();
    assert!(txn.commit(&mut bookmarks, TS));

    let mut txn = bookmarks.create_transaction(repo_zero());
    txn.force_set(&name_2, ones(), BookmarkUpdateReason::TestMove, None).unwrap();
    assert!(txn.commit(&mut bookmarks, TS));

    let mut txn = bookmarks.create_transaction(repo_zero());
    txn.update(&name_1, fives(), fours(), BookmarkUpdateReason::TestMove, None).unwrap();
    assert!(txn.commit(&mut bookmarks, TS));

    let mut txn = bookmarks.create_transaction(repo_zero());
    txn.update(&name_1, sixes(), fives(), BookmarkUpdateReason::Pushrebase, None).unwrap();
    assert!(txn.commit(&mut bookmarks, TS));

    let log_entry = fetch_single(&bookmarks, repo_zero(), 0);
    assert_eq!(log_entry.to_changeset_id.unwrap(), ones());

    let log_entry = fetch_single(&bookmarks, repo_zero(), 1);
    assert_eq!(log_entry.to_changeset_id.unwrap(), twos());

    let log_entry = fetch_single(&bookmarks, repo_zero(), 2);
    assert_eq!(log_entry.to_changeset_id.unwrap(), threes());

    let log_entry = fetch_single(&bookmarks, repo_zero(), 3);
    assert_eq!(log_entry.to_changeset_id.unwrap(), fours());

    let log_entry = fetch_single(&bookmarks, repo_zero(), 5);
    assert_eq!(log_entry.to_changeset_id.unwrap(), fives());

    assert_eq!(bookmarks.read_next_bookmark_log_entries(repo_zero(), 0, 4).len(), 4);
    assert_eq!(bookmarks.read_next_bookmark_log_entries(repo_zero(), 0, 8).len(), 7);

    let entries = bookmarks.read_next_bookmark_log_entries(repo_zero(), 0, 6);
    let cs_ids: Vec<_> = entries.into_iter().map(|entry| entry.to_changeset_id.unwrap()).collect();
    assert_eq!(cs_ids, vec![ones(), twos(), threes(), fours(), ones(), fives()]);

    let entries = bookmarks.read_next_bookmark_log_entries_same_bookmark_and_reason(repo_zero(), 0, 6);
    // FOURS -> FIVES update is missing, because it has a different bookmark
    let cs_ids: Vec<_> = entries.into_iter().map(|entry| entry.to_changeset_id.unwrap()).collect();
    assert_eq!(cs_ids, vec![ones(), twos(), threes(), fours()]);

    let entries = bookmarks.read_next_bookmark_log_entries_same_bookmark_and_reason(repo_zero(), 5, 6);
    // FIVES -> SIXES update is missing, because it has a different reason
    let cs_ids: Vec<_> = entries.into_iter().map(|entry| entry.to_changeset_id.unwrap()).collect();
    assert_eq!(cs_ids, vec![fives()]);
}

#[test]
fn test_log_bundle_replay_data() {
    let mut bookmarks = Bookmarks::new();
    let name_1 = create_bookmark_name("book");
    let expected = RawBundleReplayData {
        bundle_handle: "handle".to_string(),
        commit_timestamps_json: "json_data".to_string(),
    };

    let mut txn = bookmarks.create_transaction(repo_zero());
    txn.force_set(&name_1, ones(), BookmarkUpdateReason::TestMove, Some(&expected)).unwrap();
    assert!(txn.commit(&mut bookmarks, TS));

    let log_entry = fetch_single(&bookmarks, repo_zero(), 0);
    let actual = log_entry.bundle_replay_data.unwrap();
    assert_eq!(actual.bundle_handle, expected.bundle_handle);
    assert_eq!(actual.commit_timestamps_json, expected.commit_timestamps_json);
}

#[test]
fn test_read_log_entry_many_repos() {
    let mut bookmarks = Bookmarks::new();
    let name_1 = create_bookmark_name("book");

    let mut txn = bookmarks.create_transaction(repo_zero());
    txn.force_set(&name_1, ones(), BookmarkUpdateReason::TestMove, None).unwrap();
    assert!(txn.commit(&mut bookmarks, TS));

    let mut txn = bookmarks.create_transaction(repo_one());
    txn.force_set(&name_1, ones(), BookmarkUpdateReason::TestMove, None).unwrap();
    assert!(txn.commit(&mut bookmarks, TS));

    assert_eq!(bookmarks.read_next_bookmark_log_entries(repo_zero(), 0, 1).len(), 1);
    assert_eq!(bookmarks.read_next_bookmark_log_entries(repo_one(), 0, 1).len(), 1);
    assert_eq!(bookmarks.read_next_bookmark_log_entries(repo_zero(), 1, 1).len(), 0);
    assert_eq!(bookmarks.read_next_bookmark_log_entries(repo_two(), 0, 1).len(), 0);
}

#[test]
fn test_update_reason_conversion() {
    let reasons = vec![
        BookmarkUpdateReason::Backsyncer,
        BookmarkUpdateReason::Blobimport,
        BookmarkUpdateReason::ManualMove,
        BookmarkUpdateReason::Push,
        BookmarkUpdateReason::Pushrebase,
        BookmarkUpdateReason::TestMove,
        BookmarkUpdateReason::XRepoSync,
    ];
    for reason in reasons {
        let tag = reason.as_tag();
        assert_eq!(BookmarkUpdateReason::from_tag(&tag), Some(reason));
    }
    assert_eq!(BookmarkUpdateReason::Pushrebase.as_tag(), "pushrebase");
    assert_eq!(BookmarkUpdateReason::from_tag(&"bogus".to_string()), None);
}

#[test]
fn test_list_bookmark_log_entries() {
    let mut bookmarks = Bookmarks::new();
    let name_1 = create_bookmark_name("book");

    let mut txn = bookmarks.create_transaction(repo_zero());
    txn.force_set(&name_1, ones(), BookmarkUpdateReason::TestMove, None).unwrap();
    assert!(txn.commit(&mut bookmarks, TS));

    let steps = [(twos(), ones()), (threes(), twos()), (fours(), threes()), (fives(), fours())];
    for (to, from) in steps.iter() {
        let mut txn = bookmarks.create_transaction(repo_zero());
        txn.update(&name_1, *to, *from, BookmarkUpdateReason::TestMove, None).unwrap();
        assert!(txn.commit(&mut bookmarks, TS));
    }

    assert_eq!(
        bookmarks
            .list_bookmark_log_entries(repo_zero(), &name_1, 3, None)
            .into_iter()
            .map(|(cs, rs, _ts)| (cs, rs))
            .collect::<Vec<_>>(),
        vec![
            (Some(fives()), BookmarkUpdateReason::TestMove),
            (Some(fours()), BookmarkUpdateReason::TestMove),
            (Some(threes()), BookmarkUpdateReason::TestMove),
        ]
    );

    assert_eq!(
        bookmarks
            .list_bookmark_log_entries(repo_zero(), &name_1, 3, Some(1))
            .into_iter()
            .map(|(cs, rs, _ts)| (cs, rs))
            .collect::<Vec<_>>(),
        vec![
            (Some(fours()), BookmarkUpdateReason::TestMove),
            (Some(threes()), BookmarkUpdateReason::TestMove),
            (Some(twos()), BookmarkUpdateReason::TestMove),
        ]
    );
}

#[test]
fn list_log_entries_past_the_end_is_empty() {
    let mut bookmarks = Bookmarks::new();
    let name_1 = create_bookmark_name("book");
    let mut txn = bookmarks.create_transaction(repo_zero());
    txn.force_set(&name_1, ones(), BookmarkUpdateReason::TestMove, None).unwrap();
    assert!(txn.commit(&mut bookmarks, TS));
    assert_eq!(bookmarks.list_bookmark_log_entries(repo_zero(), &name_1, 3, Some(5)).len(), 0);
    let other = create_bookmark_name("other");
    assert_eq!(bookmarks.list_bookmark_log_entries(repo_zero(), &other, 3, None).len(), 0);
    let entries = bookmarks.list_bookmark_log_entries(repo_zero(), &name_1, 1, None);
    assert_eq!(entries, vec![(Some(ones()), BookmarkUpdateReason::TestMove, TS)]);
}

#[test]
fn create_then_get_advances_log_by_one() {
    let mut bookmarks = Bookmarks::new();
    let a = create_bookmark_name("a");
    let b = create_bookmark_name("b");
    let mut txn = bookmarks.create_transaction(repo_zero());
    txn.create(&a, ones(), BookmarkUpdateReason::Push, None).unwrap();
    assert!(txn.commit(&mut bookmarks, TS));
    let before = bookmarks.read_next_bookmark_log_entries(repo_zero(), 0, 100).len();
    let mut txn = bookmarks.create_transaction(repo_zero());
    txn.create(&b, twos(), BookmarkUpdateReason::Push, None).unwrap();
    assert!(txn.commit(&mut bookmarks, TS));
    assert_eq!(bookmarks.get(repo_zero(), &b), Some(twos()));
    let log = bookmarks.read_next_bookmark_log_entries(repo_zero(), 0, 100);
    assert_eq!(log.len(), before + 1);
    assert_eq!(log.last().unwrap().id, before as u64 + 1);
}

#[test]
fn bookmark_names_must_be_nonempty() {
    assert_eq!(BookmarkName::new("").err(), Some(BookmarkError::InvalidName));
    assert_eq!(BookmarkName::new("a:b").err(), Some(BookmarkError::InvalidName));
    assert_eq!(BookmarkName::new("a\nb").err(), Some(BookmarkError::InvalidName));
    assert_eq!(BookmarkName::new("caf\u{e9}").unwrap().as_bytes(), "caf\u{e9}".as_bytes());
    assert!(BookmarkName::new("release/1.0").is_ok());
}

#[test]
fn same_bookmark_and_reason_from_empty_log() {
    let bookmarks = Bookmarks::new();
    assert_eq!(bookmarks.read_next_bookmark_log_entries_same_bookmark_and_reason(repo_zero(), 0, 5).len(), 0);
}

fn create_prefix(book: &str) -> BookmarkPrefix {
    BookmarkPrefix::new(book)
}

fn listed(v: Vec<(Bookmark, ChangesetId)>) -> Vec<(String, BookmarkKind, ChangesetId)> {
    v.into_iter()
        .map(|(b, c)| (String::from_utf8(b.name.as_bytes().to_vec()).unwrap(), b.kind, c))
        .collect()
}

#[test]
fn test_list_by_prefix() {
    let mut bookmarks = Bookmarks::new();
    let name_1 = create_bookmark_name("book1");
    let name_2 = create_bookmark_name("book2");

    let mut txn = bookmarks.create_transaction(repo_zero());
    txn.create(&name_1, ones(), BookmarkUpdateReason::TestMove, None).unwrap();
    txn.create(&name_2, twos(), BookmarkUpdateReason::TestMove, None).unwrap();
    assert!(txn.commit(&mut bookmarks, TS));

    let prefix = create_prefix("book");
    let name_1_prefix = create_prefix("book1");
    let name_2_prefix = create_prefix("book2");

    assert_eq!(
        listed(bookmarks.list(repo_zero(), &prefix, &BookmarkKind::all(), &BookmarkPagination::FromStart, std::u64::MAX)),
        vec![
            ("book1".to_string(), BookmarkKind::PullDefaultPublishing, ones()),
            ("book2".to_string(), BookmarkKind::PullDefaultPublishing, twos()),
        ]
    );

    assert_eq!(
        listed(bookmarks.list(
            repo_zero(),
            &name_1_prefix,
            &BookmarkKind::all(),
            &BookmarkPagination::FromStart,
            std::u64::MAX
        )),
        vec![("book1".to_string(), BookmarkKind::PullDefaultPublishing, ones())]
    );

    assert_eq!(
        listed(bookmarks.list(
            repo_zero(),
            &name_2_prefix,
            &BookmarkKind::all(),
            &BookmarkPagination::FromStart,
            std::u64::MAX
        )),
        vec![("book2".to_string(), BookmarkKind::PullDefaultPublishing, twos())]
    );
}

#[test]
fn list_orders_by_name_and_honours_kinds_pagination_and_limit() {
    let mut bookmarks = Bookmarks::new();
    let mut txn = bookmarks.create_transaction(repo_zero());
    txn.create(&create_bookmark_name("c"), threes(), BookmarkUpdateReason::Push, None).unwrap();
    txn.create(&create_bookmark_name("a"), ones(), BookmarkUpdateReason::Push, None).unwrap();
    txn.create_scratch(&create_bookmark_name("b"), twos()).unwrap();
    txn.create(&create_bookmark_name("d"), fours(), BookmarkUpdateReason::Push, None).unwrap();
    assert!(txn.commit(&mut bookmarks, TS));

    let all = create_prefix("");
    let names = |v: Vec<(Bookmark, ChangesetId)>| listed(v).into_iter().map(|e| e.0).collect::<Vec<_>>();
    assert_eq!(
        names(bookmarks.list(repo_zero(), &all, &BookmarkKind::all(), &BookmarkPagination::FromStart, 10)),
        vec!["a", "b", "c", "d"]
    );
    assert_eq!(
        names(bookmarks.list(repo_zero(), &all, &vec![BookmarkKind::Scratch], &BookmarkPagination::FromStart, 10)),
        vec!["b"]
    );
    assert_eq!(
        names(bookmarks.list(
            repo_zero(),
            &all,
            &BookmarkKind::all(),
            &BookmarkPagination::After(create_bookmark_name("b")),
            10
        )),
        vec!["c", "d"]
    );
    assert_eq!(
        names(bookmarks.list(repo_zero(), &all, &BookmarkKind::all(), &BookmarkPagination::FromStart, 2)),
        vec!["a", "b"]
    );
    assert_eq!(bookmarks.list(repo_zero(), &all, &BookmarkKind::all(), &BookmarkPagination::FromStart, 0).len(), 0);
    assert_eq!(bookmarks.list(repo_one(), &all, &BookmarkKind::all(), &BookmarkPagination::FromStart, 10).len(), 0);
}
