use mononoke_core::commits::{bytes_lt, text_with_header, CommitError, HgCommit, HgCommits};
use mononoke_core::nameset::VertexName;
use sha1::{Digest, Sha1};

fn name(bytes: &[u8]) -> VertexName {
    VertexName::copy_from(bytes)
}

fn hashed(raw: &[u8], parents: &[&[u8]]) -> Vec<u8> {
    let ps: Vec<VertexName> = parents.iter().map(|p| name(p)).collect();
    Sha1::digest(&text_with_header(raw, &ps)).to_vec()
}

fn commit(raw: &[u8], parents: &[&[u8]]) -> HgCommit {
    HgCommit {
        vertex: name(&hashed(raw, parents)),
        parents: parents.iter().map(|p| name(p)).collect(),
        raw_text: raw.to_vec(),
    }
}

#[test]
fn header_orders_parents_ascending() {
    let a = [0x01u8; 20];
    let b = [0x02u8; 20];
    let t1 = text_with_header(b"x", &vec![name(&b), name(&a)]);
    let t2 = text_with_header(b"x", &vec![name(&a), name(&b)]);
    assert_eq!(t1, t2);
    assert_eq!(&t1[..20], &a[..]);
    assert_eq!(&t1[20..40], &b[..]);
    assert_eq!(&t1[40..], b"x");
}

#[test]
fn header_uses_null_ids_for_missing_parents() {
    let t = text_with_header(b"root", &vec![]);
    assert_eq!(t.len(), 44);
    assert!(t[..40].iter().all(|&b| b == 0));
    let p = [0x05u8; 20];
    let t = text_with_header(b"", &vec![name(&p)]);
    assert_eq!(&t[..20], &[0u8; 20][..]);
    assert_eq!(&t[20..40], &p[..]);
}

#[test]
fn known_sha1_of_root_commit() {
    // SHA-1 of forty zero bytes followed by "a".
    let expected = Sha1::digest(&[&[0u8; 40][..], b"a"].concat()).to_vec();
    assert_eq!(hashed(b"a", &[]), expected);
    assert_ne!(hashed(b"a", &[]), hashed(b"b", &[]));
}

#[test]
fn add_and_read_commits() {
    let mut store = HgCommits::new();
    let root = commit(b"root", &[]);
    let root_id = root.vertex.bytes.clone();
    let child = commit(b"child", &[&root_id]);
    let child_id = child.vertex.bytes.clone();
    // children may come before their parents in a batch
    store.add_commits(&vec![child, root]).unwrap();
    assert!(store.contains_vertex_name(&name(&root_id)));
    assert!(store.contains_vertex_name(&name(&child_id)));
    let all: Vec<Vec<u8>> = store.all().into_iter().map(|n| n.bytes).collect();
    assert_eq!(all, vec![root_id.clone(), child_id.clone()]);
    assert_eq!(store.get_commit_raw_text(&name(&child_id)).unwrap(), Some(b"child".to_vec()));
    assert_eq!(store.get_commit_raw_text(&name(&root_id)).unwrap(), Some(b"root".to_vec()));
    let parents: Vec<Vec<u8>> = store.parent_names(&name(&child_id)).unwrap().into_iter().map(|n| n.bytes).collect();
    assert_eq!(parents, vec![root_id]);
}

#[test]
fn missing_commit_reads_as_none() {
    let store = HgCommits::new();
    assert_eq!(store.get_commit_raw_text(&name(&[7u8; 20])).unwrap(), None);
    assert!(matches!(store.get_commit_raw_text(&name(&[7u8; 3])), Err(CommitError::InvalidId)));
    assert!(store.parent_names(&name(&[7u8; 20])).is_none());
}

#[test]
fn hash_mismatch_is_refused() {
    let mut store = HgCommits::new();
    let mut c = commit(b"text", &[]);
    let good = c.vertex.bytes.clone();
    c.vertex = name(&[0xabu8; 20]);
    match store.add_commits(&vec![c]) {
        Err(CommitError::HashMismatch { expected, actual }) => {
            assert_eq!(expected, vec![0xabu8; 20]);
            assert_eq!(actual, good);
        }
        other => panic!("unexpected {:?}", other),
    }
    assert!(!store.contains_vertex_name(&name(&[0xabu8; 20])));
}

#[test]
fn unknown_parent_is_refused() {
    let mut store = HgCommits::new();
    let ghost_parent = [0x42u8; 20];
    let c = commit(b"orphan", &[&ghost_parent]);
    match store.add_commits(&vec![c]) {
        Err(CommitError::UnknownParent { parent, .. }) => assert_eq!(parent, ghost_parent.to_vec()),
        other => panic!("unexpected {:?}", other),
    }
}

#[test]
fn short_parent_is_refused() {
    let mut store = HgCommits::new();
    let c = commit(b"x", &[&[1u8, 2, 3]]);
    assert!(matches!(store.add_commits(&vec![c]), Err(CommitError::InvalidParent { .. })));
}

#[test]
fn byte_order() {
    assert!(bytes_lt(b"ab", b"b"));
    assert!(bytes_lt(b"a", b"ab"));
    assert!(!bytes_lt(b"ab", b"ab"));
    assert!(!bytes_lt(b"b", b"ab"));
}

fn ids(v: Vec<VertexName>) -> Vec<Vec<u8>> {
    v.into_iter().map(|n| n.bytes).collect()
}

/// root <- a <- c, root <- b <- c (c is a merge of a and b), d unrelated.
fn diamond() -> (HgCommits, Vec<Vec<u8>>) {
    let mut store = HgCommits::new();
    let root = commit(b"root", &[]);
    let r = root.vertex.bytes.clone();
    let a = commit(b"a", &[&r]);
    let av = a.vertex.bytes.clone();
    let b = commit(b"b", &[&r]);
    let bv = b.vertex.bytes.clone();
    let c = commit(b"c", &[&av, &bv]);
    let cv = c.vertex.bytes.clone();
    let d = commit(b"d", &[]);
    let dv = d.vertex.bytes.clone();
    store.add_commits(&vec![root, a, b, c, d]).unwrap();
    (store, vec![r, av, bv, cv, dv])
}

#[test]
fn ancestry_in_a_diamond() {
    let (store, v) = diamond();
    assert_eq!(store.is_ancestor(&name(&v[0]), &name(&v[3])).unwrap(), true);
    assert_eq!(store.is_ancestor(&name(&v[2]), &name(&v[3])).unwrap(), true);
    assert_eq!(store.is_ancestor(&name(&v[3]), &name(&v[3])).unwrap(), true);
    assert_eq!(store.is_ancestor(&name(&v[3]), &name(&v[0])).unwrap(), false);
    assert_eq!(store.is_ancestor(&name(&v[4]), &name(&v[3])).unwrap(), false);
    assert_eq!(store.is_ancestor(&name(&v[1]), &name(&v[2])).unwrap(), false);
    assert!(matches!(
        store.is_ancestor(&name(&[9u8; 20]), &name(&v[3])),
        Err(CommitError::UnknownVertex { .. })
    ));
    let mut anc = ids(store.ancestors(&vec![name(&v[1])]));
    anc.sort();
    let mut expected = vec![v[0].clone(), v[1].clone()];
    expected.sort();
    assert_eq!(anc, expected);
    assert_eq!(store.ancestors(&vec![name(&v[3]), name(&v[4])]).len(), 5);
}

#[test]
fn first_parent_chain() {
    let (store, v) = diamond();
    assert_eq!(store.first_ancestor_nth(&name(&v[3]), 0).unwrap().bytes, v[3]);
    let p = store.first_ancestor_nth(&name(&v[3]), 1).unwrap().bytes;
    assert!(p == v[1] || p == v[2]);
    assert_eq!(store.first_ancestor_nth(&name(&v[3]), 2).unwrap().bytes, v[0]);
    assert!(matches!(store.first_ancestor_nth(&name(&v[3]), 3), Err(CommitError::NoSuchAncestor)));
    assert!(matches!(store.first_ancestor_nth(&name(&[9u8; 20]), 0), Err(CommitError::UnknownVertex { .. })));
}

#[test]
fn heads_of_a_set() {
    let (store, v) = diamond();
    let all: Vec<VertexName> = v.iter().map(|x| name(x)).collect();
    let mut h = ids(store.heads(&all));
    h.sort();
    let mut expected = vec![v[3].clone(), v[4].clone()];
    expected.sort();
    assert_eq!(h, expected);
    let h = ids(store.heads(&vec![name(&v[0]), name(&v[1]), name(&v[2])]));
    assert_eq!(h, vec![v[1].clone(), v[2].clone()]);
}

fn sorted(mut v: Vec<Vec<u8>>) -> Vec<Vec<u8>> {
    v.sort();
    v
}

#[test]
fn descendants_range_and_only() {
    let (store, v) = diamond();
    assert_eq!(
        sorted(ids(store.descendants(&vec![name(&v[1])]))),
        sorted(vec![v[1].clone(), v[3].clone()])
    );
    assert_eq!(store.descendants(&vec![name(&v[0])]).len(), 4);
    // range(root, c) is the whole diamond; range(a, c) is a and c
    assert_eq!(store.range(&vec![name(&v[0])], &vec![name(&v[3])]).len(), 4);
    assert_eq!(
        sorted(ids(store.range(&vec![name(&v[1])], &vec![name(&v[3])]))),
        sorted(vec![v[1].clone(), v[3].clone()])
    );
    assert_eq!(store.range(&vec![name(&v[1])], &vec![name(&v[2])]).len(), 0);
    // only(c, a) is b and c
    assert_eq!(
        sorted(ids(store.only(&vec![name(&v[3])], &vec![name(&v[1])]))),
        sorted(vec![v[2].clone(), v[3].clone()])
    );
    assert_eq!(store.only(&vec![name(&v[1])], &vec![name(&v[3])]).len(), 0);
}

#[test]
fn sort_and_common_ancestors() {
    let (store, v) = diamond();
    // sort puts parents first and drops unknown names
    let s = ids(store.sort(&vec![name(&v[3]), name(&[9u8; 20]), name(&v[0]), name(&v[2])]));
    assert_eq!(s, vec![v[0].clone(), v[2].clone(), v[3].clone()]);
    // common ancestors of a and b: the root
    assert_eq!(ids(store.common_ancestors(&vec![name(&v[1]), name(&v[2])])), vec![v[0].clone()]);
    assert_eq!(ids(store.gca_all(&vec![name(&v[1]), name(&v[2])])), vec![v[0].clone()]);
    assert_eq!(store.gca_one(&vec![name(&v[3]), name(&v[1])]).unwrap().bytes, v[1]);
    assert!(store.gca_one(&vec![name(&v[3]), name(&v[4])]).is_none());
    assert_eq!(store.common_ancestors(&vec![]).len(), 0);
    assert_eq!(store.common_ancestors(&vec![name(&v[3])]).len(), 4);
}

fn hex(b: &[u8]) -> String {
    b.iter().map(|x| format!("{:02x}", x)).collect()
}

#[test]
fn lookup_by_hex_prefix() {
    let (store, v) = diamond();
    for x in v.iter() {
        let h = hex(x);
        assert_eq!(ids(store.vertexes_by_hex_prefix(h.as_bytes(), 10)), vec![x.clone()]);
        let short = &h.as_bytes()[..3];
        let expected: Vec<Vec<u8>> = ids(store.all()).into_iter().filter(|y| hex(y).as_bytes().starts_with(short)).collect();
        assert_eq!(ids(store.vertexes_by_hex_prefix(short, 10)), expected);
    }
    assert_eq!(ids(store.vertexes_by_hex_prefix(b"", 2)), ids(store.all())[..2].to_vec());
    assert_eq!(store.vertexes_by_hex_prefix(b"", 0).len(), 0);
    let too_long = format!("{}0", hex(&v[0]));
    assert_eq!(store.vertexes_by_hex_prefix(too_long.as_bytes(), 10).len(), 0);
    assert_eq!(store.vertexes_by_hex_prefix(b"zz", 10).len(), 0);
}

#[test]
fn children_and_roots() {
    let (store, v) = diamond();
    assert_eq!(sorted(ids(store.children(&vec![name(&v[0])]))), sorted(vec![v[1].clone(), v[2].clone()]));
    assert_eq!(ids(store.children(&vec![name(&v[1]), name(&v[2])])), vec![v[3].clone()]);
    assert_eq!(store.children(&vec![name(&v[3])]).len(), 0);
    let all: Vec<VertexName> = v.iter().map(|x| name(x)).collect();
    assert_eq!(sorted(ids(store.roots(&all))), sorted(vec![v[0].clone(), v[4].clone()]));
    assert_eq!(ids(store.roots(&vec![name(&v[3]), name(&v[1])])), vec![v[1].clone()]);
}

#[test]
fn parents_of_a_set() {
    let (store, v) = diamond();
    assert_eq!(ids(store.parents(&vec![name(&v[3])])), vec![v[1].clone(), v[2].clone()]);
    assert_eq!(ids(store.parents(&vec![name(&v[1]), name(&v[2])])), vec![v[0].clone()]);
    assert_eq!(store.parents(&vec![name(&v[0]), name(&v[4])]).len(), 0);
}

#[test]
fn failed_batch_leaves_no_trace() {
    let mut store = HgCommits::new();
    let root = commit(b"root", &[]);
    let root_id = root.vertex.bytes.clone();
    let orphan = commit(b"orphan", &[&[0x42u8; 20]]);
    assert!(matches!(store.add_commits(&vec![root, orphan]), Err(CommitError::UnknownParent { .. })));
    assert!(!store.contains_vertex_name(&name(&root_id)));
    assert_eq!(store.get_commit_raw_text(&name(&root_id)).unwrap(), None);
    assert_eq!(store.all().len(), 0);
}

#[test]
fn bad_hash_is_reported_before_unknown_parent() {
    let orphan = commit(b"orphan", &[&[0x42u8; 20]]);
    let mut bad = commit(b"bad", &[]);
    bad.vertex = name(&[0xcdu8; 20]);
    let mut store = HgCommits::new();
    assert!(matches!(store.add_commits(&vec![orphan, bad]), Err(CommitError::HashMismatch { .. })));
    assert_eq!(store.all().len(), 0);
}

#[test]
fn swapped_parents_give_the_same_name() {
    let a = [0x01u8; 20];
    let b = [0x02u8; 20];
    assert_eq!(hashed(b"m", &[&a, &b]), hashed(b"m", &[&b, &a]));
    let mut store = HgCommits::new();
    let ra = commit(b"a", &[]);
    let rb = commit(b"b", &[]);
    let (av, bv) = (ra.vertex.bytes.clone(), rb.vertex.bytes.clone());
    let mut merge = commit(b"merge", &[&av, &bv]);
    merge.parents = vec![name(&bv), name(&av)];
    store.add_commits(&vec![ra, rb, merge]).unwrap();
    assert_eq!(store.all().len(), 3);
}

#[test]
fn payload_reads_back_after_add() {
    let mut store = HgCommits::new();
    let c = commit(b"payload bytes", &[]);
    let v = c.vertex.bytes.clone();
    store.add_commits(&vec![c]).unwrap();
    assert_eq!(store.get_commit_raw_text(&name(&v)).unwrap(), Some(b"payload bytes".to_vec()));
    // adding it again succeeds and changes nothing
    store.add_commits(&vec![commit(b"payload bytes", &[])]).unwrap();
    assert_eq!(store.all().len(), 1);
}

#[test]
fn heads_ancestors_and_only_both() {
    let (store, v) = diamond();
    assert_eq!(ids(store.heads_ancestors(&vec![name(&v[1]), name(&v[2])])), vec![v[1].clone(), v[2].clone()]);
    assert_eq!(ids(store.heads_ancestors(&vec![name(&v[3]), name(&v[0])])), vec![v[3].clone()]);
    let (only, anc) = store.only_both(&vec![name(&v[3])], &vec![name(&v[1])]);
    assert_eq!(sorted(ids(only)), sorted(vec![v[2].clone(), v[3].clone()]));
    assert_eq!(sorted(ids(anc)), sorted(vec![v[0].clone(), v[1].clone()]));
}

#[test]
fn parents_may_come_anywhere_in_the_batch() {
    let mut store = HgCommits::new();
    let a = commit(b"a", &[]);
    let av = a.vertex.bytes.clone();
    let b = commit(b"b", &[&av]);
    let bv = b.vertex.bytes.clone();
    let c = commit(b"c", &[&bv]);
    let cv = c.vertex.bytes.clone();
    store.add_commits(&vec![c, b, a]).unwrap();
    assert_eq!(ids(store.all()), vec![av, bv, cv.clone()]);
    assert!(matches!(store.get_commit_raw_text(&name(&cv)), Ok(Some(_))));
}
