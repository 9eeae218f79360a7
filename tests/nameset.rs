use mononoke_core::nameset::{Hints, NameSet, VertexName, FLAG_EMPTY, FLAG_ID_ASC, FLAG_ID_DESC};

fn intersection(a: &[u8], b: &[u8]) -> NameSet {
    let a = NameSet::from_bytes(a);
    let b = NameSet::from_bytes(b);
    a.intersection(b)
}

fn shorten_name(name: VertexName) -> String {
    name.bytes.iter().map(|b| format!("{:02x}", b)).collect::<String>()
}

fn shorten_iter(names: Vec<VertexName>) -> Vec<String> {
    names.into_iter().map(shorten_name).collect()
}

fn to_name(b: u8) -> VertexName {
    VertexName::copy_from(&[b])
}

fn hints(flags: u32, min_id: Option<u64>, max_id: Option<u64>, id_map: Option<u64>) -> Hints {
    Hints { flags, min_id, max_id, id_map }
}

fn names(bytes: &[u8]) -> Vec<VertexName> {
    bytes.iter().map(|&b| to_name(b)).collect()
}

/// Iteration both ways, membership, count, emptiness, first and last agree.
fn check_invariants(set: &NameSet) {
    let fwd: Vec<Vec<u8>> = set.iter().into_iter().map(|n| n.bytes).collect();
    let mut rev: Vec<Vec<u8>> = set.iter_rev().into_iter().map(|n| n.bytes).collect();
    rev.reverse();
    assert_eq!(fwd, rev);
    assert_eq!(fwd.len(), set.count());
    assert_eq!(fwd.is_empty(), set.is_empty());
    for n in fwd.iter() {
        assert!(set.contains(&VertexName::copy_from(n)));
    }
    let mut dedup = fwd.clone();
    dedup.sort();
    dedup.dedup();
    assert_eq!(dedup.len(), fwd.len());
    assert_eq!(set.first().map(|n| n.bytes), fwd.first().cloned());
    assert_eq!(set.last().map(|n| n.bytes), fwd.last().cloned());
}

#[test]
fn test_intersection_basic() {
    let set = intersection(b"\x11\x33\x55\x22\x44", b"\x44\x33\x66");
    check_invariants(&set);
    assert_eq!(shorten_iter(set.iter()), ["33", "44"]);
    assert_eq!(shorten_iter(set.iter_rev()), ["44", "33"]);
    assert!(!set.is_empty());
    assert_eq!(set.count(), 2);
    assert_eq!(shorten_name(set.first().unwrap()), "33");
    assert_eq!(shorten_name(set.last().unwrap()), "44");
    for &b in b"\x11\x22\x55\x66".iter() {
        assert!(!set.contains(&to_name(b)));
    }
}

#[test]
fn intersection_membership_is_conjunction() {
    let a: &[u8] = b"\x01\x02\x03\x04\x05";
    let b: &[u8] = b"\x05\x03\x07";
    let set = intersection(a, b);
    for x in 0u8..10 {
        assert_eq!(set.contains(&to_name(x)), a.contains(&x) && b.contains(&x));
    }
}

#[test]
fn intersection_count_bounded_by_operands() {
    let set = intersection(b"\x01\x01\x02\x03", b"\x03\x02\x02\x09");
    assert_eq!(set.count(), 2);
    assert!(set.count() <= 3);
    assert_eq!(shorten_iter(set.iter()), ["02", "03"]);
}

#[test]
fn intersection_of_disjoint_is_empty() {
    let set = intersection(b"\x01\x02", b"\x03\x04");
    assert!(set.is_empty());
    assert!(set.first().is_none());
    assert!(set.last().is_none());
    assert_eq!(set.count(), 0);
}

#[test]
fn empty_operands() {
    let set = intersection(b"", b"\x01");
    assert!(set.is_empty());
    let u = NameSet::from_bytes(b"").union(NameSet::from_bytes(b""));
    assert_eq!(u.count(), 0);
}

#[test]
fn union_keeps_left_order_then_new_right_names() {
    let u = NameSet::from_bytes(b"\x03\x01").union(NameSet::from_bytes(b"\x02\x01\x04"));
    assert_eq!(shorten_iter(u.iter()), ["03", "01", "02", "04"]);
    assert_eq!(shorten_iter(u.iter_rev()), ["04", "02", "01", "03"]);
    assert!(u.contains(&to_name(4)));
    assert!(!u.contains(&to_name(5)));
}

#[test]
fn difference_removes_right_names() {
    let d = NameSet::from_bytes(b"\x01\x02\x03\x04").difference(NameSet::from_bytes(b"\x02\x04\x06"));
    assert_eq!(shorten_iter(d.iter()), ["01", "03"]);
    assert!(!d.contains(&to_name(2)));
    assert!(d.contains(&to_name(3)));
}

#[test]
fn set_algebra_agrees_with_naive_enumeration_in_any_order() {
    let orders: [(&[u8], &[u8]); 3] = [
        (b"\x01\x02\x03\x05", b"\x05\x04\x03"),
        (b"\x05\x03\x02\x01", b"\x03\x04\x05"),
        (b"\x03\x01\x05\x02", b"\x04\x05\x03"),
    ];
    for (a, b) in orders.iter() {
        let i = NameSet::from_bytes(a).intersection(NameSet::from_bytes(b));
        let u = NameSet::from_bytes(a).union(NameSet::from_bytes(b));
        let d = NameSet::from_bytes(a).difference(NameSet::from_bytes(b));
        let mut iv: Vec<u8> = i.iter().iter().map(|n| n.bytes[0]).collect();
        let mut uv: Vec<u8> = u.iter().iter().map(|n| n.bytes[0]).collect();
        let mut dv: Vec<u8> = d.iter().iter().map(|n| n.bytes[0]).collect();
        iv.sort();
        uv.sort();
        dv.sort();
        assert_eq!(iv, vec![3, 5]);
        assert_eq!(uv, vec![1, 2, 3, 4, 5]);
        assert_eq!(dv, vec![1, 2]);
    }
}

#[test]
fn static_set_drops_repeated_names() {
    let s = NameSet::from_names(names(b"\x07\x07\x08\x07"), Hints::new());
    assert_eq!(shorten_iter(s.iter()), ["07", "08"]);
    assert_eq!(s.count(), 2);
}

#[test]
fn intersection_hints_with_compatible_id_maps() {
    let l = NameSet::from_names(names(b"\x01"), hints(FLAG_ID_DESC | FLAG_ID_ASC, Some(5), Some(10), Some(1)));
    let r = NameSet::from_names(names(b"\x01"), hints(FLAG_ID_DESC, Some(7), Some(20), Some(1)));
    let h = l.intersection(r).hints();
    assert!(h.contains_flag(FLAG_ID_DESC));
    assert!(!h.contains_flag(FLAG_ID_ASC));
    assert_eq!(h.flags, FLAG_ID_DESC);
    assert_eq!(h.min_id, Some(7));
    assert_eq!(h.max_id, Some(10));
    assert_eq!(h.id_map, Some(1));
}

#[test]
fn intersection_hints_with_incompatible_id_maps() {
    let l = NameSet::from_names(names(b"\x01"), hints(0, None, Some(10), Some(1)));
    let r = NameSet::from_names(names(b"\x01"), hints(0, Some(7), Some(3), Some(2)));
    let h = l.intersection(r).hints();
    assert_eq!(h.min_id, None);
    assert_eq!(h.max_id, Some(10));
    assert_eq!(h.id_map, Some(1));
}

#[test]
fn intersection_hints_take_right_bound_when_compatible() {
    let l = NameSet::from_names(names(b"\x01"), hints(FLAG_EMPTY, None, None, Some(4)));
    let r = NameSet::from_names(names(b"\x01"), hints(FLAG_EMPTY, Some(2), Some(9), Some(4)));
    let h = l.intersection(r).hints();
    assert_eq!(h.flags, FLAG_EMPTY);
    assert_eq!(h.min_id, Some(2));
    assert_eq!(h.max_id, Some(9));
}

#[test]
fn union_and_difference_hints() {
    let l = NameSet::from_names(names(b"\x01"), hints(FLAG_EMPTY | FLAG_ID_ASC, Some(5), Some(10), Some(1)));
    let r = NameSet::from_names(names(b"\x02"), hints(FLAG_EMPTY, Some(2), Some(8), Some(1)));
    let h = l.union(r).hints();
    assert_eq!(h.flags, FLAG_EMPTY);
    assert_eq!(h.min_id, Some(2));
    assert_eq!(h.max_id, Some(10));
    let l = NameSet::from_names(names(b"\x01"), hints(FLAG_ID_ASC, Some(5), Some(10), Some(1)));
    let r = NameSet::from_names(names(b"\x02"), hints(0, Some(2), Some(8), Some(3)));
    let h = l.difference(r).hints();
    assert_eq!(h.flags, FLAG_ID_ASC);
    assert_eq!(h.min_id, Some(5));
    assert_eq!(h.max_id, Some(10));
}

/// Many small inputs from a fixed linear congruential sequence.
fn inputs() -> Vec<(Vec<u8>, Vec<u8>)> {
    let mut state: u32 = 12345;
    let mut next = move || {
        state = state.wrapping_mul(1103515245).wrapping_add(12345);
        (state >> 16) as u8
    };
    let mut out = Vec::new();
    for _ in 0..200 {
        let la = (next() % 7) as usize;
        let lb = (next() % 7) as usize;
        let a: Vec<u8> = (0..la).map(|_| next() % 8).collect();
        let b: Vec<u8> = (0..lb).map(|_| next() % 8).collect();
        out.push((a, b));
    }
    out
}

#[test]
fn intersection_properties_on_many_inputs() {
    for (a, b) in inputs() {
        let set = intersection(&a, &b);
        check_invariants(&set);
        let count = set.count();
        assert!(count <= a.len());
        assert!(count <= b.len());
        let mut contains_a: Vec<u8> = a.iter().copied().filter(|&x| set.contains(&to_name(x))).collect();
        let mut contains_b: Vec<u8> = b.iter().copied().filter(|&x| set.contains(&to_name(x))).collect();
        contains_a.sort();
        contains_a.dedup();
        contains_b.sort();
        contains_b.dedup();
        assert_eq!(contains_a, contains_b);
        for x in 0u8..8 {
            assert_eq!(set.contains(&to_name(x)), a.contains(&x) && b.contains(&x));
        }
        let it: Vec<u8> = set.iter().iter().map(|n| n.bytes[0]).collect();
        let mut rev: Vec<u8> = set.iter_rev().iter().map(|n| n.bytes[0]).collect();
        rev.reverse();
        assert_eq!(it, rev);
        assert_eq!(it.len(), count);
    }
}
