//! Lazy sets of vertex names and their combinators (intersection, union,
//! difference). A set is modelled by the sequence of names its iteration
//! yields; `contains` agrees with membership in that sequence, and no name
//! is yielded twice.
use vstd::prelude::*;
use vstd::seq_lib::{lemma_no_dup_in_concat, lemma_seq_concat_contains_all_elements};

verus! {

/// An opaque vertex name (typically a commit hash).
pub struct VertexName {
    pub bytes: Vec<u8>,
}

impl View for VertexName {
    type V = Seq<u8>;

    open spec fn view(&self) -> Seq<u8> {
        self.bytes@
    }
}

/// The byte strings of a sequence of names.
pub open spec fn views(s: Seq<VertexName>) -> Seq<Seq<u8>> {
    s.map_values(|n: VertexName| n@)
}

/// The sequence with every element after its first occurrence removed.
pub open spec fn dedup(s: Seq<Seq<u8>>) -> Seq<Seq<u8>>
    decreases s.len(),
{
    if s.len() == 0 {
        s
    } else {
        let d = dedup(s.drop_last());
        if d.contains(s.last()) {
            d
        } else {
            d.push(s.last())
        }
    }
}

pub proof fn lemma_dedup(s: Seq<Seq<u8>>)
    ensures
        dedup(s).no_duplicates(),
        forall|x: Seq<u8>| dedup(s).contains(x) <==> s.contains(x),
        dedup(s).len() <= s.len(),
    decreases s.len(),
{
    if s.len() > 0 {
        let p = s.drop_last();
        lemma_dedup(p);
        assert(s == p.push(s.last()));
        assert forall|x: Seq<u8>| s.contains(x) <==> (p.contains(x) || x == s.last()) by {
            if s.contains(x) {
                let i = choose|i: int| 0 <= i < s.len() && s[i] == x;
                if i < p.len() {
                    assert(p[i] == x);
                }
            }
            if p.contains(x) {
                let i = choose|i: int| 0 <= i < p.len() && p[i] == x;
                assert(s[i] == x);
            }
            if x == s.last() {
                assert(s[s.len() - 1] == x);
            }
        };
        let d = dedup(p);
        if !d.contains(s.last()) {
            let e = d.push(s.last());
            assert forall|x: Seq<u8>| e.contains(x) <==> (d.contains(x) || x == s.last()) by {
                if e.contains(x) {
                    let i = choose|i: int| 0 <= i < e.len() && e[i] == x;
                    if i < d.len() {
                        assert(d[i] == x);
                    }
                }
                if d.contains(x) {
                    let i = choose|i: int| 0 <= i < d.len() && d[i] == x;
                    assert(e[i] == x);
                }
                if x == s.last() {
                    assert(e[e.len() - 1] == x);
                }
            };
            assert forall|i: int, j: int| 0 <= i < e.len() && 0 <= j < e.len() && i != j implies e[i]
                != e[j] by {
                if i < d.len() && j < d.len() {
                } else if i < d.len() {
                    assert(d.contains(e[i]));
                } else {
                    assert(d.contains(e[j]));
                }
            };
        }
    }
}

pub proof fn lemma_filter_no_dup(s: Seq<Seq<u8>>, p: spec_fn(Seq<u8>) -> bool)
    requires
        s.no_duplicates(),
    ensures
        s.filter(p).no_duplicates(),
    decreases s.len(),
{
    broadcast use Seq::lemma_filter_push, Seq::lemma_filter_contains_rev;

    if s.len() > 0 {
        let q = s.drop_last();
        assert(s == q.push(s.last()));
        assert(q.no_duplicates()) by {
            assert forall|i: int, j: int| 0 <= i < q.len() && 0 <= j < q.len() && i != j implies q[i]
                != q[j] by {
                assert(s[i] == q[i] && s[j] == q[j]);
            };
        };
        lemma_filter_no_dup(q, p);
        let f = q.filter(p);
        if p(s.last()) {
            assert(!q.contains(s.last())) by {
                if q.contains(s.last()) {
                    let i = choose|i: int| 0 <= i < q.len() && q[i] == s.last();
                    assert(s[i] == s[s.len() - 1]);
                }
            };
            assert(!f.contains(s.last()));
            let e = f.push(s.last());
            assert forall|i: int, j: int| 0 <= i < e.len() && 0 <= j < e.len() && i != j implies e[i]
                != e[j] by {
                if i < f.len() && j < f.len() {
                } else if i < f.len() {
                    assert(f.contains(e[i]));
                } else {
                    assert(f.contains(e[j]));
                }
            };
        }
    }
}

impl VertexName {
    /// A name holding a copy of `b`.
    pub fn copy_from(b: &[u8]) -> (r: VertexName)
        ensures
            r@ == b@,
    {
        let mut v: Vec<u8> = Vec::new();
        let mut i: usize = 0;
        while i < b.len()
            invariant
                i <= b@.len(),
                v@ == b@.subrange(0, i as int),
            decreases b@.len() - i,
        {
            v.push(b[i]);
            i = i + 1;
            assert(v@ =~= b@.subrange(0, i as int));
        }
        assert(v@ =~= b@);
        VertexName { bytes: v }
    }

    pub fn as_bytes(&self) -> (r: &[u8])
        ensures
            r@ == self@,
    {
        self.bytes.as_slice()
    }

    pub fn duplicate(&self) -> (r: VertexName)
        ensures
            r@ == self@,
    {
        VertexName::copy_from(self.bytes.as_slice())
    }

    pub fn same_as(&self, o: &VertexName) -> (r: bool)
        ensures
            r == (self@ == o@),
    {
        if self.bytes.len() != o.bytes.len() {
            return false;
        }
        let mut i: usize = 0;
        while i < self.bytes.len()
            invariant
                i <= self@.len(),
                self@.len() == o@.len(),
                forall|j: int| 0 <= j < i ==> self@[j] == o@[j],
            decreases self@.len() - i,
        {
            if self.bytes[i] != o.bytes[i] {
                return false;
            }
            i = i + 1;
        }
        assert(self@ =~= o@);
        true
    }
}

pub const FLAG_EMPTY: u32 = 1;

pub const FLAG_ID_DESC: u32 = 2;

pub const FLAG_ID_ASC: u32 = 4;

pub const FLAG_TOPO_DESC: u32 = 8;

pub const FLAG_FILTER: u32 = 16;

/// The flags that an intersection or a difference may inherit.
pub const INHERITED_FLAGS: u32 = 31;

/// Advisory facts about a set: flag bits, bounds on the ids of its names,
/// and a token naming the IdMap that produced it.
#[derive(Clone, Copy, Debug)]
pub struct Hints {
    pub flags: u32,
    pub min_id: Option<u64>,
    pub max_id: Option<u64>,
    pub id_map: Option<u64>,
}

impl Hints {
    /// No flags, no bounds, no IdMap.
    pub fn new() -> (r: Hints)
        ensures
            r.flags == 0,
            r.min_id is None,
            r.max_id is None,
            r.id_map is None,
    {
        Hints { flags: 0, min_id: None, max_id: None, id_map: None }
    }

    pub open spec fn compatible_with(self, other: Hints) -> bool {
        self.id_map is Some && self.id_map == other.id_map
    }

    /// Whether both hints name the same IdMap.
    pub fn is_id_map_compatible(&self, other: &Hints) -> (r: bool)
        ensures
            r == self.compatible_with(*other),
    {
        match (self.id_map, other.id_map) {
            (Some(a), Some(b)) => a == b,
            _ => false,
        }
    }

    pub fn contains_flag(&self, flag: u32) -> (r: bool)
        ensures
            r == (self.flags & flag == flag),
    {
        self.flags & flag == flag
    }
}

/// Lower bound of an intersection: the larger of two comparable bounds,
/// else the left one, or the right one when it is comparable.
pub open spec fn meet_lower(l: Option<u64>, r: Option<u64>, compatible: bool) -> Option<u64> {
    match (l, r) {
        (Some(a), Some(b)) => if compatible {
            Some(if a >= b { a } else { b })
        } else {
            Some(a)
        },
        (Some(a), None) => Some(a),
        (None, Some(b)) => if compatible {
            Some(b)
        } else {
            None
        },
        (None, None) => None,
    }
}

/// Upper bound of an intersection, dual to `meet_lower`.
pub open spec fn meet_upper(l: Option<u64>, r: Option<u64>, compatible: bool) -> Option<u64> {
    match (l, r) {
        (Some(a), Some(b)) => if compatible {
            Some(if a <= b { a } else { b })
        } else {
            Some(a)
        },
        (Some(a), None) => Some(a),
        (None, Some(b)) => if compatible {
            Some(b)
        } else {
            None
        },
        (None, None) => None,
    }
}

/// Bound of a union: defined only when both sides are bounded and comparable.
pub open spec fn join_bound(l: Option<u64>, r: Option<u64>, compatible: bool, lower: bool) -> Option<u64> {
    match (l, r) {
        (Some(a), Some(b)) => if compatible {
            if lower {
                Some(if a <= b { a } else { b })
            } else {
                Some(if a >= b { a } else { b })
            }
        } else {
            None
        },
        _ => None,
    }
}

fn meet_bound(l: Option<u64>, r: Option<u64>, compatible: bool, lower: bool) -> (res: Option<u64>)
    ensures
        lower ==> res == meet_lower(l, r, compatible),
        !lower ==> res == meet_upper(l, r, compatible),
{
    match (l, r) {
        (Some(a), Some(b)) => {
            if !compatible {
                Some(a)
            } else if lower {
                Some(if a >= b { a } else { b })
            } else {
                Some(if a <= b { a } else { b })
            }
        },
        (Some(a), None) => Some(a),
        (None, Some(b)) => if compatible {
            Some(b)
        } else {
            None
        },
        (None, None) => None,
    }
}

fn union_bound(l: Option<u64>, r: Option<u64>, compatible: bool, lower: bool) -> (res: Option<u64>)
    ensures
        res == join_bound(l, r, compatible, lower),
{
    match (l, r) {
        (Some(a), Some(b)) => {
            if !compatible {
                None
            } else if lower {
                Some(if a <= b { a } else { b })
            } else {
                Some(if a >= b { a } else { b })
            }
        },
        _ => None,
    }
}

/// A set given by an explicit list of distinct names.
pub struct StaticSet {
    pub names: Vec<VertexName>,
    pub hints: Hints,
}

/// The names of `lhs` that `rhs` contains, in the order of `lhs`.
pub struct IntersectionSet {
    pub lhs: NameSet,
    pub rhs: NameSet,
    pub hints: Hints,
}

/// The names of `lhs`, then those of `rhs` that `lhs` lacks.
pub struct UnionSet {
    pub lhs: NameSet,
    pub rhs: NameSet,
    pub hints: Hints,
}

/// The names of `lhs` that `rhs` lacks, in the order of `lhs`.
pub struct DifferenceSet {
    pub lhs: NameSet,
    pub rhs: NameSet,
    pub hints: Hints,
}

pub enum NameSet {
    Static(StaticSet),
    Intersection(Box<IntersectionSet>),
    Union(Box<UnionSet>),
    Difference(Box<DifferenceSet>),
}

pub open spec fn in_set(s: NameSet) -> spec_fn(Seq<u8>) -> bool {
    |x: Seq<u8>| s.has(x)
}

pub open spec fn not_in_set(s: NameSet) -> spec_fn(Seq<u8>) -> bool {
    |x: Seq<u8>| !s.has(x)
}

impl NameSet {
    /// The names in iteration order.
    pub open spec fn seq(self) -> Seq<Seq<u8>>
        decreases self,
    {
        match self {
            NameSet::Static(s) => views(s.names@),
            NameSet::Intersection(b) => b.lhs.seq().filter(in_set(b.rhs)),
            NameSet::Union(b) => b.lhs.seq() + b.rhs.seq().filter(not_in_set(b.lhs)),
            NameSet::Difference(b) => b.lhs.seq().filter(not_in_set(b.rhs)),
        }
    }

    /// Membership, as `contains` answers it.
    pub open spec fn has(self, x: Seq<u8>) -> bool
        decreases self,
    {
        match self {
            NameSet::Static(s) => views(s.names@).contains(x),
            NameSet::Intersection(b) => b.lhs.has(x) && b.rhs.has(x),
            NameSet::Union(b) => b.lhs.has(x) || b.rhs.has(x),
            NameSet::Difference(b) => b.lhs.has(x) && !b.rhs.has(x),
        }
    }

    /// Every static leaf lists distinct names.
    pub open spec fn wf(self) -> bool
        decreases self,
    {
        match self {
            NameSet::Static(s) => views(s.names@).no_duplicates(),
            NameSet::Intersection(b) => b.lhs.wf() && b.rhs.wf(),
            NameSet::Union(b) => b.lhs.wf() && b.rhs.wf(),
            NameSet::Difference(b) => b.lhs.wf() && b.rhs.wf(),
        }
    }

    pub open spec fn hints_of(self) -> Hints {
        match self {
            NameSet::Static(s) => s.hints,
            NameSet::Intersection(b) => b.hints,
            NameSet::Union(b) => b.hints,
            NameSet::Difference(b) => b.hints,
        }
    }
}


/// Iteration and membership agree: a well-formed set yields each of its
/// members exactly once, and nothing else.
pub proof fn lemma_seq_matches_has(s: NameSet)
    requires
        s.wf(),
    ensures
        s.seq().no_duplicates(),
        forall|x: Seq<u8>| #[trigger] s.seq().contains(x) <==> s.has(x),
    decreases s,
{
    broadcast use Seq::lemma_filter_contains_rev;

    match s {
        NameSet::Static(st) => {},
        NameSet::Intersection(b) => {
            lemma_seq_matches_has(b.lhs);
            lemma_seq_matches_has(b.rhs);
            lemma_filter_no_dup(b.lhs.seq(), in_set(b.rhs));
            lemma_filter_membership(b.lhs.seq(), in_set(b.rhs));
        },
        NameSet::Union(b) => {
            lemma_seq_matches_has(b.lhs);
            lemma_seq_matches_has(b.rhs);
            let f = b.rhs.seq().filter(not_in_set(b.lhs));
            lemma_filter_no_dup(b.rhs.seq(), not_in_set(b.lhs));
            lemma_filter_membership(b.rhs.seq(), not_in_set(b.lhs));
            assert forall|i: int, j: int|
                0 <= i < b.lhs.seq().len() && 0 <= j < f.len() implies b.lhs.seq()[i] != f[j] by {
                assert(f.contains(f[j]));
                assert(b.lhs.seq().contains(b.lhs.seq()[i]));
            };
            lemma_no_dup_in_concat(b.lhs.seq(), f);
            assert forall|x: Seq<u8>| #[trigger] s.seq().contains(x) <==> s.has(x) by {
                lemma_seq_concat_contains_all_elements(b.lhs.seq(), f, x);
            };
        },
        NameSet::Difference(b) => {
            lemma_seq_matches_has(b.lhs);
            lemma_seq_matches_has(b.rhs);
            lemma_filter_no_dup(b.lhs.seq(), not_in_set(b.rhs));
            lemma_filter_membership(b.lhs.seq(), not_in_set(b.rhs));
        },
    }
}

proof fn lemma_filter_membership(s: Seq<Seq<u8>>, p: spec_fn(Seq<u8>) -> bool)
    ensures
        forall|x: Seq<u8>| #[trigger] s.filter(p).contains(x) <==> (s.contains(x) && p(x)),
{
    assert forall|x: Seq<u8>| #[trigger] s.filter(p).contains(x) <==> (s.contains(x) && p(x)) by {
        if s.filter(p).contains(x) {
            s.lemma_filter_contains_rev(p, x);
            let i = choose|i: int| 0 <= i < s.filter(p).len() && s.filter(p)[i] == x;
            s.lemma_filter_pred(p, i);
        }
        if s.contains(x) && p(x) {
            let i = choose|i: int| 0 <= i < s.len() && s[i] == x;
            s.lemma_filter_contains(p, i);
        }
    };
}

proof fn lemma_views_push(s: Seq<VertexName>, n: VertexName)
    ensures
        views(s.push(n)) == views(s).push(n@),
{
    assert(views(s.push(n)) =~= views(s).push(n@));
}

/// Keeps the names of `names` that `s` contains (or lacks, if `keep_members`
/// is false), in order.
fn filter_names(names: Vec<VertexName>, s: &NameSet, keep_members: bool) -> (r: Vec<VertexName>)
    requires
        s.wf(),
    ensures
        keep_members ==> views(r@) == views(names@).filter(in_set(*s)),
        !keep_members ==> views(r@) == views(names@).filter(not_in_set(*s)),
{
    broadcast use Seq::lemma_filter_push;

    let ghost p = if keep_members {
        in_set(*s)
    } else {
        not_in_set(*s)
    };
    let ghost all = views(names@);
    let mut names = names;
    let mut rev: Vec<VertexName> = Vec::new();
    // take names from the back, keeping them in reverse order
    while names.len() > 0
        invariant
            s.wf(),
            p == (if keep_members { in_set(*s) } else { not_in_set(*s) }),
            names@.len() <= all.len(),
            views(names@) == all.take(names@.len() as int),
            views(rev@) == all.skip(names@.len() as int).filter(p).reverse(),
        decreases names@.len(),
    {
        let ghost k = names@.len() as int;
        let n = names.pop().unwrap();
        proof {
            assert(views(names@) =~= all.take(k - 1));
            assert(n@ == all[k - 1]) by {
                assert(views(names@.push(n)) == all.take(k));
                assert(views(names@.push(n))[k - 1] == n@);
            };
            let tail = all.skip(k);
            let tail2 = all.skip(k - 1);
            assert(tail2 =~= seq![n@] + tail);
            lemma_filter_prepend_single(n@, tail, p);
        }
        let member = s.contains(&n);
        if member == keep_members {
            proof {
                lemma_views_push(rev@, n);
                assert(p(n@));
                assert(views(rev@.push(n)) =~= all.skip(k - 1).filter(p).reverse());
            }
            rev.push(n);
        } else {
            proof {
                assert(!p(n@));
            }
        }
    }
    assert(all.skip(0) =~= all);
    let mut out: Vec<VertexName> = Vec::new();
    let ghost target = all.filter(p);
    while rev.len() > 0
        invariant
            views(rev@) == target.skip(out@.len() as int).reverse(),
            views(out@) == target.take(out@.len() as int),
            out@.len() <= target.len(),
        decreases rev@.len(),
    {
        let ghost k = out@.len() as int;
        let ghost old_rev = rev@;
        let n = rev.pop().unwrap();
        proof {
            assert(views(rev@) =~= views(old_rev).drop_last());
            assert(views(rev@.push(n)) == target.skip(k).reverse());
            assert(views(rev@.push(n))[rev@.len() as int] == n@);
            assert(n@ == target[k]);
            assert(views(rev@) =~= target.skip(k + 1).reverse());
            lemma_views_push(out@, n);
            assert(target.take(k).push(n@) =~= target.take(k + 1));
        }
        out.push(n);
    }
    assert(target.take(out@.len() as int) =~= target);
    out
}

proof fn lemma_filter_prepend_single(x: Seq<u8>, t: Seq<Seq<u8>>, p: spec_fn(Seq<u8>) -> bool)
    ensures
        (seq![x] + t).filter(p) == if p(x) {
            seq![x] + t.filter(p)
        } else {
            t.filter(p)
        },
{
    broadcast use Seq::lemma_filter_prepend;

    assert(seq![x] + t =~= t.insert(0, x));
    t.lemma_filter_prepend(x, p);
}

impl NameSet {
    /// A static set of the distinct names of `names`, in order of first
    /// occurrence.
    pub fn from_names(names: Vec<VertexName>, hints: Hints) -> (r: NameSet)
        ensures
            r.wf(),
            r.seq() == dedup(views(names@)),
            r.hints_of() == hints,
    {
        let ghost all = views(names@);
        let mut rest = names;
        let mut rev: Vec<VertexName> = Vec::new();
        while rest.len() > 0
            invariant
                rest@.len() + rev@.len() == all.len(),
                views(rest@) == all.take(rest@.len() as int),
                views(rev@) == all.skip(rest@.len() as int).reverse(),
            decreases rest@.len(),
        {
            let ghost k = rest@.len() as int;
            let n = rest.pop().unwrap();
            proof {
                assert(views(rest@.push(n)) == all.take(k));
                assert(views(rest@.push(n))[k - 1] == n@);
                assert(views(rest@) =~= all.take(k - 1));
                lemma_views_push(rev@, n);
                assert(views(rev@.push(n)) =~= all.skip(k - 1).reverse());
            }
            rev.push(n);
        }
        let mut out: Vec<VertexName> = Vec::new();
        while rev.len() > 0
            invariant
                rev@.len() <= all.len(),
                views(rev@) == all.skip(all.len() - rev@.len()).reverse(),
                views(out@) == dedup(all.take(all.len() - rev@.len())),
            decreases rev@.len(),
        {
            let ghost k = all.len() - rev@.len();
            let ghost old_rev = rev@;
            let n = rev.pop().unwrap();
            proof {
                assert(views(rev@) =~= views(old_rev).drop_last());
                assert(views(rev@.push(n)) == all.skip(k).reverse());
                assert(views(rev@.push(n))[rev@.len() as int] == n@);
                assert(n@ == all[k]);
                assert(views(rev@) =~= all.skip(k + 1).reverse());
                assert(all.take(k + 1).drop_last() =~= all.take(k));
                assert(all.take(k + 1).last() == n@);
            }
            let mut present = false;
            let mut i: usize = 0;
            while i < out.len()
                invariant
                    i <= out@.len(),
                    present == views(out@).take(i as int).contains(n@),
                decreases out@.len() - i,
            {
                proof {
                    assert(views(out@).take(i as int + 1) =~= views(out@).take(i as int).push(
                        out@[i as int]@,
                    ));
                }
                if out[i].same_as(&n) {
                    present = true;
                }
                proof {
                    let t = views(out@).take(i as int);
                    assert(views(out@)[i as int] == out@[i as int]@);
                    if present {
                        if out@[i as int]@ == n@ {
                            assert(t.push(n@)[t.len() as int] == n@);
                        } else {
                            let j = choose|j: int| 0 <= j < t.len() && t[j] == n@;
                            assert(t.push(out@[i as int]@)[j] == n@);
                        }
                    } else {
                        if t.push(out@[i as int]@).contains(n@) {
                            let j = choose|j: int|
                                0 <= j < t.len() + 1 && t.push(out@[i as int]@)[j] == n@;
                            if j < t.len() {
                                assert(t[j] == n@);
                            }
                        }
                    }
                }
                i = i + 1;
            }
            assert(views(out@).take(out@.len() as int) =~= views(out@));
            if !present {
                proof {
                    lemma_views_push(out@, n);
                }
                out.push(n);
            }
        }
        assert(all.take(all.len() as int) =~= all);
        proof {
            lemma_dedup(all);
        }
        NameSet::Static(StaticSet { names: out, hints })
    }

    /// A static set whose names are the single bytes of `bytes`, each once.
    pub fn from_bytes(bytes: &[u8]) -> (r: NameSet)
        ensures
            r.wf(),
            r.seq() == dedup(bytes@.map_values(|b: u8| seq![b])),
            r.hints_of() == Hints::new_spec(),
    {
        let mut names: Vec<VertexName> = Vec::new();
        let mut i: usize = 0;
        while i < bytes.len()
            invariant
                i <= bytes@.len(),
                views(names@) == bytes@.take(i as int).map_values(|b: u8| seq![b]),
            decreases bytes@.len() - i,
        {
            let mut v: Vec<u8> = Vec::new();
            v.push(bytes[i]);
            let n = VertexName { bytes: v };
            proof {
                lemma_views_push(names@, n);
                assert(bytes@.take(i as int + 1).map_values(|b: u8| seq![b]) =~= bytes@.take(
                    i as int,
                ).map_values(|b: u8| seq![b]).push(n@));
            }
            names.push(n);
            i = i + 1;
        }
        assert(bytes@.take(bytes@.len() as int) =~= bytes@);
        NameSet::from_names(names, Hints { flags: 0, min_id: None, max_id: None, id_map: None })
    }

    pub fn hints(&self) -> (r: Hints)
        ensures
            r == self.hints_of(),
    {
        match self {
            NameSet::Static(s) => s.hints,
            NameSet::Intersection(b) => b.hints,
            NameSet::Union(b) => b.hints,
            NameSet::Difference(b) => b.hints,
        }
    }

    pub fn contains(&self, name: &VertexName) -> (r: bool)
        requires
            self.wf(),
        ensures
            r == self.has(name@),
        decreases self,
    {
        match self {
            NameSet::Static(s) => {
                let mut i: usize = 0;
                while i < s.names.len()
                    invariant
                        i <= s.names@.len(),
                        self.has(name@) == views(s.names@).contains(name@),
                        forall|j: int| 0 <= j < i ==> s.names@[j]@ != name@,
                    decreases s.names@.len() - i,
                {
                    if s.names[i].same_as(name) {
                        assert(views(s.names@)[i as int] == name@);
                        assert(views(s.names@).contains(name@));
                        return true;
                    }
                    i = i + 1;
                }
                assert(!views(s.names@).contains(name@)) by {
                    if views(s.names@).contains(name@) {
                        let j = choose|j: int|
                            0 <= j < views(s.names@).len() && views(s.names@)[j] == name@;
                        assert(s.names@[j]@ == name@);
                    }
                };
                false
            },
            NameSet::Intersection(b) => b.lhs.contains(name) && b.rhs.contains(name),
            NameSet::Union(b) => b.lhs.contains(name) || b.rhs.contains(name),
            NameSet::Difference(b) => b.lhs.contains(name) && !b.rhs.contains(name),
        }
    }

    /// The names in iteration order.
    pub fn iter(&self) -> (r: Vec<VertexName>)
        requires
            self.wf(),
        ensures
            views(r@) == self.seq(),
        decreases self,
    {
        match self {
            NameSet::Static(s) => {
                let mut out: Vec<VertexName> = Vec::new();
                let mut i: usize = 0;
                while i < s.names.len()
                    invariant
                        i <= s.names@.len(),
                        views(out@) == views(s.names@).take(i as int),
                    decreases s.names@.len() - i,
                {
                    let n = s.names[i].duplicate();
                    proof {
                        lemma_views_push(out@, n);
                        assert(views(s.names@).take(i as int + 1) =~= views(s.names@).take(
                            i as int,
                        ).push(n@));
                    }
                    out.push(n);
                    i = i + 1;
                }
                assert(views(s.names@).take(i as int) =~= views(s.names@));
                out
            },
            NameSet::Intersection(b) => {
                let l = b.lhs.iter();
                filter_names(l, &b.rhs, true)
            },
            NameSet::Union(b) => {
                let mut l = b.lhs.iter();
                let r = b.rhs.iter();
                let mut f = filter_names(r, &b.lhs, false);
                let ghost l0 = l@;
                let ghost f0 = f@;
                l.append(&mut f);
                assert(views(l@) =~= views(l0) + views(f0));
                l
            },
            NameSet::Difference(b) => {
                let l = b.lhs.iter();
                filter_names(l, &b.rhs, false)
            },
        }
    }

    /// The names in reverse iteration order.
    pub fn iter_rev(&self) -> (r: Vec<VertexName>)
        requires
            self.wf(),
        ensures
            views(r@) == self.seq().reverse(),
    {
        let mut v = self.iter();
        let ghost all = self.seq();
        let mut out: Vec<VertexName> = Vec::new();
        while v.len() > 0
            invariant
                views(v@) == all.take(v@.len() as int),
                views(out@) == all.skip(v@.len() as int).reverse(),
                v@.len() <= all.len(),
            decreases v@.len(),
        {
            let ghost k = v@.len() as int;
            let n = v.pop().unwrap();
            proof {
                assert(views(v@.push(n)) == all.take(k));
                assert(views(v@.push(n))[k - 1] == n@);
                assert(views(v@) =~= all.take(k - 1));
                lemma_views_push(out@, n);
                assert(views(out@.push(n)) =~= all.skip(k - 1).reverse());
            }
            out.push(n);
        }
        assert(all.skip(0) =~= all);
        out
    }

    pub fn count(&self) -> (r: usize)
        requires
            self.wf(),
        ensures
            r == self.seq().len(),
    {
        let v = self.iter();
        v.len()
    }

    pub fn is_empty(&self) -> (r: bool)
        requires
            self.wf(),
        ensures
            r == (self.seq().len() == 0),
    {
        self.count() == 0
    }

    pub fn first(&self) -> (r: Option<VertexName>)
        requires
            self.wf(),
        ensures
            match r {
                None => self.seq().len() == 0,
                Some(n) => self.seq().len() > 0 && n@ == self.seq()[0],
            },
    {
        let mut v = self.iter();
        if v.len() == 0 {
            None
        } else {
            let ghost v0 = v@;
            let n = v.swap_remove(0);
            assert(views(v0)[0] == v0[0]@);
            Some(n)
        }
    }

    pub fn last(&self) -> (r: Option<VertexName>)
        requires
            self.wf(),
        ensures
            match r {
                None => self.seq().len() == 0,
                Some(n) => self.seq().len() > 0 && n@ == self.seq().last(),
            },
    {
        let mut v = self.iter();
        let ghost v0 = v@;
        match v.pop() {
            None => None,
            Some(n) => {
                assert(views(v0)[v0.len() - 1] == v0[v0.len() - 1]@);
                Some(n)
            },
        }
    }

    /// The intersection of `self` and `other`.
    pub fn intersection(self, other: NameSet) -> (r: NameSet)
        requires
            self.wf(),
            other.wf(),
        ensures
            r.wf(),
            r.seq() == self.seq().filter(in_set(other)),
            forall|x: Seq<u8>| r.has(x) == (self.has(x) && other.has(x)),
    {
        NameSet::Intersection(Box::new(IntersectionSet::new(self, other)))
    }

    /// The union of `self` and `other`.
    pub fn union(self, other: NameSet) -> (r: NameSet)
        requires
            self.wf(),
            other.wf(),
        ensures
            r.wf(),
            r.seq() == self.seq() + other.seq().filter(not_in_set(self)),
            forall|x: Seq<u8>| r.has(x) == (self.has(x) || other.has(x)),
    {
        NameSet::Union(Box::new(UnionSet::new(self, other)))
    }

    /// The names of `self` that `other` lacks.
    pub fn difference(self, other: NameSet) -> (r: NameSet)
        requires
            self.wf(),
            other.wf(),
        ensures
            r.wf(),
            r.seq() == self.seq().filter(not_in_set(other)),
            forall|x: Seq<u8>| r.has(x) == (self.has(x) && !other.has(x)),
    {
        NameSet::Difference(Box::new(DifferenceSet::new(self, other)))
    }
}

impl Hints {
    pub open spec fn new_spec() -> Hints {
        Hints { flags: 0, min_id: None, max_id: None, id_map: None }
    }
}

impl IntersectionSet {
    /// Combines the operands' hints: flags present on both sides (of those
    /// an intersection keeps), the left IdMap, and bounds narrowed as far
    /// as comparable bounds allow.
    pub fn new(lhs: NameSet, rhs: NameSet) -> (r: IntersectionSet)
        ensures
            r.lhs == lhs,
            r.rhs == rhs,
            r.hints.flags == lhs.hints_of().flags & rhs.hints_of().flags & INHERITED_FLAGS,
            r.hints.id_map == lhs.hints_of().id_map,
            r.hints.min_id == meet_lower(
                lhs.hints_of().min_id,
                rhs.hints_of().min_id,
                lhs.hints_of().compatible_with(rhs.hints_of()),
            ),
            r.hints.max_id == meet_upper(
                lhs.hints_of().max_id,
                rhs.hints_of().max_id,
                lhs.hints_of().compatible_with(rhs.hints_of()),
            ),
    {
        let lh = lhs.hints();
        let rh = rhs.hints();
        let compatible = lh.is_id_map_compatible(&rh);
        let hints = Hints {
            flags: lh.flags & rh.flags & INHERITED_FLAGS,
            min_id: meet_bound(lh.min_id, rh.min_id, compatible, true),
            max_id: meet_bound(lh.max_id, rh.max_id, compatible, false),
            id_map: lh.id_map,
        };
        IntersectionSet { lhs, rhs, hints }
    }
}

impl UnionSet {
    /// Combines the operands' hints: `EMPTY` when both are empty, the left
    /// IdMap, and the wider of two comparable bounds.
    pub fn new(lhs: NameSet, rhs: NameSet) -> (r: UnionSet)
        ensures
            r.lhs == lhs,
            r.rhs == rhs,
            r.hints.flags == lhs.hints_of().flags & rhs.hints_of().flags & FLAG_EMPTY,
            r.hints.id_map == lhs.hints_of().id_map,
            r.hints.min_id == join_bound(
                lhs.hints_of().min_id,
                rhs.hints_of().min_id,
                lhs.hints_of().compatible_with(rhs.hints_of()),
                true,
            ),
            r.hints.max_id == join_bound(
                lhs.hints_of().max_id,
                rhs.hints_of().max_id,
                lhs.hints_of().compatible_with(rhs.hints_of()),
                false,
            ),
    {
        let lh = lhs.hints();
        let rh = rhs.hints();
        let compatible = lh.is_id_map_compatible(&rh);
        let hints = Hints {
            flags: lh.flags & rh.flags & FLAG_EMPTY,
            min_id: union_bound(lh.min_id, rh.min_id, compatible, true),
            max_id: union_bound(lh.max_id, rh.max_id, compatible, false),
            id_map: lh.id_map,
        };
        UnionSet { lhs, rhs, hints }
    }
}

impl DifferenceSet {
    /// Keeps the left operand's flags (of those a difference keeps), IdMap
    /// and bounds.
    pub fn new(lhs: NameSet, rhs: NameSet) -> (r: DifferenceSet)
        ensures
            r.lhs == lhs,
            r.rhs == rhs,
            r.hints.flags == lhs.hints_of().flags & INHERITED_FLAGS,
            r.hints.id_map == lhs.hints_of().id_map,
            r.hints.min_id == lhs.hints_of().min_id,
            r.hints.max_id == lhs.hints_of().max_id,
    {
        let lh = lhs.hints();
        let hints = Hints {
            flags: lh.flags & INHERITED_FLAGS,
            min_id: lh.min_id,
            max_id: lh.max_id,
            id_map: lh.id_map,
        };
        DifferenceSet { lhs, rhs, hints }
    }
}

/// An intersection yields exactly the names that both operands yield, each
/// once, in the left operand's order; it yields no more names than either
/// operand.
pub proof fn law_intersection(a: NameSet, b: NameSet, hints: Hints)
    requires
        a.wf(),
        b.wf(),
    ensures
        ({
            let i = NameSet::Intersection(Box::new(IntersectionSet { lhs: a, rhs: b, hints }));
            &&& i.seq().no_duplicates()
            &&& forall|x: Seq<u8>|
                #[trigger] i.seq().contains(x) <==> (a.seq().contains(x) && b.seq().contains(x))
            &&& forall|x: Seq<u8>| #[trigger] i.has(x) <==> (a.has(x) && b.has(x))
            &&& i.seq().len() <= a.seq().len()
            &&& i.seq().len() <= b.seq().len()
        }),
{
    let i = NameSet::Intersection(Box::new(IntersectionSet { lhs: a, rhs: b, hints }));
    lemma_seq_matches_has(a);
    lemma_seq_matches_has(b);
    lemma_seq_matches_has(i);
    a.seq().lemma_filter_len(in_set(b));
    // every name of the intersection is a distinct name of b
    let bs = b.seq();
    let is = i.seq();
    assert forall|k: int| 0 <= k < is.len() implies bs.contains(#[trigger] is[k]) by {
        assert(is.contains(is[k]));
    };
    lemma_distinct_subset_len(is, bs);
}

/// A union yields exactly the names that either operand yields, each once:
/// those of the left operand first, then the new ones of the right.
pub proof fn law_union(a: NameSet, b: NameSet, hints: Hints)
    requires
        a.wf(),
        b.wf(),
    ensures
        ({
            let u = NameSet::Union(Box::new(UnionSet { lhs: a, rhs: b, hints }));
            &&& u.seq().no_duplicates()
            &&& forall|x: Seq<u8>|
                #[trigger] u.seq().contains(x) <==> (a.seq().contains(x) || b.seq().contains(x))
            &&& u.seq().subrange(0, a.seq().len() as int) == a.seq()
        }),
{
    let u = NameSet::Union(Box::new(UnionSet { lhs: a, rhs: b, hints }));
    lemma_seq_matches_has(a);
    lemma_seq_matches_has(b);
    lemma_seq_matches_has(u);
    assert(u.seq().subrange(0, a.seq().len() as int) =~= a.seq());
}

/// A difference yields exactly the names of the left operand that the right
/// one lacks, each once, in the left operand's order.
pub proof fn law_difference(a: NameSet, b: NameSet, hints: Hints)
    requires
        a.wf(),
        b.wf(),
    ensures
        ({
            let d = NameSet::Difference(Box::new(DifferenceSet { lhs: a, rhs: b, hints }));
            &&& d.seq().no_duplicates()
            &&& forall|x: Seq<u8>|
                #[trigger] d.seq().contains(x) <==> (a.seq().contains(x) && !b.seq().contains(x))
            &&& d.seq().len() <= a.seq().len()
        }),
{
    let d = NameSet::Difference(Box::new(DifferenceSet { lhs: a, rhs: b, hints }));
    lemma_seq_matches_has(a);
    lemma_seq_matches_has(b);
    lemma_seq_matches_has(d);
    a.seq().lemma_filter_len(not_in_set(b));
}

/// A sequence of distinct elements, all drawn from `t`, is no longer than `t`.
proof fn lemma_distinct_subset_len(s: Seq<Seq<u8>>, t: Seq<Seq<u8>>)
    requires
        s.no_duplicates(),
        forall|k: int| 0 <= k < s.len() ==> t.contains(#[trigger] s[k]),
    ensures
        s.len() <= t.len(),
{
    broadcast use vstd::seq_lib::seq_to_set_is_finite;

    s.unique_seq_to_set();
    t.lemma_cardinality_of_set();
    assert(s.to_set().subset_of(t.to_set())) by {
        assert forall|x: Seq<u8>| s.to_set().contains(x) implies t.to_set().contains(x) by {
            let k = choose|k: int| 0 <= k < s.len() && s[k] == x;
        };
    };
    vstd::set_lib::lemma_len_subset(s.to_set(), t.to_set());
}

} // verus!
