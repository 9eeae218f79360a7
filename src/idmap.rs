//! The IdMap: a bijection, per repository, between dense vertex ids and
//! changeset ids. Rows are only ever added; inserting is idempotent for
//! pairs already present and refuses any pair that would break the
//! bijection.
use crate::types::{ChangesetId, RepositoryId, Vertex};
use std::collections::HashMap;
use vstd::prelude::*;
use vstd::std_specs::hash::spec_hash_map_iter;
use vstd::std_specs::iter::IteratorSpec;

verus! {

/// Inserts are committed in transactions of at most this many pairs.
pub const INSERT_MAX: usize = 1000;

#[derive(Clone, Copy, Debug)]
pub struct IdMapRow {
    pub repo_id: RepositoryId,
    pub vertex: Vertex,
    pub cs_id: ChangesetId,
}

#[derive(Clone, Copy, Debug)]
pub enum IdMapError {
    /// `vertex` is already assigned to `existing`, not `attempted`.
    DuplicateAssignment { vertex: Vertex, existing: ChangesetId, attempted: ChangesetId },
    /// `cs_id`, attempted for `vertex`, is already assigned to `assigned_to`.
    ChangesetAssigned { vertex: Vertex, cs_id: ChangesetId, assigned_to: Vertex },
    VertexNotFound { vertex: Vertex },
    ChangesetNotFound { cs_id: ChangesetId },
}

pub open spec fn has_row(rows: Seq<IdMapRow>, repo: RepositoryId, v: u64, c: ChangesetId) -> bool {
    exists|i: int|
        0 <= i < rows.len() && rows[i].repo_id == repo && rows[i].vertex.0 == v && rows[i].cs_id == c
}

/// No vertex and no changeset appears twice within a repository.
pub open spec fn bijective(rows: Seq<IdMapRow>) -> bool {
    forall|i: int, j: int|
        0 <= i < rows.len() && 0 <= j < rows.len() && i != j && rows[i].repo_id == rows[j].repo_id
            ==> rows[i].vertex != rows[j].vertex && rows[i].cs_id != rows[j].cs_id
}

pub open spec fn cs_of(rows: Seq<IdMapRow>, repo: RepositoryId, v: u64) -> Option<ChangesetId> {
    if exists|i: int| 0 <= i < rows.len() && rows[i].repo_id == repo && rows[i].vertex.0 == v {
        Some(
            rows[choose|i: int|
                0 <= i < rows.len() && rows[i].repo_id == repo && rows[i].vertex.0 == v].cs_id,
        )
    } else {
        None
    }
}

pub open spec fn vertex_of(rows: Seq<IdMapRow>, repo: RepositoryId, c: ChangesetId) -> Option<u64> {
    if exists|i: int| 0 <= i < rows.len() && rows[i].repo_id == repo && rows[i].cs_id == c {
        Some(
            rows[choose|i: int|
                0 <= i < rows.len() && rows[i].repo_id == repo && rows[i].cs_id == c].vertex.0,
        )
    } else {
        None
    }
}

proof fn lemma_row_lookup(rows: Seq<IdMapRow>, i: int)
    requires
        bijective(rows),
        0 <= i < rows.len(),
    ensures
        cs_of(rows, rows[i].repo_id, rows[i].vertex.0) == Some(rows[i].cs_id),
        vertex_of(rows, rows[i].repo_id, rows[i].cs_id) == Some(rows[i].vertex.0),
{
    let r = rows[i];
    let a = choose|j: int| 0 <= j < rows.len() && rows[j].repo_id == r.repo_id && rows[j].vertex.0 == r.vertex.0;
    assert(a == i) by {
        if a != i {
            assert(rows[a].vertex == rows[i].vertex);
        }
    };
    let b = choose|j: int| 0 <= j < rows.len() && rows[j].repo_id == r.repo_id && rows[j].cs_id == r.cs_id;
    assert(b == i);
}

/// Whether the pairs can all be stored for `repo` next to the rows already
/// there without breaking the bijection.
pub open spec fn fits(rows: Seq<IdMapRow>, repo: RepositoryId, pairs: Seq<(Vertex, ChangesetId)>) -> bool {
    &&& forall|i: int|
        0 <= i < pairs.len() ==> match cs_of(rows, repo, (#[trigger] pairs[i]).0.0) {
            Some(c) => c == pairs[i].1,
            None => true,
        }
    &&& forall|i: int|
        0 <= i < pairs.len() ==> match vertex_of(rows, repo, (#[trigger] pairs[i]).1) {
            Some(v) => v == pairs[i].0.0,
            None => true,
        }
    &&& forall|i: int, j: int|
        0 <= i < pairs.len() && 0 <= j < pairs.len() ==> ((#[trigger] pairs[i]).0 == (
        #[trigger] pairs[j]).0 <==> pairs[i].1 == pairs[j].1)
}

/// Rows of `repo` in `a` are rows of `b`.
pub open spec fn rows_within(a: Seq<IdMapRow>, b: Seq<IdMapRow>) -> bool {
    forall|r: RepositoryId, v: u64, c: ChangesetId| has_row(a, r, v, c) ==> #[trigger] has_row(b, r, v, c)
}

pub open spec fn in_pairs(pairs: Seq<(Vertex, ChangesetId)>, v: u64, c: ChangesetId) -> bool {
    pairs.contains((Vertex(v), c))
}

/// The rows of `b` are those of `a` plus, for `repo`, some of `pairs`.
pub open spec fn grown_by(a: Seq<IdMapRow>, b: Seq<IdMapRow>, repo: RepositoryId, pairs: Seq<(Vertex, ChangesetId)>) -> bool {
    &&& rows_within(a, b)
    &&& forall|r: RepositoryId, v: u64, c: ChangesetId|
        #[trigger] has_row(b, r, v, c) ==> has_row(a, r, v, c) || (r == repo && in_pairs(pairs, v, c))
}

proof fn lemma_sub_pairs(pairs: Seq<(Vertex, ChangesetId)>, lo: int, hi: int, top: int)
    requires
        0 <= lo <= hi <= top <= pairs.len(),
    ensures
        forall|v: u64, c: ChangesetId|
            #[trigger] in_pairs(pairs.subrange(lo, hi), v, c) ==> in_pairs(pairs.take(top), v, c) && in_pairs(pairs, v, c),
        forall|v: u64, c: ChangesetId|
            #[trigger] in_pairs(pairs.take(lo), v, c) ==> in_pairs(pairs.take(top), v, c),
{
    assert forall|v: u64, c: ChangesetId| #[trigger] in_pairs(pairs.subrange(lo, hi), v, c) implies in_pairs(
        pairs.take(top),
        v,
        c,
    ) && in_pairs(pairs, v, c) by {
        let sub = pairs.subrange(lo, hi);
        let i = choose|i: int| 0 <= i < sub.len() && sub[i] == (Vertex(v), c);
        assert(pairs.take(top)[lo + i] == (Vertex(v), c));
        assert(pairs[lo + i] == (Vertex(v), c));
    };
    assert forall|v: u64, c: ChangesetId| #[trigger] in_pairs(pairs.take(lo), v, c) implies in_pairs(pairs.take(top), v, c) by {
        let t = pairs.take(lo);
        let i = choose|i: int| 0 <= i < t.len() && t[i] == (Vertex(v), c);
        assert(pairs.take(top)[i] == (Vertex(v), c));
    };
}

/// After a failed `insert_many`: what stays stored is whole transactions of
/// the vertex-ordered input, the `c` pairs before the one that failed.
pub open spec fn committed_prefix(
    old_rows: Seq<IdMapRow>,
    new_rows: Seq<IdMapRow>,
    repo: RepositoryId,
    mappings: Seq<(Vertex, ChangesetId)>,
) -> bool {
    exists|s: Seq<(Vertex, ChangesetId)>, c: int|
        #![trigger s.take(c)]
        s.len() == mappings.len() && sorted_by_vertex(s) && (forall|x: (Vertex, ChangesetId)|
            s.contains(x) <==> mappings.contains(x)) && 0 <= c < s.len() && c % (INSERT_MAX as int) == 0
            && new_rows.len() >= old_rows.len() && new_rows.take(old_rows.len() as int) == old_rows && (forall|j: int|
            old_rows.len() <= j < new_rows.len() ==> (#[trigger] new_rows[j]).repo_id == repo && in_pairs(
                s.take(c),
                new_rows[j].vertex.0,
                new_rows[j].cs_id,
            )) && (forall|k: int| 0 <= k < c ==> has_row(new_rows, repo, (#[trigger] s[k]).0.0, s[k].1))
            && !fits(new_rows, repo, s.subrange(c, chunk_end(c, s.len() as int)))
}

/// Where the transaction starting at `c` ends, for `n` pairs.
pub open spec fn chunk_end(c: int, n: int) -> int {
    if c + INSERT_MAX < n {
        c + INSERT_MAX
    } else {
        n
    }
}

/// What an error of `insert_many` shows: a pair of the input that conflicts
/// with the stored rows or with another pair of the input.
pub open spec fn conflict_shown(
    rows: Seq<IdMapRow>,
    repo: RepositoryId,
    pairs: Seq<(Vertex, ChangesetId)>,
    e: IdMapError,
) -> bool {
    match e {
        IdMapError::DuplicateAssignment { vertex, existing, attempted } => {
            &&& in_pairs(pairs, vertex.0, attempted)
            &&& existing != attempted
            &&& (has_row(rows, repo, vertex.0, existing) || in_pairs(pairs, vertex.0, existing))
        },
        IdMapError::ChangesetAssigned { vertex, cs_id, assigned_to } => {
            &&& in_pairs(pairs, vertex.0, cs_id)
            &&& assigned_to.0 != vertex.0
            &&& (has_row(rows, repo, assigned_to.0, cs_id) || in_pairs(pairs, assigned_to.0, cs_id))
        },
        _ => false,
    }
}

fn find_by_vertex(rows: &Vec<IdMapRow>, upto: usize, repo: RepositoryId, v: u64) -> (r: Option<usize>)
    requires
        bijective(rows@),
        upto <= rows@.len(),
    ensures
        match r {
            Some(i) => i < upto && rows@[i as int].repo_id == repo && rows@[i as int].vertex.0 == v
                && cs_of(rows@, repo, v) == Some(rows@[i as int].cs_id),
            None => (forall|j: int| 0 <= j < upto ==> !(rows@[j].repo_id == repo && rows@[j].vertex.0 == v))
                && (upto == rows@.len() ==> cs_of(rows@, repo, v) is None && forall|c: ChangesetId| !has_row(rows@, repo, v, c)),
        },
{
    let mut i: usize = 0;
    while i < upto
        invariant
            i <= upto,
            upto <= rows@.len(),
            bijective(rows@),
            forall|j: int| 0 <= j < i ==> !(rows@[j].repo_id == repo && rows@[j].vertex.0 == v),
        decreases upto - i,
    {
        if rows[i].repo_id == repo && rows[i].vertex.0 == v {
            proof {
                lemma_row_lookup(rows@, i as int);
            }
            return Some(i);
        }
        i = i + 1;
    }
    None
}

fn find_by_cs(rows: &Vec<IdMapRow>, upto: usize, repo: RepositoryId, c: ChangesetId) -> (r: Option<usize>)
    requires
        bijective(rows@),
        upto <= rows@.len(),
    ensures
        match r {
            Some(i) => i < upto && rows@[i as int].repo_id == repo && rows@[i as int].cs_id == c
                && vertex_of(rows@, repo, c) == Some(rows@[i as int].vertex.0),
            None => (forall|j: int| 0 <= j < upto ==> !(rows@[j].repo_id == repo && rows@[j].cs_id == c))
                && (upto == rows@.len() ==> vertex_of(rows@, repo, c) is None && forall|v: u64| !has_row(rows@, repo, v, c)),
        },
{
    let mut i: usize = 0;
    while i < upto
        invariant
            i <= upto,
            upto <= rows@.len(),
            bijective(rows@),
            forall|j: int| 0 <= j < i ==> !(rows@[j].repo_id == repo && rows@[j].cs_id == c),
        decreases upto - i,
    {
        if rows[i].repo_id == repo && rows[i].cs_id == c {
            proof {
                lemma_row_lookup(rows@, i as int);
            }
            return Some(i);
        }
        i = i + 1;
    }
    None
}

pub open spec fn sorted_by_vertex(s: Seq<(Vertex, ChangesetId)>) -> bool {
    forall|i: int, j: int| 0 <= i < j < s.len() ==> s[i].0.0 <= s[j].0.0
}

/// The pairs ordered by vertex.
fn sort_by_vertex(v: &Vec<(Vertex, ChangesetId)>) -> (r: Vec<(Vertex, ChangesetId)>)
    ensures
        r@.len() == v@.len(),
        sorted_by_vertex(r@),
        forall|x: (Vertex, ChangesetId)| r@.contains(x) <==> v@.contains(x),
{
    let mut out: Vec<(Vertex, ChangesetId)> = Vec::new();
    let mut i: usize = 0;
    while i < v.len()
        invariant
            i <= v@.len(),
            out@.len() == i,
            sorted_by_vertex(out@),
            forall|x: (Vertex, ChangesetId)| out@.contains(x) <==> v@.take(i as int).contains(x),
        decreases v@.len() - i,
    {
        let x = v[i];
        let mut pos: usize = 0;
        while pos < out.len() && out[pos].0.0 <= x.0.0
            invariant
                pos <= out@.len(),
                sorted_by_vertex(out@),
                forall|j: int| 0 <= j < pos ==> out@[j].0.0 <= x.0.0,
            decreases out@.len() - pos,
        {
            pos = pos + 1;
        }
        let ghost o = out@;
        out.insert(pos, x);
        proof {
            assert(out@ == o.insert(pos as int, x));
            assert forall|a: int, b: int| 0 <= a < b < out@.len() implies out@[a].0.0 <= out@[b].0.0 by {
                if b < pos {
                } else if b == pos {
                } else if a < pos {
                    assert(o[a].0.0 <= x.0.0);
                    assert(out@[b] == o[b - 1]);
                    if pos < o.len() {
                        assert(x.0.0 < o[pos as int].0.0);
                        assert(o[pos as int].0.0 <= o[b - 1].0.0);
                    }
                } else if a == pos {
                    assert(out@[b] == o[b - 1]);
                    assert(x.0.0 < o[pos as int].0.0);
                } else {
                    assert(out@[a] == o[a - 1]);
                    assert(out@[b] == o[b - 1]);
                }
            };
            assert(v@.take(i as int + 1) =~= v@.take(i as int).push(x));
            assert forall|y: (Vertex, ChangesetId)| out@.contains(y) <==> v@.take(i as int + 1).contains(y) by {
                let t = v@.take(i as int);
                if out@.contains(y) {
                    let k = choose|k: int| 0 <= k < out@.len() && out@[k] == y;
                    if k < pos {
                        assert(o[k] == y);
                        assert(o.contains(y));
                        let m = choose|m: int| 0 <= m < t.len() && t[m] == y;
                        assert(t.push(x)[m] == y);
                    } else if k == pos {
                        assert(t.push(x)[t.len() as int] == y);
                    } else {
                        assert(o[k - 1] == y);
                        assert(o.contains(y));
                        let m = choose|m: int| 0 <= m < t.len() && t[m] == y;
                        assert(t.push(x)[m] == y);
                    }
                }
                if t.push(x).contains(y) {
                    let m = choose|m: int| 0 <= m < t.len() + 1 && t.push(x)[m] == y;
                    if m < t.len() {
                        assert(t[m] == y);
                        assert(t.contains(y));
                        assert(o.contains(y));
                        let k = choose|k: int| 0 <= k < o.len() && o[k] == y;
                        if k < pos {
                            assert(out@[k] == y);
                        } else {
                            assert(out@[k + 1] == y);
                        }
                    } else {
                        assert(out@[pos as int] == y);
                    }
                }
            };
        }
        i = i + 1;
    }
    assert(v@.take(v@.len() as int) =~= v@);
    out
}

proof fn lemma_has_row_grow(a: Seq<IdMapRow>, x: IdMapRow)
    ensures
        rows_within(a, a.push(x)),
        has_row(a.push(x), x.repo_id, x.vertex.0, x.cs_id),
        forall|r: RepositoryId, v: u64, c: ChangesetId|
            #[trigger] has_row(a.push(x), r, v, c) ==> has_row(a, r, v, c) || (r == x.repo_id && v
                == x.vertex.0 && c == x.cs_id),
{
    let b = a.push(x);
    assert forall|r: RepositoryId, v: u64, c: ChangesetId| has_row(a, r, v, c) implies #[trigger] has_row(
        b,
        r,
        v,
        c,
    ) by {
        let i = choose|i: int| 0 <= i < a.len() && a[i].repo_id == r && a[i].vertex.0 == v && a[i].cs_id == c;
        assert(b[i] == a[i]);
    };
    assert(b[a.len() as int] == x);
    assert forall|r: RepositoryId, v: u64, c: ChangesetId| #[trigger] has_row(b, r, v, c) implies has_row(
        a,
        r,
        v,
        c,
    ) || (r == x.repo_id && v == x.vertex.0 && c == x.cs_id) by {
        let i = choose|i: int| 0 <= i < b.len() && b[i].repo_id == r && b[i].vertex.0 == v && b[i].cs_id == c;
        if i < a.len() {
            assert(a[i] == b[i]);
        }
    };
}

/// The IdMap of many repositories.
/// The rows live on the master; the replica holds the first
/// `replica_len` of them and catches up when replication is waited for.
pub struct IdMap {
    pub rows: Vec<IdMapRow>,
    pub replica_len: usize,
    pub replication_waits: u64,
}

/// The waits for replication that inserting `n` pairs makes: one before
/// every transaction but the first.
pub open spec fn waits_for(n: int) -> int {
    if n == 0 {
        0
    } else {
        (n - 1) / (INSERT_MAX as int)
    }
}

impl IdMap {
    pub open spec fn wf(self) -> bool {
        bijective(self.rows@) && self.replica_len <= self.rows@.len()
    }

    /// The changeset that `v` stands for in `repo`.
    pub open spec fn changeset_of(self, repo: RepositoryId, v: u64) -> Option<ChangesetId> {
        cs_of(self.rows@, repo, v)
    }

    /// The vertex that stands for `c` in `repo`.
    pub open spec fn vertex_for(self, repo: RepositoryId, c: ChangesetId) -> Option<u64> {
        vertex_of(self.rows@, repo, c)
    }

    /// An empty IdMap.
    pub fn new() -> (r: IdMap)
        ensures
            r.wf(),
            r.rows@.len() == 0,
            r.replication_waits == 0,
    {
        IdMap { rows: Vec::new(), replica_len: 0, replication_waits: 0 }
    }

    /// Waits until the replica holds every row.
    pub fn wait_for_replication(&mut self)
        requires
            old(self).wf(),
            old(self).replication_waits < u64::MAX,
        ensures
            final(self).wf(),
            final(self).rows@ == old(self).rows@,
            final(self).replica_len == final(self).rows@.len(),
            final(self).replication_waits == old(self).replication_waits + 1,
    {
        self.replica_len = self.rows.len();
        self.replication_waits = self.replication_waits + 1;
    }

    /// Stores the pairs of `pairs[start..end]`, all or none.
    fn insert_chunk(
        &mut self,
        repo: RepositoryId,
        pairs: &Vec<(Vertex, ChangesetId)>,
        start: usize,
        end: usize,
    ) -> (r: Result<(), IdMapError>)
        requires
            old(self).wf(),
            start <= end <= pairs@.len(),
        ensures
            final(self).wf(),
            final(self).replica_len == old(self).replica_len,
            final(self).replication_waits == old(self).replication_waits,
            grown_by(old(self).rows@, final(self).rows@, repo, pairs@),
            final(self).rows@.len() >= old(self).rows@.len(),
            final(self).rows@.take(old(self).rows@.len() as int) == old(self).rows@,
            forall|j: int|
                old(self).rows@.len() <= j < final(self).rows@.len() ==> (#[trigger] final(self).rows@[j]).repo_id == repo
                    && in_pairs(pairs@.subrange(start as int, end as int), final(self).rows@[j].vertex.0, final(self).rows@[j].cs_id),
            r is Ok ==> forall|k: int|
                start <= k < end ==> has_row(
                    final(self).rows@,
                    repo,
                    (#[trigger] pairs@[k]).0.0,
                    pairs@[k].1,
                ),
            r is Err ==> final(self).rows@ == old(self).rows@,
            match r {
                Err(e) => conflict_shown(old(self).rows@, repo, pairs@.subrange(start as int, end as int), e),
                Ok(()) => true,
            },
    {
        let ghost old_rows = self.rows@;
        let n0: usize = self.rows.len();
        proof {
            lemma_sub_pairs(pairs@, start as int, end as int, end as int);
            assert(self.rows@.take(n0 as int) =~= old_rows);
        }
        let mut k: usize = start;
        while k < end
            invariant
                start <= k <= end,
                end <= pairs@.len(),
                n0 == old_rows.len(),
                old_rows == old(self).rows@,
                n0 <= self.rows@.len(),
                self.replica_len == old(self).replica_len,
                self.replication_waits == old(self).replication_waits,
                old(self).replica_len <= n0,
                bijective(old_rows),
                bijective(self.rows@),
                self.rows@.take(n0 as int) == old_rows,
                grown_by(old_rows, self.rows@, repo, pairs@),
                forall|j: int|
                    n0 <= j < self.rows@.len() ==> self.rows@[j].repo_id == repo && in_pairs(
                        pairs@.subrange(start as int, end as int),
                        (#[trigger] self.rows@[j]).vertex.0,
                        self.rows@[j].cs_id,
                    ),
                forall|v: u64, c: ChangesetId|
                    #[trigger] in_pairs(pairs@.subrange(start as int, end as int), v, c) ==> in_pairs(pairs@, v, c),
                forall|j: int|
                    start <= j < k ==> has_row(self.rows@, repo, (#[trigger] pairs@[j]).0.0, pairs@[j].1),
            decreases end - k,
        {
            let (v, c) = pairs[k];
            proof {
                assert(pairs@.contains(pairs@[k as int]));
                assert(in_pairs(pairs@, v.0, c));
                assert(pairs@.subrange(start as int, end as int)[k - start] == pairs@[k as int]);
                assert(in_pairs(pairs@.subrange(start as int, end as int), v.0, c));
            }
            match find_by_vertex(&self.rows, self.rows.len(), repo, v.0) {
                Some(i) => {
                    let existing = self.rows[i].cs_id;
                    if existing != c {
                        let ghost row = self.rows@[i as int];
                        proof {
                            if (i as int) < n0 {
                                assert(old_rows[i as int] == row);
                                assert(has_row(old_rows, repo, v.0, existing));
                            } else {
                                assert(in_pairs(pairs@.subrange(start as int, end as int), v.0, existing));
                            }
                        }
                        self.rows.truncate(n0);
                        assert(self.rows@ =~= old_rows);
                        return Err(IdMapError::DuplicateAssignment { vertex: v, existing, attempted: c });
                    }
                    proof {
                        assert(has_row(self.rows@, repo, v.0, c));
                    }
                },
                None => {
                    match find_by_cs(&self.rows, self.rows.len(), repo, c) {
                        Some(i) => {
                            let w = self.rows[i].vertex;
                            proof {
                                assert(has_row(self.rows@, repo, w.0, c));
                                assert(w.0 != v.0);
                                if (i as int) < n0 {
                                    assert(old_rows[i as int] == self.rows@[i as int]);
                                    assert(has_row(old_rows, repo, w.0, c));
                                } else {
                                    assert(in_pairs(pairs@.subrange(start as int, end as int), w.0, c));
                                }
                            }
                            assert(w.0 != v.0 && (has_row(old_rows, repo, w.0, c) || in_pairs(pairs@.subrange(start as int, end as int), w.0, c)));
                            self.rows.truncate(n0);
                            assert(self.rows@ =~= old_rows);
                            return Err(IdMapError::ChangesetAssigned { vertex: v, cs_id: c, assigned_to: w });
                        },
                        None => {
                            let row = IdMapRow { repo_id: repo, vertex: v, cs_id: c };
                            let ghost before = self.rows@;
                            self.rows.push(row);
                            proof {
                                lemma_has_row_grow(before, row);
                                assert(self.rows@.take(n0 as int) =~= before.take(n0 as int));
                                assert forall|a: int, b: int|
                                    0 <= a < self.rows@.len() && 0 <= b < self.rows@.len() && a != b
                                        && self.rows@[a].repo_id == self.rows@[b].repo_id implies self.rows@[a].vertex
                                    != self.rows@[b].vertex && self.rows@[a].cs_id != self.rows@[b].cs_id by {
                                    if a == before.len() {
                                        assert(before[b] == self.rows@[b]);
                                        assert(has_row(before, repo, before[b].vertex.0, before[b].cs_id));
                                    } else if b == before.len() {
                                        assert(before[a] == self.rows@[a]);
                                        assert(has_row(before, repo, before[a].vertex.0, before[a].cs_id));
                                    } else {
                                        assert(before[a] == self.rows@[a]);
                                        assert(before[b] == self.rows@[b]);
                                    }
                                };
                                assert forall|j: int|
                                    n0 <= j < self.rows@.len() implies self.rows@[j].repo_id == repo
                                        && in_pairs(pairs@.subrange(start as int, end as int), (#[trigger] self.rows@[j]).vertex.0, self.rows@[j].cs_id) by {
                                    if j < before.len() {
                                        assert(before[j] == self.rows@[j]);
                                    } else {
                                        assert(pairs@.subrange(start as int, end as int)[k - start] == pairs@[k as int]);
                                    }
                                };
                                assert forall|r: RepositoryId, vv: u64, cc: ChangesetId|
                                    has_row(old_rows, r, vv, cc) implies #[trigger] has_row(self.rows@, r, vv, cc) by {
                                    assert(has_row(before, r, vv, cc));
                                };
                                assert forall|r: RepositoryId, vv: u64, cc: ChangesetId|
                                    #[trigger] has_row(self.rows@, r, vv, cc) implies has_row(old_rows, r, vv, cc)
                                        || (r == repo && in_pairs(pairs@, vv, cc)) by {
                                    if has_row(before, r, vv, cc) {
                                    }
                                };
                                assert forall|j: int| start <= j < k + 1 implies has_row(
                                    self.rows@,
                                    repo,
                                    (#[trigger] pairs@[j]).0.0,
                                    pairs@[j].1,
                                ) by {
                                    if j < k {
                                        assert(has_row(before, repo, pairs@[j].0.0, pairs@[j].1));
                                    }
                                };
                            }
                        },
                    }
                },
            }
            k = k + 1;
        }
        Ok(())
    }

    /// Stores every pair of `mappings` for `repo`. The pairs are taken in
    /// vertex order and committed in transactions of at most `INSERT_MAX`;
    /// pairs already stored are accepted again. The first pair that would
    /// break the bijection fails the call: its transaction is rolled back,
    /// earlier transactions stay committed.
    pub fn insert_many(&mut self, repo: RepositoryId, mappings: Vec<(Vertex, ChangesetId)>) -> (r: Result<
        (),
        IdMapError,
    >)
        requires
            old(self).wf(),
            old(self).replication_waits + mappings@.len() < u64::MAX,
        ensures
            final(self).wf(),
            grown_by(old(self).rows@, final(self).rows@, repo, mappings@),
            r is Ok <==> fits(old(self).rows@, repo, mappings@),
            r is Ok ==> final(self).replication_waits == old(self).replication_waits + waits_for(mappings@.len() as int),
            r is Err && mappings@.len() <= INSERT_MAX ==> final(self).rows@ == old(self).rows@,
            r is Err ==> committed_prefix(old(self).rows@, final(self).rows@, repo, mappings@),
            r is Ok ==> forall|k: int|
                0 <= k < mappings@.len() ==> has_row(
                    final(self).rows@,
                    repo,
                    (#[trigger] mappings@[k]).0.0,
                    mappings@[k].1,
                ),
            match r {
                Err(e) => conflict_shown(old(self).rows@, repo, mappings@, e),
                Ok(()) => true,
            },
    {
        let ghost old_rows = self.rows@;
        let sorted = sort_by_vertex(&mappings);
        let mut start: usize = 0;
        while start < sorted.len()
            invariant
                start <= sorted@.len(),
                sorted@.len() == mappings@.len(),
                start == 0 ==> self.rows@ == old_rows,
                start > 0 ==> start >= INSERT_MAX || start == sorted@.len(),
                start % INSERT_MAX == 0 || start == sorted@.len(),
                self.replication_waits == old(self).replication_waits + waits_for(start as int),
                old(self).replication_waits + mappings@.len() < u64::MAX,
                forall|x: (Vertex, ChangesetId)| sorted@.contains(x) <==> mappings@.contains(x),
                old_rows == old(self).rows@,
                bijective(old_rows),
                self.wf(),
                grown_by(old_rows, self.rows@, repo, sorted@),
                sorted_by_vertex(sorted@),
                self.rows@.len() >= old_rows.len(),
                self.rows@.take(old_rows.len() as int) == old_rows,
                forall|j: int|
                    old_rows.len() <= j < self.rows@.len() ==> (#[trigger] self.rows@[j]).repo_id == repo && in_pairs(
                        sorted@.take(start as int),
                        self.rows@[j].vertex.0,
                        self.rows@[j].cs_id,
                    ),
                forall|k: int|
                    0 <= k < start ==> has_row(self.rows@, repo, (#[trigger] sorted@[k]).0.0, sorted@[k].1),
            decreases sorted@.len() - start,
        {
            if start > 0 {
                proof {
                    assert(waits_for(start as int) <= start) by (nonlinear_arith)
                        requires start > 0, waits_for(start as int) == (start - 1) / 1000;
                }
                self.wait_for_replication();
            }
            let end: usize = if sorted.len() - start > INSERT_MAX {
                start + INSERT_MAX
            } else {
                sorted.len()
            };
            let ghost cur = self.rows@;
            match self.insert_chunk(repo, &sorted, start, end) {
                Err(e) => {
                    proof {
                        lemma_pairs_same(sorted@, mappings@);
                        lemma_sub_pairs(sorted@, start as int, end as int, end as int);
                        lemma_conflict_not_fits(cur, repo, sorted@.subrange(start as int, end as int), e);
                        lemma_conflict_widen(cur, repo, sorted@.subrange(start as int, end as int), sorted@, e);
                        lemma_conflict_in_old(old_rows, cur, repo, sorted@, e);
                        lemma_conflict_not_fits(old_rows, repo, mappings@, e);
                        let st = start as int;
                        assert(st % 1000 == 0);
                        assert(self.rows@ == cur);
                        let sv = sorted@;
                        assert(sv.len() == mappings@.len() && sorted_by_vertex(sv) && (forall|x: (Vertex, ChangesetId)|
                            sv.contains(x) <==> mappings@.contains(x)) && 0 <= st < sv.len() && st % (INSERT_MAX as int) == 0
                            && cur.len() >= old_rows.len() && cur.take(old_rows.len() as int) == old_rows && (forall|j: int|
                            old_rows.len() <= j < cur.len() ==> (#[trigger] cur[j]).repo_id == repo && in_pairs(
                                sv.take(st),
                                cur[j].vertex.0,
                                cur[j].cs_id,
                            )) && (forall|k: int| 0 <= k < st ==> has_row(cur, repo, (#[trigger] sv[k]).0.0, sv[k].1))
                            && !fits(cur, repo, sv.subrange(st, chunk_end(st, sv.len() as int))));
                        let t = sv.take(st);
                        assert(t.len() == st);
                        assert(committed_prefix(old_rows, cur, repo, mappings@));
                    }
                    return Err(e);
                },
                Ok(()) => {
                    proof {
                        lemma_sub_pairs(sorted@, start as int, end as int, end as int);
                        assert(self.rows@.take(old_rows.len() as int) =~= cur.take(old_rows.len() as int)) by {
                            assert(self.rows@.take(cur.len() as int) == cur);
                        };
                        assert forall|j: int|
                            old_rows.len() <= j < self.rows@.len() implies (#[trigger] self.rows@[j]).repo_id == repo && in_pairs(
                                sorted@.take(end as int),
                                self.rows@[j].vertex.0,
                                self.rows@[j].cs_id,
                            ) by {
                            if j < cur.len() {
                                assert(self.rows@[j] == self.rows@.take(cur.len() as int)[j]);
                                assert(in_pairs(sorted@.take(start as int), cur[j].vertex.0, cur[j].cs_id));
                            }
                        };
                        assert forall|k: int| 0 <= k < end implies has_row(
                            self.rows@,
                            repo,
                            (#[trigger] sorted@[k]).0.0,
                            sorted@[k].1,
                        ) by {
                            if k < start {
                                assert(has_row(cur, repo, sorted@[k].0.0, sorted@[k].1));
                            }
                        };
                        assert forall|r: RepositoryId, v: u64, c: ChangesetId|
                            has_row(old_rows, r, v, c) implies #[trigger] has_row(self.rows@, r, v, c) by {
                            assert(has_row(cur, r, v, c));
                        };
                        assert forall|r: RepositoryId, v: u64, c: ChangesetId|
                            #[trigger] has_row(self.rows@, r, v, c) implies has_row(old_rows, r, v, c) || (r
                                == repo && in_pairs(sorted@, v, c)) by {
                            if has_row(cur, r, v, c) {
                            }
                        };
                    }
                },
            }
            proof {
                let st = start as int;
                let en = end as int;
                if st == 0 {
                    assert((en - 1) / 1000 == 0) by (nonlinear_arith)
                        requires 0 < en <= 1000;
                } else {
                    assert(st % 1000 == 0);
                    assert((en - 1) / 1000 == (st - 1) / 1000 + 1) by (nonlinear_arith)
                        requires st > 0, st % 1000 == 0, st < en, en <= st + 1000;
                    if end < sorted.len() {
                        assert(en % 1000 == 0) by (nonlinear_arith)
                            requires st % 1000 == 0, en == st + 1000;
                    }
                }
            }
            start = end;
        }
        proof {
            lemma_pairs_same(sorted@, mappings@);
            assert forall|k: int| 0 <= k < mappings@.len() implies has_row(
                self.rows@,
                repo,
                (#[trigger] mappings@[k]).0.0,
                mappings@[k].1,
            ) by {
                assert(mappings@.contains(mappings@[k]));
                assert(sorted@.contains(mappings@[k]));
                let j = choose|j: int| 0 <= j < sorted@.len() && sorted@[j] == mappings@[k];
                assert(has_row(self.rows@, repo, sorted@[j].0.0, sorted@[j].1));
            };
            lemma_stored_fits(old_rows, self.rows@, repo, mappings@);
        }
        Ok(())
    }

    /// Stores the single pair `(vertex, cs_id)`.
    pub fn insert(&mut self, repo: RepositoryId, vertex: Vertex, cs_id: ChangesetId) -> (r: Result<
        (),
        IdMapError,
    >)
        requires
            old(self).wf(),
            old(self).replication_waits + 1 < u64::MAX,
        ensures
            final(self).wf(),
            grown_by(old(self).rows@, final(self).rows@, repo, seq![(vertex, cs_id)]),
            r is Ok <==> fits(old(self).rows@, repo, seq![(vertex, cs_id)]),
            r is Ok ==> has_row(final(self).rows@, repo, vertex.0, cs_id),
            match r {
                Err(e) => conflict_shown(old(self).rows@, repo, seq![(vertex, cs_id)], e),
                Ok(()) => true,
            },
    {
        let mut v: Vec<(Vertex, ChangesetId)> = Vec::new();
        v.push((vertex, cs_id));
        assert(v@ =~= seq![(vertex, cs_id)]);
        let r = self.insert_many(repo, v);
        proof {
            if r is Ok {
                assert(has_row(self.rows@, repo, seq![(vertex, cs_id)][0].0.0, seq![(vertex, cs_id)][0].1));
            }
        }
        r
    }

    /// The changeset that `vertex` stands for, if any.
    pub fn find_changeset_id(&self, repo: RepositoryId, vertex: Vertex) -> (r: Option<ChangesetId>)
        requires
            self.wf(),
        ensures
            r == self.changeset_of(repo, vertex.0),
    {
        // the replica first; a vertex it lacks is looked up on the master
        match find_by_vertex(&self.rows, self.replica_len, repo, vertex.0) {
            Some(i) => Some(self.rows[i].cs_id),
            None => match find_by_vertex(&self.rows, self.rows.len(), repo, vertex.0) {
                Some(i) => Some(self.rows[i].cs_id),
                None => None,
            },
        }
    }

    /// Like `find_changeset_id`, but a missing vertex is an error.
    pub fn get_changeset_id(&self, repo: RepositoryId, vertex: Vertex) -> (r: Result<ChangesetId, IdMapError>)
        requires
            self.wf(),
        ensures
            match r {
                Ok(c) => self.changeset_of(repo, vertex.0) == Some(c),
                Err(e) => self.changeset_of(repo, vertex.0) is None && e == (IdMapError::VertexNotFound {
                    vertex,
                }),
            },
    {
        match self.find_changeset_id(repo, vertex) {
            Some(c) => Ok(c),
            None => Err(IdMapError::VertexNotFound { vertex }),
        }
    }

    /// The vertex that stands for `cs_id`, if any.
    pub fn find_vertex(&self, repo: RepositoryId, cs_id: ChangesetId) -> (r: Option<Vertex>)
        requires
            self.wf(),
        ensures
            match r {
                Some(v) => self.vertex_for(repo, cs_id) == Some(v.0),
                None => self.vertex_for(repo, cs_id) is None,
            },
    {
        // the replica first; a changeset it lacks is looked up on the master
        match find_by_cs(&self.rows, self.replica_len, repo, cs_id) {
            Some(i) => Some(self.rows[i].vertex),
            None => match find_by_cs(&self.rows, self.rows.len(), repo, cs_id) {
                Some(i) => Some(self.rows[i].vertex),
                None => None,
            },
        }
    }

    /// Like `find_vertex`, but a missing changeset is an error.
    pub fn get_vertex(&self, repo: RepositoryId, cs_id: ChangesetId) -> (r: Result<Vertex, IdMapError>)
        requires
            self.wf(),
        ensures
            match r {
                Ok(v) => self.vertex_for(repo, cs_id) == Some(v.0),
                Err(e) => self.vertex_for(repo, cs_id) is None && e == (IdMapError::ChangesetNotFound {
                    cs_id,
                }),
            },
    {
        match self.find_vertex(repo, cs_id) {
            Some(v) => Ok(v),
            None => Err(IdMapError::ChangesetNotFound { cs_id }),
        }
    }

    /// The stored pairs whose vertex is among `vertexes`, each once; absent
    /// vertexes are left out.
    pub fn find_many_changeset_ids(&self, repo: RepositoryId, vertexes: &Vec<Vertex>) -> (r: Vec<
        (Vertex, ChangesetId),
    >)
        requires
            self.wf(),
        ensures
            forall|k: int|
                0 <= k < r@.len() ==> vertexes@.contains((#[trigger] r@[k]).0) && self.changeset_of(
                    repo,
                    r@[k].0.0,
                ) == Some(r@[k].1),
            forall|i: int|
                0 <= i < vertexes@.len() && self.changeset_of(repo, (#[trigger] vertexes@[i]).0) is Some
                    ==> r@.contains((vertexes@[i], self.changeset_of(repo, vertexes@[i].0)->Some_0)),
            forall|a: int, b: int| 0 <= a < b < r@.len() ==> r@[a].0 != r@[b].0,
    {
        let mut out: Vec<(Vertex, ChangesetId)> = Vec::new();
        let mut i: usize = 0;
        while i < vertexes.len()
            invariant
                i <= vertexes@.len(),
                self.wf(),
                forall|k: int|
                    0 <= k < out@.len() ==> vertexes@.contains((#[trigger] out@[k]).0) && self.changeset_of(
                        repo,
                        out@[k].0.0,
                    ) == Some(out@[k].1),
                forall|j: int|
                    0 <= j < i && self.changeset_of(repo, (#[trigger] vertexes@[j]).0) is Some
                        ==> out@.contains((vertexes@[j], self.changeset_of(repo, vertexes@[j].0)->Some_0)),
                forall|a: int, b: int| 0 <= a < b < out@.len() ==> out@[a].0 != out@[b].0,
            decreases vertexes@.len() - i,
        {
            let v = vertexes[i];
            assert(vertexes@.contains(v));
            let mut seen = false;
            let mut k: usize = 0;
            while k < out.len()
                invariant
                    k <= out@.len(),
                    seen == exists|m: int| 0 <= m < k && out@[m].0 == v,
                decreases out@.len() - k,
            {
                if out[k].0 == v {
                    seen = true;
                }
                k = k + 1;
            }
            if !seen {
                match self.find_changeset_id(repo, v) {
                    Some(c) => {
                        let ghost o = out@;
                        out.push((v, c));
                        proof {
                            assert(out@[o.len() as int] == (v, c));
                            assert forall|j: int|
                                0 <= j < i + 1 && self.changeset_of(repo, (#[trigger] vertexes@[j]).0) is Some
                                    implies out@.contains((vertexes@[j], self.changeset_of(repo, vertexes@[j].0)->Some_0)) by {
                                if j < i {
                                    let c2 = self.changeset_of(repo, vertexes@[j].0)->Some_0;
                                    let m = choose|m: int| 0 <= m < o.len() && o[m] == (vertexes@[j], c2);
                                    assert(out@[m] == o[m]);
                                }
                            };
                        }
                    },
                    None => {},
                }
            } else {
                proof {
                    let m = choose|m: int| 0 <= m < out@.len() && out@[m].0 == v;
                    if self.changeset_of(repo, v.0) is Some {
                        assert(out@[m].1 == self.changeset_of(repo, v.0)->Some_0);
                        assert(out@[m] == (v, self.changeset_of(repo, v.0)->Some_0));
                    }
                }
            }
            i = i + 1;
        }
        out
    }

    /// The pair with the largest vertex of `repo`, if `repo` has any.
    pub fn get_last_entry(&self, repo: RepositoryId) -> (r: Option<(Vertex, ChangesetId)>)
        requires
            self.wf(),
        ensures
            match r {
                Some((v, c)) => has_row(self.rows@, repo, v.0, c) && forall|w: u64, d: ChangesetId|
                    #[trigger] has_row(self.rows@, repo, w, d) ==> w <= v.0,
                None => forall|w: u64, d: ChangesetId| !#[trigger] has_row(self.rows@, repo, w, d),
            },
    {
        let mut best: Option<(Vertex, ChangesetId)> = None;
        let mut i: usize = 0;
        while i < self.rows.len()
            invariant
                i <= self.rows@.len(),
                match best {
                    Some((v, c)) => has_row(self.rows@, repo, v.0, c) && forall|j: int|
                        0 <= j < i && (#[trigger] self.rows@[j]).repo_id == repo ==> self.rows@[j].vertex.0 <= v.0,
                    None => forall|j: int| 0 <= j < i ==> (#[trigger] self.rows@[j]).repo_id != repo,
                },
            decreases self.rows@.len() - i,
        {
            let row = self.rows[i];
            if row.repo_id == repo {
                let better = match best {
                    None => true,
                    Some((v, _)) => row.vertex.0 > v.0,
                };
                if better {
                    best = Some((row.vertex, row.cs_id));
                    assert(has_row(self.rows@, repo, row.vertex.0, row.cs_id));
                }
            }
            i = i + 1;
        }
        proof {
            match best {
                Some((v, c)) => {
                    assert forall|w: u64, d: ChangesetId| #[trigger] has_row(self.rows@, repo, w, d) implies w <= v.0 by {
                        let j = choose|j: int|
                            0 <= j < self.rows@.len() && self.rows@[j].repo_id == repo && self.rows@[j].vertex.0 == w
                                && self.rows@[j].cs_id == d;
                    };
                },
                None => {
                    assert forall|w: u64, d: ChangesetId| !#[trigger] has_row(self.rows@, repo, w, d) by {
                        if has_row(self.rows@, repo, w, d) {
                            let j = choose|j: int|
                                0 <= j < self.rows@.len() && self.rows@[j].repo_id == repo && self.rows@[j].vertex.0 == w
                                    && self.rows@[j].cs_id == d;
                        }
                    };
                },
            }
        }
        best
    }
} // impl IdMap

proof fn lemma_pairs_same(a: Seq<(Vertex, ChangesetId)>, b: Seq<(Vertex, ChangesetId)>)
    requires
        forall|x: (Vertex, ChangesetId)| a.contains(x) <==> b.contains(x),
    ensures
        forall|v: u64, c: ChangesetId| #[trigger] in_pairs(a, v, c) <==> in_pairs(b, v, c),
{
}

proof fn lemma_conflict_widen(
    rows: Seq<IdMapRow>,
    repo: RepositoryId,
    sub: Seq<(Vertex, ChangesetId)>,
    full: Seq<(Vertex, ChangesetId)>,
    e: IdMapError,
)
    requires
        conflict_shown(rows, repo, sub, e),
        forall|v: u64, c: ChangesetId| #[trigger] in_pairs(sub, v, c) ==> in_pairs(full, v, c),
    ensures
        conflict_shown(rows, repo, full, e),
{
}

proof fn lemma_conflict_in_old(
    old_rows: Seq<IdMapRow>,
    cur: Seq<IdMapRow>,
    repo: RepositoryId,
    pairs: Seq<(Vertex, ChangesetId)>,
    e: IdMapError,
)
    requires
        grown_by(old_rows, cur, repo, pairs),
        conflict_shown(cur, repo, pairs, e),
    ensures
        conflict_shown(old_rows, repo, pairs, e),
{
}

/// In a bijective table, a stored pair is what both lookups give.
pub proof fn lemma_stored_pair(rows: Seq<IdMapRow>, repo: RepositoryId, v: u64, c: ChangesetId)
    requires
        bijective(rows),
        has_row(rows, repo, v, c),
    ensures
        cs_of(rows, repo, v) == Some(c),
        vertex_of(rows, repo, c) == Some(v),
{
    let i = choose|i: int| 0 <= i < rows.len() && rows[i].repo_id == repo && rows[i].vertex.0 == v && rows[i].cs_id == c;
    lemma_row_lookup(rows, i);
}

proof fn lemma_has_row_unique(rows: Seq<IdMapRow>, repo: RepositoryId, v1: u64, c1: ChangesetId, v2: u64, c2: ChangesetId)
    requires
        bijective(rows),
        has_row(rows, repo, v1, c1),
        has_row(rows, repo, v2, c2),
    ensures
        (v1 == v2) <==> (c1 == c2),
{
    let i = choose|i: int| 0 <= i < rows.len() && rows[i].repo_id == repo && rows[i].vertex.0 == v1 && rows[i].cs_id == c1;
    let j = choose|j: int| 0 <= j < rows.len() && rows[j].repo_id == repo && rows[j].vertex.0 == v2 && rows[j].cs_id == c2;
    if i != j {
        assert(rows[i].vertex != rows[j].vertex);
    }
}

proof fn lemma_lookup_has_row(rows: Seq<IdMapRow>, repo: RepositoryId, v: u64, c: ChangesetId)
    ensures
        cs_of(rows, repo, v) == Some(c) ==> has_row(rows, repo, v, c),
        vertex_of(rows, repo, c) == Some(v) ==> has_row(rows, repo, v, c),
{
    if cs_of(rows, repo, v) == Some(c) {
        let i = choose|i: int| 0 <= i < rows.len() && rows[i].repo_id == repo && rows[i].vertex.0 == v;
        assert(rows[i].cs_id == c);
    }
    if vertex_of(rows, repo, c) == Some(v) {
        let i = choose|i: int| 0 <= i < rows.len() && rows[i].repo_id == repo && rows[i].cs_id == c;
        assert(rows[i].vertex.0 == v);
    }
}

proof fn lemma_conflict_not_fits(rows: Seq<IdMapRow>, repo: RepositoryId, pairs: Seq<(Vertex, ChangesetId)>, e: IdMapError)
    requires
        bijective(rows),
        conflict_shown(rows, repo, pairs, e),
    ensures
        !fits(rows, repo, pairs),
{
    match e {
        IdMapError::DuplicateAssignment { vertex, existing, attempted } => {
            let i = choose|i: int| 0 <= i < pairs.len() && pairs[i] == (vertex, attempted);
            if has_row(rows, repo, vertex.0, existing) {
                let k = choose|k: int| 0 <= k < rows.len() && rows[k].repo_id == repo && rows[k].vertex.0 == vertex.0 && rows[k].cs_id == existing;
                lemma_row_lookup(rows, k);
                assert(cs_of(rows, repo, pairs[i].0.0) == Some(existing));
            } else {
                let j = choose|j: int| 0 <= j < pairs.len() && pairs[j] == (vertex, existing);
                assert(pairs[i].0 == pairs[j].0);
            }
        },
        IdMapError::ChangesetAssigned { vertex, cs_id, assigned_to } => {
            let i = choose|i: int| 0 <= i < pairs.len() && pairs[i] == (vertex, cs_id);
            if has_row(rows, repo, assigned_to.0, cs_id) {
                let k = choose|k: int| 0 <= k < rows.len() && rows[k].repo_id == repo && rows[k].vertex.0 == assigned_to.0 && rows[k].cs_id == cs_id;
                lemma_row_lookup(rows, k);
                assert(vertex_of(rows, repo, pairs[i].1) == Some(assigned_to.0));
            } else {
                let j = choose|j: int| 0 <= j < pairs.len() && pairs[j] == (assigned_to, cs_id);
                assert(pairs[i].1 == pairs[j].1);
                assert(pairs[i].0 != pairs[j].0);
            }
        },
        _ => {},
    }
}

proof fn lemma_stored_fits(old_rows: Seq<IdMapRow>, rows: Seq<IdMapRow>, repo: RepositoryId, pairs: Seq<(Vertex, ChangesetId)>)
    requires
        bijective(old_rows),
        bijective(rows),
        rows_within(old_rows, rows),
        forall|k: int| 0 <= k < pairs.len() ==> has_row(rows, repo, (#[trigger] pairs[k]).0.0, pairs[k].1),
    ensures
        fits(old_rows, repo, pairs),
{
    assert forall|i: int| 0 <= i < pairs.len() implies match cs_of(old_rows, repo, (#[trigger] pairs[i]).0.0) {
        Some(c) => c == pairs[i].1,
        None => true,
    } by {
        if let Some(c) = cs_of(old_rows, repo, pairs[i].0.0) {
            lemma_lookup_has_row(old_rows, repo, pairs[i].0.0, c);
            assert(has_row(rows, repo, pairs[i].0.0, c));
            lemma_has_row_unique(rows, repo, pairs[i].0.0, c, pairs[i].0.0, pairs[i].1);
        }
    };
    assert forall|i: int| 0 <= i < pairs.len() implies match vertex_of(old_rows, repo, (#[trigger] pairs[i]).1) {
        Some(v) => v == pairs[i].0.0,
        None => true,
    } by {
        if let Some(v) = vertex_of(old_rows, repo, pairs[i].1) {
            lemma_lookup_has_row(old_rows, repo, v, pairs[i].1);
            assert(has_row(rows, repo, v, pairs[i].1));
            lemma_has_row_unique(rows, repo, v, pairs[i].1, pairs[i].0.0, pairs[i].1);
        }
    };
    assert forall|i: int, j: int| 0 <= i < pairs.len() && 0 <= j < pairs.len() implies ((#[trigger] pairs[i]).0
        == (#[trigger] pairs[j]).0 <==> pairs[i].1 == pairs[j].1) by {
        lemma_has_row_unique(rows, repo, pairs[i].0.0, pairs[i].1, pairs[j].0.0, pairs[j].1);
    };
}

/// Round trip: in a well-formed IdMap, `v` stands for `c` exactly when `c`
/// is stood for by `v`.
pub proof fn law_round_trip(map: IdMap, repo: RepositoryId, v: u64, c: ChangesetId)
    requires
        map.wf(),
    ensures
        map.changeset_of(repo, v) == Some(c) <==> map.vertex_for(repo, c) == Some(v),
{
    lemma_lookup_has_row(map.rows@, repo, v, c);
    if has_row(map.rows@, repo, v, c) {
        let i = choose|i: int|
            0 <= i < map.rows@.len() && map.rows@[i].repo_id == repo && map.rows@[i].vertex.0 == v && map.rows@[i].cs_id == c;
        lemma_row_lookup(map.rows@, i);
    }
}

pub open spec fn c2v(s: Seq<(ChangesetId, Vertex)>, c: ChangesetId) -> Option<u64> {
    if exists|i: int| 0 <= i < s.len() && s[i].0 == c {
        Some(s[choose|i: int| 0 <= i < s.len() && s[i].0 == c].1.0)
    } else {
        None
    }
}

pub open spec fn keys_unique_c(s: Seq<(ChangesetId, Vertex)>) -> bool {
    forall|i: int, j: int| 0 <= i < s.len() && 0 <= j < s.len() && i != j ==> s[i].0 != s[j].0
}

/// An IdMap held in memory for staging: two maps, vertex to changeset and
/// changeset to vertex, each overwritten by `insert`. The changeset side is
/// a list with distinct keys: its key is a struct, for which std's hash map
/// has no usable specification here.
pub struct MemIdMap {
    pub vertex2cs: HashMap<u64, ChangesetId>,
    pub cs2vertex: Vec<(ChangesetId, Vertex)>,
}

impl MemIdMap {
    pub open spec fn wf(self) -> bool {
        keys_unique_c(self.cs2vertex@)
    }

    pub open spec fn vertex_map(self) -> Map<u64, ChangesetId> {
        self.vertex2cs@
    }

    pub open spec fn cs_map(self) -> Map<ChangesetId, u64> {
        Map::new(|c: ChangesetId| c2v(self.cs2vertex@, c) is Some, |c: ChangesetId| c2v(self.cs2vertex@, c)->Some_0)
    }

    pub fn new() -> (r: MemIdMap)
        ensures
            r.wf(),
            r.vertex_map() == Map::<u64, ChangesetId>::empty(),
            r.cs_map() == Map::<ChangesetId, u64>::empty(),
    {
        let r = MemIdMap { vertex2cs: HashMap::new(), cs2vertex: Vec::new() };
        assert(r.cs_map() =~= Map::<ChangesetId, u64>::empty());
        r
    }

    /// The vertices stored are finitely many.
    pub proof fn lemma_vertex_map_finite(self)
        ensures
            self.vertex_map().dom().finite(),
    {
        broadcast use vstd::std_specs::hash::group_hash_axioms;

    }

    /// The number of vertices stored.
    pub fn len(&self) -> (r: usize)
        ensures
            self.vertex_map().dom().finite(),
            r == self.vertex_map().dom().len(),
    {
        broadcast use vstd::std_specs::hash::group_hash_axioms;

        self.vertex2cs.len()
    }

    /// The stored (vertex, changeset) pairs.
    pub fn iter(&self) -> (r: Vec<(Vertex, ChangesetId)>)
        ensures
            forall|v: Vertex, c: ChangesetId|
                #[trigger] r@.contains((v, c)) <==> (self.vertex_map().contains_key(v.0) && self.vertex_map()[v.0] == c),
    {
        broadcast use vstd::std_specs::hash::group_hash_axioms;

        let mut out: Vec<(Vertex, ChangesetId)> = Vec::new();
        let ghost all = spec_hash_map_iter(&self.vertex2cs).remaining();
        for kv in it: self.vertex2cs.iter()
            invariant
                out@.len() == it.index(),
                it.seq() == all,
                forall|i: int| 0 <= i < it.index() ==> #[trigger] out@[i] == (Vertex(*it.seq()[i].0), *it.seq()[i].1),
        {
            out.push((Vertex(*kv.0), *kv.1));
        }
        proof {
            let m = self.vertex2cs@;
            assert(all.len() == m.dom().len());
            assert(out@.len() == all.len());
            assert forall|v: Vertex, c: ChangesetId| #[trigger] out@.contains((v, c)) <==> (m.contains_key(v.0) && m[v.0] == c) by {
                if out@.contains((v, c)) {
                    let i = choose|i: int| 0 <= i < out@.len() && out@[i] == (v, c);
                    assert(out@[i] == (Vertex(*all[i].0), *all[i].1));
                    assert(m.contains_key(*all[i].0) && m[*all[i].0] == *all[i].1);
                }
                if m.contains_key(v.0) && m[v.0] == c {
                    assert(all.contains((&v.0, &m[v.0])));
                    let i = choose|i: int| 0 <= i < all.len() && all[i] == (&v.0, &m[v.0]);
                    assert(out@[i] == (Vertex(v.0), c));
                    assert(out@[i] == (v, c));
                }
            };
        }
        out
    }

    /// Records `vertex <-> cs_id`, replacing what either was mapped to.
    pub fn insert(&mut self, vertex: Vertex, cs_id: ChangesetId)
        requires
            old(self).wf(),
        ensures
            final(self).wf(),
            final(self).vertex_map() == old(self).vertex_map().insert(vertex.0, cs_id),
            final(self).cs_map() == old(self).cs_map().insert(cs_id, vertex.0),
            final(self).vertex_map().dom().finite(),
            old(self).vertex_map().dom().finite(),
    {
        broadcast use vstd::std_specs::hash::group_hash_axioms;

        let ghost t0 = self.cs2vertex@;
        self.vertex2cs.insert(vertex.0, cs_id);
        let mut k: usize = 0;
        let mut found_c = false;
        while !found_c && k < self.cs2vertex.len()
            invariant
                k <= self.cs2vertex@.len(),
                self.cs2vertex@ == t0,
                found_c ==> k < t0.len() && t0[k as int].0 == cs_id,
                forall|j: int| 0 <= j < k ==> t0[j].0 != cs_id,
            decreases self.cs2vertex@.len() - k + (if found_c { 0int } else { 1int }),
        {
            if self.cs2vertex[k].0 == cs_id {
                found_c = true;
            } else {
                k = k + 1;
            }
        }
        if found_c && k < self.cs2vertex.len() {
            self.cs2vertex.set(k, (cs_id, vertex));
        } else {
            self.cs2vertex.push((cs_id, vertex));
        }
        proof {
            let t = self.cs2vertex@;
            assert(keys_unique_c(t)) by {
                assert forall|a: int, b: int| 0 <= a < t.len() && 0 <= b < t.len() && a != b implies t[a].0 != t[b].0 by {
                    if a < t0.len() && b < t0.len() && a != k && b != k {
                        assert(t[a] == t0[a] && t[b] == t0[b]);
                    } else if a < t0.len() && a != k {
                        assert(t[a] == t0[a]);
                    } else if b < t0.len() && b != k {
                        assert(t[b] == t0[b]);
                    }
                };
            };
            assert forall|c: ChangesetId| #[trigger] c2v(t, c) == if c == cs_id { Some(vertex.0) } else { c2v(t0, c) } by {
                if c == cs_id {
                    let j = choose|j: int| 0 <= j < t.len() && t[j].0 == c;
                    let at = if found_c && k < t0.len() { k as int } else { t0.len() as int };
                    assert(t[at].0 == c);
                    assert(j == at) by {
                        if j != at {
                            assert(t[j].0 == t[at].0);
                        }
                    };
                } else {
                    if exists|j: int| 0 <= j < t0.len() && t0[j].0 == c {
                        let j = choose|j: int| 0 <= j < t0.len() && t0[j].0 == c;
                        assert(t[j] == t0[j]);
                        let j2 = choose|j2: int| 0 <= j2 < t.len() && t[j2].0 == c;
                        assert(j2 == j) by {
                            if j2 != j {
                                assert(t[j2].0 == t[j].0);
                            }
                        };
                    } else if exists|j: int| 0 <= j < t.len() && t[j].0 == c {
                        let j = choose|j: int| 0 <= j < t.len() && t[j].0 == c;
                        if j < t0.len() {
                            assert(t0[j] == t[j]);
                        }
                    }
                }
            };
            assert(self.cs_map() =~= old(self).cs_map().insert(cs_id, vertex.0));
        }
    }

    pub fn find_changeset_id(&self, vertex: Vertex) -> (r: Option<ChangesetId>)
        ensures
            match r {
                Some(c) => self.vertex_map().contains_key(vertex.0) && self.vertex_map()[vertex.0] == c,
                None => !self.vertex_map().contains_key(vertex.0),
            },
    {
        broadcast use vstd::std_specs::hash::group_hash_axioms;

        match self.vertex2cs.get(&vertex.0) {
            Some(c) => Some(*c),
            None => None,
        }
    }

    pub fn get_changeset_id(&self, vertex: Vertex) -> (r: Result<ChangesetId, IdMapError>)
        requires
            self.wf(),
        ensures
            match r {
                Ok(c) => self.vertex_map().contains_key(vertex.0) && self.vertex_map()[vertex.0] == c,
                Err(e) => !self.vertex_map().contains_key(vertex.0) && e == (IdMapError::VertexNotFound {
                    vertex,
                }),
            },
    {
        match self.find_changeset_id(vertex) {
            Some(c) => Ok(c),
            None => Err(IdMapError::VertexNotFound { vertex }),
        }
    }

    pub fn find_vertex(&self, cs_id: ChangesetId) -> (r: Option<Vertex>)
        requires
            self.wf(),
        ensures
            match r {
                Some(v) => self.cs_map().contains_key(cs_id) && self.cs_map()[cs_id] == v.0,
                None => !self.cs_map().contains_key(cs_id),
            },
    {
        let mut i: usize = 0;
        while i < self.cs2vertex.len()
            invariant
                i <= self.cs2vertex@.len(),
                self.wf(),
                forall|j: int| 0 <= j < i ==> self.cs2vertex@[j].0 != cs_id,
            decreases self.cs2vertex@.len() - i,
        {
            if self.cs2vertex[i].0 == cs_id {
                proof {
                    let t = self.cs2vertex@;
                    let j = choose|j: int| 0 <= j < t.len() && t[j].0 == cs_id;
                    if j != i {
                        assert(t[j].0 == t[i as int].0);
                    }
                }
                return Some(self.cs2vertex[i].1);
            }
            i = i + 1;
        }
        None
    }

    pub fn get_vertex(&self, cs_id: ChangesetId) -> (r: Result<Vertex, IdMapError>)
        requires
            self.wf(),
        ensures
            match r {
                Ok(v) => self.cs_map().contains_key(cs_id) && self.cs_map()[cs_id] == v.0,
                Err(e) => !self.cs_map().contains_key(cs_id) && e == (IdMapError::ChangesetNotFound {
                    cs_id,
                }),
            },
    {
        match self.find_vertex(cs_id) {
            Some(v) => Ok(v),
            None => Err(IdMapError::ChangesetNotFound { cs_id }),
        }
    }
}

/// After a successful `insert_many`, each inserted pair reads back both
/// ways: `find_vertex(find_changeset_id(v)) == v` and the converse.
pub proof fn law_inserted_pairs_round_trip(map: IdMap, repo: RepositoryId, mappings: Seq<(Vertex, ChangesetId)>, k: int)
    requires
        map.wf(),
        0 <= k < mappings.len(),
        forall|i: int| 0 <= i < mappings.len() ==> has_row(map.rows@, repo, (#[trigger] mappings[i]).0.0, mappings[i].1),
    ensures
        map.changeset_of(repo, mappings[k].0.0) == Some(mappings[k].1),
        map.vertex_for(repo, mappings[k].1) == Some(mappings[k].0.0),
{
    lemma_stored_pair(map.rows@, repo, mappings[k].0.0, mappings[k].1);
}

} // verus!
