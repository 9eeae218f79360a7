//! The commit store: commit texts kept under the SHA-1 of their canonical
//! header and payload, and a graph of the stored commits in which every
//! vertex comes after its parents.
use crate::nameset::{VertexName, views};
use crate::request::hex_digit_of;
use sha1::Digest;
use vstd::prelude::*;

verus! {

/// The SHA-1 digest of `data`.
pub uninterp spec fn sha1_of(data: Seq<u8>) -> Seq<u8>;

/// Relies on `sha1::Sha1::digest`: the 20-byte SHA-1 digest of the input.
#[verifier::external_body]
fn sha1_digest(data: &[u8]) -> (r: Vec<u8>)
    ensures
        r@ == sha1_of(data@),
        r@.len() == 20,
{
    sha1::Sha1::digest(data).to_vec()
}

/// Byte-wise lexicographic order.
pub open spec fn lex_lt(a: Seq<u8>, b: Seq<u8>) -> bool
    decreases a.len(),
{
    if a.len() == 0 {
        b.len() > 0
    } else if b.len() == 0 {
        false
    } else if a[0] != b[0] {
        a[0] < b[0]
    } else {
        lex_lt(a.drop_first(), b.drop_first())
    }
}

pub proof fn lemma_lex_irreflexive(a: Seq<u8>)
    ensures
        !lex_lt(a, a),
    decreases a.len(),
{
    if a.len() > 0 {
        lemma_lex_irreflexive(a.drop_first());
    }
}

pub proof fn lemma_lex_total(a: Seq<u8>, b: Seq<u8>)
    ensures
        a != b ==> lex_lt(a, b) || lex_lt(b, a),
        lex_lt(a, b) ==> !lex_lt(b, a),
    decreases a.len(),
{
    if a.len() > 0 && b.len() > 0 && a[0] == b[0] {
        lemma_lex_total(a.drop_first(), b.drop_first());
        if a != b {
            assert(a == seq![a[0]] + a.drop_first());
            assert(b == seq![b[0]] + b.drop_first());
        }
    } else if a.len() == 0 && b.len() == 0 {
        assert(a =~= b);
    }
}

pub proof fn lemma_lex_transitive(a: Seq<u8>, b: Seq<u8>, c: Seq<u8>)
    requires
        lex_lt(a, b),
        lex_lt(b, c),
    ensures
        lex_lt(a, c),
    decreases a.len(),
{
    if a.len() > 0 && b.len() > 0 && c.len() > 0 && a[0] == b[0] && b[0] == c[0] {
        lemma_lex_transitive(a.drop_first(), b.drop_first(), c.drop_first());
    }
}

/// Whether `a` sorts before `b`.
pub fn bytes_lt(a: &[u8], b: &[u8]) -> (r: bool)
    ensures
        r == lex_lt(a@, b@),
{
    let mut i: usize = 0;
    assert(a@.skip(0) =~= a@);
    assert(b@.skip(0) =~= b@);
    while i < a.len() && i < b.len()
        invariant
            i <= a@.len(),
            i <= b@.len(),
            lex_lt(a@, b@) == lex_lt(a@.skip(i as int), b@.skip(i as int)),
        decreases a@.len() - i,
    {
        if a[i] != b[i] {
            assert(a@.skip(i as int)[0] == a@[i as int]);
            assert(b@.skip(i as int)[0] == b@[i as int]);
            return a[i] < b[i];
        }
        assert(a@.skip(i as int).drop_first() =~= a@.skip(i as int + 1));
        assert(b@.skip(i as int).drop_first() =~= b@.skip(i as int + 1));
        i = i + 1;
    }
    b.len() > i
}

/// The id of an absent parent: twenty zero bytes.
pub open spec fn null_id() -> Seq<u8> {
    Seq::new(20, |i: int| 0u8)
}

pub open spec fn parent_or_null(parents: Seq<Seq<u8>>, i: int) -> Seq<u8> {
    if i < parents.len() {
        parents[i]
    } else {
        null_id()
    }
}

/// The first two parents (null when absent), the smaller one first.
pub open spec fn canonical_header(parents: Seq<Seq<u8>>) -> Seq<u8> {
    let p1 = parent_or_null(parents, 0);
    let p2 = parent_or_null(parents, 1);
    if lex_lt(p1, p2) {
        p1 + p2
    } else {
        p2 + p1
    }
}

/// The hashed text of a commit: its canonical header, then its payload.
pub open spec fn text_with_header_spec(raw: Seq<u8>, parents: Seq<Seq<u8>>) -> Seq<u8> {
    canonical_header(parents) + raw
}

fn null_name() -> (r: Vec<u8>)
    ensures
        r@ == null_id(),
{
    let mut v: Vec<u8> = Vec::new();
    let mut i: usize = 0;
    while i < 20
        invariant
            i <= 20,
            v@ == Seq::new(i as nat, |k: int| 0u8),
        decreases 20 - i,
    {
        v.push(0u8);
        i = i + 1;
        assert(v@ =~= Seq::new(i as nat, |k: int| 0u8));
    }
    v
}

fn append_bytes(out: &mut Vec<u8>, b: &[u8])
    ensures
        final(out)@ == old(out)@ + b@,
{
    let ghost start = out@;
    let mut i: usize = 0;
    while i < b.len()
        invariant
            i <= b@.len(),
            out@ == start + b@.take(i as int),
        decreases b@.len() - i,
    {
        out.push(b[i]);
        i = i + 1;
        assert(out@ =~= start + b@.take(i as int));
    }
    assert(b@.take(b@.len() as int) =~= b@);
}

/// The text whose SHA-1 names a commit: the canonical header of its
/// parents followed by its payload.
pub fn text_with_header(raw_text: &[u8], parents: &Vec<VertexName>) -> (r: Vec<u8>)
    ensures
        r@ == text_with_header_spec(raw_text@, views(parents@)),
{
    let ghost ps = views(parents@);
    let p1: Vec<u8> = if parents.len() > 0 {
        parents[0].bytes.clone()
    } else {
        null_name()
    };
    let p2: Vec<u8> = if parents.len() > 1 {
        parents[1].bytes.clone()
    } else {
        null_name()
    };
    assert(p1@ =~= parent_or_null(ps, 0));
    assert(p2@ =~= parent_or_null(ps, 1));
    let mut result: Vec<u8> = Vec::new();
    if bytes_lt(p1.as_slice(), p2.as_slice()) {
        append_bytes(&mut result, p1.as_slice());
        append_bytes(&mut result, p2.as_slice());
    } else {
        append_bytes(&mut result, p2.as_slice());
        append_bytes(&mut result, p1.as_slice());
    }
    append_bytes(&mut result, raw_text);
    assert(result@ =~= text_with_header_spec(raw_text@, ps));
    result
}

/// A commit to add: its name (the SHA-1 of its hashed text), its parents
/// and its payload.
pub struct HgCommit {
    pub vertex: VertexName,
    pub parents: Vec<VertexName>,
    pub raw_text: Vec<u8>,
}

pub struct StoredBlob {
    pub key: Vec<u8>,
    pub text: Vec<u8>,
}

pub struct DagNode {
    pub vertex: VertexName,
    pub parents: Vec<VertexName>,
}

#[derive(Debug)]
pub enum CommitError {
    /// The SHA-1 of the commit's text, `actual`, differs from its name.
    HashMismatch { expected: Vec<u8>, actual: Vec<u8> },
    /// A parent id is not 20 bytes long.
    InvalidParent { vertex: Vec<u8> },
    /// A parent is neither stored nor among the added commits.
    UnknownParent { vertex: Vec<u8>, parent: Vec<u8> },
    /// A commit id is not 20 bytes long.
    InvalidId,
    /// The graph does not hold this vertex.
    UnknownVertex { vertex: Vec<u8> },
    /// The first-parent chain is shorter than asked for.
    NoSuchAncestor,
}

pub open spec fn commit_text(c: HgCommit) -> Seq<u8> {
    text_with_header_spec(c.raw_text@, views(c.parents@))
}

pub open spec fn blob_keyed(blobs: Seq<StoredBlob>, k: Seq<u8>) -> bool {
    exists|i: int| 0 <= i < blobs.len() && blobs[i].key@ == k
}

pub open spec fn in_dag(dag: Seq<DagNode>, v: Seq<u8>) -> bool {
    exists|i: int| 0 <= i < dag.len() && dag[i].vertex@ == v
}

pub open spec fn short_parents(c: HgCommit) -> bool {
    exists|j: int| 0 <= j < c.parents@.len() && c.parents@[j]@.len() != 20
}

/// A stored commit store and commit graph.
pub struct HgCommits {
    pub blobs: Vec<StoredBlob>,
    pub dag: Vec<DagNode>,
}

pub open spec fn blobs_ok(blobs: Seq<StoredBlob>) -> bool {
    forall|i: int|
        0 <= i < blobs.len() ==> (#[trigger] blobs[i]).key@ == sha1_of(blobs[i].text@) && blobs[i].text@.len() >= 40
            && blobs[i].key@.len() == 20
}

pub open spec fn dag_unique(dag: Seq<DagNode>) -> bool {
    forall|i: int, j: int| 0 <= i < j < dag.len() ==> dag[i].vertex@ != dag[j].vertex@
}

/// Every parent of a node is an earlier node.
pub open spec fn dag_topo(dag: Seq<DagNode>) -> bool {
    forall|i: int, k: int|
        #![trigger dag[i].parents@[k]]
        0 <= i < dag.len() && 0 <= k < dag[i].parents@.len() ==> in_dag(dag.take(i), dag[i].parents@[k]@)
}

pub open spec fn blob_keys_unique(blobs: Seq<StoredBlob>) -> bool {
    forall|i: int, j: int| 0 <= i < j < blobs.len() ==> blobs[i].key@ != blobs[j].key@
}

/// The text stored under `k`.
pub open spec fn blob_text(blobs: Seq<StoredBlob>, k: Seq<u8>) -> Seq<u8> {
    blobs[choose|i: int| 0 <= i < blobs.len() && blobs[i].key@ == k].text@
}

proof fn lemma_blob_at(blobs: Seq<StoredBlob>, i: int)
    requires
        blob_keys_unique(blobs),
        0 <= i < blobs.len(),
    ensures
        blob_text(blobs, blobs[i].key@) == blobs[i].text@,
{
    let j = choose|j: int| 0 <= j < blobs.len() && blobs[j].key@ == blobs[i].key@;
    if j < i {
        assert(blobs[j].key@ != blobs[i].key@);
    } else if i < j {
        assert(blobs[i].key@ != blobs[j].key@);
    }
}

/// Writing `t` under `v` (in place, or appended when `v` was absent).
proof fn lemma_blob_write(b0: Seq<StoredBlob>, b: Seq<StoredBlob>, v: Seq<u8>, t: Seq<u8>)
    requires
        blob_keys_unique(b0),
        (exists|i: int|
            0 <= i < b0.len() && b0[i].key@ == v && b =~= b0.update(i, b[i]) && b[i].key@ == v && b[i].text@ == t)
            || (!blob_keyed(b0, v) && b.len() == b0.len() + 1 && b.take(b0.len() as int) =~= b0 && b.last().key@ == v
            && b.last().text@ == t),
    ensures
        blob_keys_unique(b),
        blob_keyed(b, v),
        blob_text(b, v) == t,
        forall|k: Seq<u8>| blob_keyed(b0, k) ==> #[trigger] blob_keyed(b, k),
        forall|k: Seq<u8>| k != v && blob_keyed(b0, k) ==> #[trigger] blob_text(b, k) == blob_text(b0, k),
{
    if exists|i: int| 0 <= i < b0.len() && b0[i].key@ == v && b =~= b0.update(i, b[i]) && b[i].key@ == v && b[i].text@ == t {
        let i = choose|i: int| 0 <= i < b0.len() && b0[i].key@ == v && b =~= b0.update(i, b[i]) && b[i].key@ == v && b[i].text@ == t;
        assert forall|x: int, y: int| 0 <= x < y < b.len() implies b[x].key@ != b[y].key@ by {
            if x != i && y != i {
                assert(b[x] == b0[x] && b[y] == b0[y]);
            } else if x == i {
                assert(b[y] == b0[y]);
                assert(b0[x].key@ != b0[y].key@);
            } else {
                assert(b[x] == b0[x]);
                assert(b0[x].key@ != b0[y].key@);
            }
        };
        lemma_blob_at(b, i);
        assert forall|k: Seq<u8>| blob_keyed(b0, k) implies #[trigger] blob_keyed(b, k) by {
            let j = choose|j: int| 0 <= j < b0.len() && b0[j].key@ == k;
            if j == i {
                assert(b[i].key@ == k);
            } else {
                assert(b[j] == b0[j]);
            }
        };
        assert forall|k: Seq<u8>| k != v && blob_keyed(b0, k) implies #[trigger] blob_text(b, k) == blob_text(b0, k) by {
            let j = choose|j: int| 0 <= j < b0.len() && b0[j].key@ == k;
            assert(j != i);
            assert(b[j] == b0[j]);
            lemma_blob_at(b0, j);
            lemma_blob_at(b, j);
        };
    } else {
        let n = b0.len() as int;
        assert forall|x: int, y: int| 0 <= x < y < b.len() implies b[x].key@ != b[y].key@ by {
            assert(b[x] == b.take(n)[x]);
            if y < n {
                assert(b[y] == b.take(n)[y]);
            } else {
                assert(b[y].key@ == v);
                assert(!(0 <= x < b0.len() && b0[x].key@ == v));
            }
        };
        assert(b[n] == b.last());
        lemma_blob_at(b, n);
        assert forall|k: Seq<u8>| blob_keyed(b0, k) implies #[trigger] blob_keyed(b, k) by {
            let j = choose|j: int| 0 <= j < b0.len() && b0[j].key@ == k;
            assert(b[j] == b.take(n)[j]);
        };
        assert forall|k: Seq<u8>| k != v && blob_keyed(b0, k) implies #[trigger] blob_text(b, k) == blob_text(b0, k) by {
            let j = choose|j: int| 0 <= j < b0.len() && b0[j].key@ == k;
            assert(b[j] == b.take(n)[j]);
            lemma_blob_at(b0, j);
            lemma_blob_at(b, j);
        };
    }
}

pub open spec fn dag_stored(dag: Seq<DagNode>, blobs: Seq<StoredBlob>) -> bool {
    forall|i: int| 0 <= i < dag.len() ==> blob_keyed(blobs, (#[trigger] dag[i]).vertex@)
}

impl HgCommits {
    pub open spec fn wf(self) -> bool {
        &&& blobs_ok(self.blobs@)
        &&& blob_keys_unique(self.blobs@)
        &&& dag_unique(self.dag@)
        &&& dag_topo(self.dag@)
        &&& dag_stored(self.dag@, self.blobs@)
    }

    /// An empty store.
    pub fn new() -> (r: HgCommits)
        ensures
            r.wf(),
            r.blobs@.len() == 0,
            r.dag@.len() == 0,
    {
        HgCommits { blobs: Vec::new(), dag: Vec::new() }
    }

    fn blob_index(&self, key: &[u8]) -> (r: Option<usize>)
        ensures
            match r {
                Some(i) => i < self.blobs@.len() && self.blobs@[i as int].key@ == key@,
                None => !blob_keyed(self.blobs@, key@),
            },
    {
        let mut i: usize = 0;
        while i < self.blobs.len()
            invariant
                i <= self.blobs@.len(),
                forall|j: int| 0 <= j < i ==> self.blobs@[j].key@ != key@,
            decreases self.blobs@.len() - i,
        {
            if VertexName::copy_from(self.blobs[i].key.as_slice()).same_as(&VertexName::copy_from(key)) {
                return Some(i);
            }
            i = i + 1;
        }
        None
    }

    /// Whether the graph holds `name`.
    pub fn contains_vertex_name(&self, name: &VertexName) -> (r: bool)
        ensures
            r == in_dag(self.dag@, name@),
    {
        self.dag_index(name).is_some()
    }

    fn dag_index(&self, v: &VertexName) -> (r: Option<usize>)
        ensures
            match r {
                Some(i) => i < self.dag@.len() && self.dag@[i as int].vertex@ == v@,
                None => !in_dag(self.dag@, v@),
            },
    {
        let mut i: usize = 0;
        while i < self.dag.len()
            invariant
                i <= self.dag@.len(),
                forall|j: int| 0 <= j < i ==> self.dag@[j].vertex@ != v@,
            decreases self.dag@.len() - i,
        {
            if self.dag[i].vertex.same_as(v) {
                return Some(i);
            }
            i = i + 1;
        }
        None
    }

    /// The first parent of `parents` that the graph lacks.
    fn unknown_parent(&self, parents: &Vec<VertexName>) -> (r: Option<usize>)
        ensures
            match r {
                Some(k) => k < parents@.len() && !in_dag(self.dag@, parents@[k as int]@),
                None => forall|k: int| 0 <= k < parents@.len() ==> in_dag(self.dag@, #[trigger] parents@[k]@),
            },
    {
        let mut k: usize = 0;
        while k < parents.len()
            invariant
                k <= parents@.len(),
                forall|j: int| 0 <= j < k ==> in_dag(self.dag@, #[trigger] parents@[j]@),
            decreases parents@.len() - k,
        {
            match self.dag_index(&parents[k]) {
                None => return Some(k),
                Some(_) => {},
            }
            k = k + 1;
        }
        None
    }

    /// The parents of `name`, if the graph holds it.
    pub fn parent_names(&self, name: &VertexName) -> (r: Option<Vec<VertexName>>)
        ensures
            match r {
                Some(ps) => exists|i: int|
                    0 <= i < self.dag@.len() && self.dag@[i].vertex@ == name@ && views(ps@) == views(
                        self.dag@[i].parents@,
                    ),
                None => !in_dag(self.dag@, name@),
            },
    {
        match self.dag_index(name) {
            None => None,
            Some(i) => Some(copy_names(&self.dag[i].parents)),
        }
    }

    /// Every vertex of the graph, parents before children.
    pub fn all(&self) -> (r: Vec<VertexName>)
        ensures
            r@.len() == self.dag@.len(),
            forall|i: int| 0 <= i < r@.len() ==> (#[trigger] r@[i])@ == self.dag@[i].vertex@,
    {
        let mut out: Vec<VertexName> = Vec::new();
        let mut i: usize = 0;
        while i < self.dag.len()
            invariant
                i <= self.dag@.len(),
                out@.len() == i,
                forall|j: int| 0 <= j < i ==> (#[trigger] out@[j])@ == self.dag@[j].vertex@,
            decreases self.dag@.len() - i,
        {
            out.push(self.dag[i].vertex.duplicate());
            i = i + 1;
        }
        out
    }

    /// The payload of the commit stored under `vertex`: its text without
    /// the 40-byte header.
    pub fn get_commit_raw_text(&self, vertex: &VertexName) -> (r: Result<Option<Vec<u8>>, CommitError>)
        requires
            self.wf(),
        ensures
            match r {
                Err(e) => vertex@.len() != 20 && e is InvalidId,
                Ok(None) => vertex@.len() == 20 && !blob_keyed(self.blobs@, vertex@),
                Ok(Some(t)) => vertex@.len() == 20 && blob_keyed(self.blobs@, vertex@) && t@ == blob_text(
                    self.blobs@,
                    vertex@,
                ).skip(40) && sha1_of(blob_text(self.blobs@, vertex@)) == vertex@,
            },
    {
        if vertex.bytes.len() != 20 {
            return Err(CommitError::InvalidId);
        }
        match self.blob_index(vertex.as_bytes()) {
            None => Ok(None),
            Some(i) => {
                let text = &self.blobs[i].text;
                assert(self.blobs@[i as int].text@.len() >= 40);
                let mut out: Vec<u8> = Vec::new();
                let mut j: usize = 40;
                while j < text.len()
                    invariant
                        40 <= j <= text@.len(),
                        out@ == text@.subrange(40, j as int),
                    decreases text@.len() - j,
                {
                    out.push(text[j]);
                    j = j + 1;
                    assert(out@ =~= text@.subrange(40, j as int));
                }
                assert(out@ =~= text@.skip(40));
                proof {
                    lemma_blob_at(self.blobs@, i as int);
                }
                Ok(Some(out))
            },
        }
    }
}

fn copy_names(v: &Vec<VertexName>) -> (r: Vec<VertexName>)
    ensures
        views(r@) == views(v@),
        r@.len() == v@.len(),
{
    let mut out: Vec<VertexName> = Vec::new();
    let mut i: usize = 0;
    while i < v.len()
        invariant
            i <= v@.len(),
            views(out@) == views(v@).take(i as int),
            out@.len() == i,
        decreases v@.len() - i,
    {
        let n = v[i].duplicate();
        let ghost o = out@;
        out.push(n);
        assert(views(out@) =~= views(v@).take(i as int + 1));
        i = i + 1;
    }
    assert(views(v@).take(v@.len() as int) =~= views(v@));
    out
}

proof fn lemma_header_len(parents: Seq<Seq<u8>>)
    requires
        forall|j: int| 0 <= j < parents.len() ==> (#[trigger] parents[j]).len() == 20,
    ensures
        canonical_header(parents).len() == 40,
{
    assert(parent_or_null(parents, 0).len() == 20);
    assert(parent_or_null(parents, 1).len() == 20);
}

/// The graph `after` extends `before` with nodes copied from `commits`.
pub open spec fn extends_with(before: Seq<DagNode>, after: Seq<DagNode>, commits: Seq<HgCommit>) -> bool {
    &&& before.len() <= after.len()
    &&& after.take(before.len() as int) == before
    &&& forall|i: int|
        before.len() <= i < after.len() ==> exists|k: int|
            0 <= k < commits.len() && (#[trigger] after[i]).vertex@ == commits[k].vertex@ && views(after[i].parents@)
                == views(commits[k].parents@)
}

proof fn lemma_in_dag_grows(a: Seq<DagNode>, b: Seq<DagNode>, v: Seq<u8>)
    requires
        a.len() <= b.len(),
        b.take(a.len() as int) == a,
        in_dag(a, v),
    ensures
        in_dag(b, v),
{
    let i = choose|i: int| 0 <= i < a.len() && a[i].vertex@ == v;
    assert(b[i] == b.take(a.len() as int)[i]);
}

/// A graph whose vertices are distinct and whose nodes come after their
/// parents.
pub open spec fn graph_ok(dag: Seq<DagNode>) -> bool {
    dag_unique(dag) && dag_topo(dag)
}

/// A commit whose parent ids are 20 bytes and whose name is the SHA-1 of
/// its hashed text.
pub open spec fn commit_ok(c: HgCommit) -> bool {
    !short_parents(c) && c.vertex@ == sha1_of(commit_text(c)) && c.vertex@.len() == 20
}

/// Every parent of every commit is in the graph already or is the name of
/// an earlier commit of the batch.
pub open spec fn resolvable(dag: Seq<DagNode>, commits: Seq<HgCommit>) -> bool {
    forall|k: int, j: int|
        0 <= k < commits.len() && 0 <= j < commits[k].parents@.len() ==> in_dag(dag, (#[trigger] commits[k].parents@[j])@)
            || exists|m: int| 0 <= m < k && #[trigger] commits[m].vertex@ == commits[k].parents@[j]@
}

/// `o` lists the commits of the batch, by index, so that every commit is
/// listed and each parent is in the graph already or is the name of a
/// commit listed earlier.
pub open spec fn parents_first(dag: Seq<DagNode>, commits: Seq<HgCommit>, o: Seq<int>) -> bool {
    &&& o.len() == commits.len()
    &&& forall|q: int| 0 <= q < o.len() ==> 0 <= #[trigger] o[q] < commits.len()
    &&& forall|k: int| 0 <= k < commits.len() ==> #[trigger] o.contains(k)
    &&& forall|q: int, j: int|
        #![trigger commits[o[q]].parents@[j]]
        0 <= q < o.len() && 0 <= j < commits[o[q]].parents@.len() ==> in_dag(dag, commits[o[q]].parents@[j]@) || exists|
            q2: int,
        | 0 <= q2 < q && #[trigger] commits[o[q2]].vertex@ == commits[o[q]].parents@[j]@
}

/// The batch can be added parents first, in some order.
pub open spec fn orderable(dag: Seq<DagNode>, commits: Seq<HgCommit>) -> bool {
    exists|o: Seq<int>| #[trigger] parents_first(dag, commits, o)
}

/// A batch whose parents each come earlier in it (or are in the graph) can
/// be added in its own order.
pub proof fn lemma_resolvable_orderable(dag: Seq<DagNode>, commits: Seq<HgCommit>)
    requires
        resolvable(dag, commits),
    ensures
        orderable(dag, commits),
{
    let o = Seq::new(commits.len(), |i: int| i);
    assert forall|k: int| 0 <= k < commits.len() implies #[trigger] o.contains(k) by {
        assert(o[k] == k);
    };
    assert forall|q: int| 0 <= q < o.len() implies 0 <= #[trigger] o[q] < commits.len() by {};
    assert forall|q: int, j: int|
        #![trigger commits[o[q]].parents@[j]]
        0 <= q < o.len() && 0 <= j < commits[o[q]].parents@.len() implies in_dag(dag, commits[o[q]].parents@[j]@) || exists|
            q2: int,
        | 0 <= q2 < q && #[trigger] commits[o[q2]].vertex@ == commits[o[q]].parents@[j]@ by {
        assert(o[q] == q);
        if !in_dag(dag, commits[q].parents@[j]@) {
            assert(in_dag(dag, (commits[q].parents@[j])@) || exists|m: int| 0 <= m < q && #[trigger] commits[m].vertex@ == commits[q].parents@[j]@);
            let m = choose|m: int| 0 <= m < q && #[trigger] commits[m].vertex@ == commits[q].parents@[j]@;
            assert(o[m] == m);
        }
    };
    assert(parents_first(dag, commits, o));
}

impl HgCommits {
    /// Adds the graph node of `c`, whose parents are all in the graph.
    fn push_node(&mut self, c: &HgCommit)
        requires
            graph_ok(old(self).dag@),
            !in_dag(old(self).dag@, c.vertex@),
            forall|k: int| 0 <= k < c.parents@.len() ==> in_dag(old(self).dag@, #[trigger] c.parents@[k]@),
        ensures
            graph_ok(final(self).dag@),
            final(self).blobs@ == old(self).blobs@,
            final(self).dag@.len() == old(self).dag@.len() + 1,
            final(self).dag@.take(old(self).dag@.len() as int) == old(self).dag@,
            final(self).dag@.last().vertex@ == c.vertex@,
            views(final(self).dag@.last().parents@) == views(c.parents@),
    {
        let ghost d0 = self.dag@;
        let node = DagNode { vertex: c.vertex.duplicate(), parents: copy_names(&c.parents) };
        self.dag.push(node);
        proof {
            let d = self.dag@;
            assert(d.take(d0.len() as int) =~= d0);
            assert forall|i: int, j: int| 0 <= i < j < d.len() implies d[i].vertex@ != d[j].vertex@ by {
                if j < d0.len() {
                    assert(d[i] == d0[i] && d[j] == d0[j]);
                } else {
                    assert(d[i] == d0[i]);
                }
            };
            assert forall|k: int| 0 <= k < d.last().parents@.len() implies in_dag(d0, (#[trigger] d.last().parents@[k])@) by {
                assert(views(d.last().parents@)[k] == views(c.parents@)[k]);
                assert(in_dag(d0, c.parents@[k]@));
            };
            assert(d == d0.push(d.last()));
            lemma_topo_push(d0, d.last());
        }
    }
}

fn parents_ok(c: &HgCommit) -> (r: bool)
    ensures
        r == !short_parents(*c),
{
    let mut j: usize = 0;
    while j < c.parents.len()
        invariant
            j <= c.parents@.len(),
            forall|m: int| 0 <= m < j ==> (#[trigger] c.parents@[m])@.len() == 20,
        decreases c.parents@.len() - j,
    {
        if c.parents[j].bytes.len() != 20 {
            return false;
        }
        j = j + 1;
    }
    true
}

proof fn lemma_topo_push(d0: Seq<DagNode>, node: DagNode)
    requires
        dag_topo(d0),
        forall|k: int| 0 <= k < node.parents@.len() ==> in_dag(d0, (#[trigger] node.parents@[k])@),
    ensures
        dag_topo(d0.push(node)),
{
    let d = d0.push(node);
    assert forall|i: int, k: int|
        #![trigger d[i].parents@[k]]
        0 <= i < d.len() && 0 <= k < d[i].parents@.len() implies in_dag(d.take(i), d[i].parents@[k]@) by {
        if i < d0.len() {
            assert(d[i] == d0[i]);
            assert(d.take(i) =~= d0.take(i));
            assert(in_dag(d0.take(i), d0[i].parents@[k]@));
        } else {
            assert(d[i] == node);
            assert(d.take(i) =~= d0);
            assert(in_dag(d0, node.parents@[k]@));
        }
    };
}

/// Every commit's name is stored, holding the hashed text of a commit of
/// the batch with that name.
#[verifier::opaque]
pub open spec fn stored_batch(blobs: Seq<StoredBlob>, commits: Seq<HgCommit>) -> bool {
    forall|k: int|
        #![trigger commits[k]]
        0 <= k < commits.len() ==> blob_keyed(blobs, commits[k].vertex@) && exists|m: int|
            0 <= m < commits.len() && commits[m].vertex@ == commits[k].vertex@ && blob_text(blobs, commits[k].vertex@)
                == commit_text(#[trigger] commits[m])
}

pub open spec fn all_ok(commits: Seq<HgCommit>) -> bool {
    forall|k: int| 0 <= k < commits.len() ==> commit_ok(#[trigger] commits[k])
}

/// What checking a batch before storing anything reports: the first commit
/// with a short parent id or a name that is not the SHA-1 of its text.
pub open spec fn checked(commits: Seq<HgCommit>, r: Result<Vec<Vec<u8>>, CommitError>) -> bool {
    match r {
        Ok(texts) => texts@.len() == commits.len() && forall|k: int|
            0 <= k < commits.len() ==> commit_ok(#[trigger] commits[k]) && texts@[k]@ == commit_text(commits[k]),
        Err(CommitError::InvalidParent { vertex }) => exists|k: int|
            0 <= k < commits.len() && (forall|m: int| 0 <= m < k ==> commit_ok(#[trigger] commits[m]))
                && short_parents(#[trigger] commits[k]) && commits[k].vertex@ == vertex@,
        Err(CommitError::HashMismatch { expected, actual }) => exists|k: int|
            0 <= k < commits.len() && (forall|m: int| 0 <= m < k ==> commit_ok(#[trigger] commits[m]))
                && !short_parents(#[trigger] commits[k]) && commits[k].vertex@ == expected@ && actual@ == sha1_of(
                commit_text(commits[k]),
            ) && actual@ != expected@,
        Err(_) => false,
    }
}

/// Computes the hashed text of each commit and checks its parents and its
/// name, storing nothing.
fn check_commits(commits: &Vec<HgCommit>) -> (r: Result<Vec<Vec<u8>>, CommitError>)
    ensures
        checked(commits@, r),
{
    let mut texts: Vec<Vec<u8>> = Vec::new();
    let mut k: usize = 0;
    while k < commits.len()
        invariant
            k <= commits@.len(),
            texts@.len() == k,
            forall|m: int| 0 <= m < k ==> commit_ok(#[trigger] commits@[m]) && texts@[m]@ == commit_text(commits@[m]),
        decreases commits@.len() - k,
    {
        let c = &commits[k];
        if !parents_ok(c) {
            return Err(CommitError::InvalidParent { vertex: c.vertex.duplicate().bytes });
        }
        let text = text_with_header(c.raw_text.as_slice(), &c.parents);
        let id = sha1_digest(text.as_slice());
        let name = VertexName { bytes: id };
        if !name.same_as(&c.vertex) {
            return Err(CommitError::HashMismatch { expected: c.vertex.duplicate().bytes, actual: name.bytes });
        }
        texts.push(text);
        k = k + 1;
    }
    Ok(texts)
}

impl HgCommits {
    /// Adds the graph nodes of `commits`, parents first; on failure the
    /// graph is left as it was.
    fn link_commits(&mut self, commits: &Vec<HgCommit>) -> (r: Result<(), CommitError>)
        requires
            graph_ok(old(self).dag@),
        ensures
            graph_ok(final(self).dag@),
            final(self).blobs@ == old(self).blobs@,
            extends_with(old(self).dag@, final(self).dag@, commits@),
            r is Ok ==> forall|k: int| 0 <= k < commits@.len() ==> in_dag(final(self).dag@, (#[trigger] commits@[k]).vertex@),
            r is Err ==> final(self).dag@ == old(self).dag@,
            orderable(old(self).dag@, commits@) ==> r is Ok,
            match r {
                Ok(()) => true,
                Err(CommitError::UnknownParent { vertex, parent }) => !orderable(old(self).dag@, commits@) && exists|k: int, j: int|
                    0 <= k < commits@.len() && 0 <= j < commits@[k].parents@.len() && (#[trigger] commits@[k]).vertex@
                        == vertex@ && (#[trigger] commits@[k].parents@[j])@ == parent@ && !in_dag(old(self).dag@, parent@),
                Err(_) => false,
            },
    {
        let ghost d0 = self.dag@;
        let n0: usize = self.dag.len();
        assert(d0.take(d0.len() as int) =~= d0);
        let mut pass: usize = 0;
        while pass < commits.len()
            invariant
                graph_ok(self.dag@),
                self.blobs@ == old(self).blobs@,
                d0 == old(self).dag@,
                extends_with(d0, self.dag@, commits@),
                pass <= commits@.len(),
                forall|o: Seq<int>|
                    #[trigger] parents_first(d0, commits@, o) ==> forall|q: int|
                        0 <= q < pass ==> in_dag(self.dag@, commits@[#[trigger] o[q]].vertex@),
            decreases commits@.len() - pass,
        {
            let ghost snap = self.dag@;
            let mut k: usize = 0;
            assert(snap.take(snap.len() as int) =~= snap);
            while k < commits.len()
                invariant
                    graph_ok(self.dag@),
                    self.blobs@ == old(self).blobs@,
                    d0 == old(self).dag@,
                    extends_with(d0, self.dag@, commits@),
                    pass < commits@.len(),
                    k <= commits@.len(),
                    snap.len() <= self.dag@.len(),
                    self.dag@.take(snap.len() as int) == snap,
                    forall|o: Seq<int>|
                        #[trigger] parents_first(d0, commits@, o) ==> (forall|q: int|
                            0 <= q < pass ==> in_dag(self.dag@, commits@[#[trigger] o[q]].vertex@)) && (o[pass as int] < k
                            ==> in_dag(self.dag@, commits@[o[pass as int]].vertex@)),
                decreases commits@.len() - k,
            {
                let c = &commits[k];
                let ghost before = self.dag@;
                let absent = self.dag_index(&c.vertex).is_none();
                let missing = if absent {
                    self.unknown_parent(&c.parents)
                } else {
                    None
                };
                if absent && missing.is_none() {
                    self.push_node(c);
                    proof {
                        lemma_extends_push(d0, before, self.dag@, commits@, k as int);
                        assert(self.dag@.take(snap.len() as int) =~= before.take(snap.len() as int)) by {
                            assert(self.dag@.take(before.len() as int) == before);
                        };
                    }
                }
                proof {
                    let after = self.dag@;
                    assert forall|o: Seq<int>| #[trigger] parents_first(d0, commits@, o) implies (forall|q: int|
                        0 <= q < pass ==> in_dag(after, commits@[#[trigger] o[q]].vertex@)) && (o[pass as int] < k + 1
                        ==> in_dag(after, commits@[o[pass as int]].vertex@)) by {
                        assert forall|q: int| 0 <= q < pass implies in_dag(after, commits@[#[trigger] o[q]].vertex@) by {
                            if after != before {
                                lemma_in_dag_grows(before, after, commits@[o[q]].vertex@);
                            }
                        };
                        let t = o[pass as int];
                        if t < k {
                            if after != before {
                                lemma_in_dag_grows(before, after, commits@[t].vertex@);
                            }
                        } else if t == k {
                            if absent && missing.is_none() {
                                assert(after[before.len() as int].vertex@ == c.vertex@);
                            } else if absent {
                                let j = missing->Some_0 as int;
                                let p = commits@[k as int].parents@[j]@;
                                assert(!in_dag(before, p));
                                assert(0 <= t < commits@.len());
                                if in_dag(d0, p) {
                                    lemma_in_dag_grows(d0, before, p);
                                } else {
                                    assert(exists|q2: int| 0 <= q2 < pass && #[trigger] commits@[o[q2]].vertex@ == commits@[o[pass as int]].parents@[j]@);
                                    let q2 = choose|q2: int| 0 <= q2 < pass && #[trigger] commits@[o[q2]].vertex@ == commits@[o[pass as int]].parents@[j]@;
                                    assert(in_dag(before, commits@[o[q2]].vertex@));
                                }
                            }
                        }
                    };
                }
                k = k + 1;
            }
            proof {
                assert forall|o: Seq<int>| #[trigger] parents_first(d0, commits@, o) implies forall|q: int|
                    0 <= q < pass + 1 ==> in_dag(self.dag@, commits@[#[trigger] o[q]].vertex@) by {
                    assert(o[pass as int] < commits@.len());
                };
            }
            pass = pass + 1;
        }
        proof {
            assert(orderable(d0, commits@) ==> forall|m: int| 0 <= m < commits@.len() ==> in_dag(self.dag@, (#[trigger] commits@[m]).vertex@)) by {
                if orderable(d0, commits@) {
                    let o = choose|o: Seq<int>| #[trigger] parents_first(d0, commits@, o);
                    assert forall|m: int| 0 <= m < commits@.len() implies in_dag(self.dag@, (#[trigger] commits@[m]).vertex@) by {
                        assert(o.contains(m));
                        let q = choose|q: int| 0 <= q < o.len() && o[q] == m;
                        assert(in_dag(self.dag@, commits@[o[q]].vertex@));
                    };
                }
            };
        }
        let mut k: usize = 0;
        while k < commits.len()
            invariant
                graph_ok(self.dag@),
                self.blobs@ == old(self).blobs@,
                d0 == old(self).dag@,
                n0 == d0.len(),
                graph_ok(d0),
                extends_with(d0, self.dag@, commits@),
                forall|m: int| 0 <= m < k ==> in_dag(self.dag@, (#[trigger] commits@[m]).vertex@),
                orderable(d0, commits@) ==> forall|m: int| 0 <= m < commits@.len() ==> in_dag(self.dag@, (#[trigger] commits@[m]).vertex@),
            decreases commits@.len() - k,
        {
            let c = &commits[k];
            if self.dag_index(&c.vertex).is_none() {
                match self.unknown_parent(&c.parents) {
                    Some(j) => {
                        let parent = c.parents[j].duplicate().bytes;
                        let vertex = c.vertex.duplicate().bytes;
                        proof {
                            let p = commits@[k as int].parents@[j as int]@;
                            assert(p == parent@);
                            assert(!in_dag(d0, p)) by {
                                if in_dag(d0, p) {
                                    lemma_in_dag_grows(d0, self.dag@, p);
                                }
                            };
                            assert(!orderable(d0, commits@)) by {
                                assert(!in_dag(self.dag@, commits@[k as int].vertex@));
                            };
                        }
                        self.dag.truncate(n0);
                        assert(self.dag@ =~= d0);
                        assert(graph_ok(d0));
                        assert(d0.take(d0.len() as int) =~= d0);
                        return Err(CommitError::UnknownParent { vertex, parent });
                    },
                    None => {
                        let ghost before = self.dag@;
                        self.push_node(c);
                        proof {
                            lemma_extends_push(d0, before, self.dag@, commits@, k as int);
                            assert forall|m: int| 0 <= m < k + 1 implies in_dag(self.dag@, (#[trigger] commits@[m]).vertex@) by {
                                if m < k {
                                    lemma_in_dag_grows(before, self.dag@, commits@[m].vertex@);
                                } else {
                                    assert(self.dag@[before.len() as int].vertex@ == c.vertex@);
                                }
                            };
                            if orderable(d0, commits@) {
                                assert forall|m: int| 0 <= m < commits@.len() implies in_dag(self.dag@, (#[trigger] commits@[m]).vertex@) by {
                                    lemma_in_dag_grows(before, self.dag@, commits@[m].vertex@);
                                };
                            }
                        }
                    },
                }
            }
            k = k + 1;
        }
        Ok(())
    }

    /// Stores `texts[k]` under the name of `commits[k]`, replacing what was
    /// stored under that name.
    #[verifier::rlimit(60)]
    fn write_blobs(&mut self, commits: &Vec<HgCommit>, texts: &Vec<Vec<u8>>)
        requires
            blobs_ok(old(self).blobs@),
            blob_keys_unique(old(self).blobs@),
            texts@.len() == commits@.len(),
            forall|k: int|
                0 <= k < commits@.len() ==> commit_ok(#[trigger] commits@[k]) && texts@[k]@ == commit_text(commits@[k]),
        ensures
            blobs_ok(final(self).blobs@),
            blob_keys_unique(final(self).blobs@),
            final(self).dag@ == old(self).dag@,
            forall|key: Seq<u8>| blob_keyed(old(self).blobs@, key) ==> #[trigger] blob_keyed(final(self).blobs@, key),
            stored_batch(final(self).blobs@, commits@),
    {
        let mut k: usize = 0;
        while k < commits.len()
            invariant
                k <= commits@.len(),
                texts@.len() == commits@.len(),
                forall|t: int|
                    0 <= t < commits@.len() ==> commit_ok(#[trigger] commits@[t]) && texts@[t]@ == commit_text(commits@[t]),
                blobs_ok(self.blobs@),
                blob_keys_unique(self.blobs@),
                self.dag@ == old(self).dag@,
                forall|key: Seq<u8>| blob_keyed(old(self).blobs@, key) ==> #[trigger] blob_keyed(self.blobs@, key),
                forall|t: int|
                    0 <= t < k ==> blob_keyed(self.blobs@, (#[trigger] commits@[t]).vertex@) && exists|m: int|
                        0 <= m < k && commits@[m].vertex@ == commits@[t].vertex@ && blob_text(self.blobs@, commits@[t].vertex@)
                            == commit_text(#[trigger] commits@[m]),
            decreases commits@.len() - k,
        {
            let c = &commits[k];
            let text = VertexName::copy_from(texts[k].as_slice()).bytes;
            let key = c.vertex.duplicate().bytes;
            let ghost b0 = self.blobs@;
            proof {
                assert(commit_ok(commits@[k as int]));
                lemma_header_len(views(c.parents@));
            }
            let ghost v = c.vertex@;
            let ghost tv = commit_text(*c);
            assert(key@ == v && text@ == tv);
            match self.blob_index(key.as_slice()) {
                Some(i) => {
                    self.blobs.set(i, StoredBlob { key, text });
                    proof {
                        let b = self.blobs@;
                        assert(b =~= b0.update(i as int, b[i as int]));
                        lemma_blob_write(b0, b, v, tv);
                    }
                },
                None => {
                    self.blobs.push(StoredBlob { key, text });
                    proof {
                        let b = self.blobs@;
                        assert(b.take(b0.len() as int) =~= b0);
                        lemma_blob_write(b0, b, v, tv);
                    }
                },
            }
            proof {
                let b = self.blobs@;
                assert(commit_text(*c).len() >= 40) by {
                    assert(!short_parents(*c));
                    let ps = views(c.parents@);
                    assert forall|j: int| 0 <= j < ps.len() implies (#[trigger] ps[j]).len() == 20 by {
                        assert(ps[j] == c.parents@[j]@);
                    };
                    lemma_header_len(ps);
                };
                assert(blobs_ok(b)) by {
                    assert forall|i: int| 0 <= i < b.len() implies (#[trigger] b[i]).key@ == sha1_of(b[i].text@)
                        && b[i].text@.len() >= 40 && b[i].key@.len() == 20 by {
                        if i < b0.len() && b[i] != b0[i] {
                            assert(b[i].key@ == v && b[i].text@ == commit_text(*c));
                        } else if i >= b0.len() {
                            assert(b[i].key@ == v && b[i].text@ == commit_text(*c));
                        }
                    };
                };
                assert forall|t: int| 0 <= t < k + 1 implies blob_keyed(b, (#[trigger] commits@[t]).vertex@) && exists|m: int|
                    0 <= m < k + 1 && commits@[m].vertex@ == commits@[t].vertex@ && blob_text(b, commits@[t].vertex@)
                        == commit_text(#[trigger] commits@[m]) by {
                    if t < k && commits@[t].vertex@ != v {
                        let m = choose|m: int| 0 <= m < k && commits@[m].vertex@ == commits@[t].vertex@ && blob_text(b0, commits@[t].vertex@)
                            == commit_text(#[trigger] commits@[m]);
                        assert(blob_text(b, commits@[t].vertex@) == commit_text(commits@[m]));
                    } else {
                        if t == k {
                            assert(commits@[t].vertex@ == v);
                        }
                        assert(commits@[k as int].vertex@ == commits@[t].vertex@);
                        assert(blob_text(b, commits@[t].vertex@) == commit_text(commits@[k as int]));
                    }
                };
            }
            k = k + 1;
        }
        proof {
            reveal(stored_batch);
        }
    }

    /// Checks every commit (parent ids of 20 bytes, name equal to the SHA-1
    /// of its hashed text), then adds the commits to the graph, parents
    /// first, and stores each hashed text under the commit's name. A parent
    /// must be in the graph already or be one of `commits`. A failed call
    /// changes nothing, and a bad commit is reported before any unknown
    /// parent.
    #[verifier::rlimit(60)]
    pub fn add_commits(&mut self, commits: &Vec<HgCommit>) -> (r: Result<(), CommitError>)
        requires
            old(self).wf(),
        ensures
            final(self).wf(),
            r is Err ==> final(self).blobs@ == old(self).blobs@ && final(self).dag@ == old(self).dag@,
            all_ok(commits@) && orderable(old(self).dag@, commits@) ==> r is Ok,
            all_ok(commits@) && resolvable(old(self).dag@, commits@) ==> r is Ok,
            !all_ok(commits@) <==> (r is Err && (r->Err_0 is HashMismatch || r->Err_0 is InvalidParent)),
            r is Ok ==> {
                &&& all_ok(commits@)
                &&& extends_with(old(self).dag@, final(self).dag@, commits@)
                &&& forall|key: Seq<u8>| blob_keyed(old(self).blobs@, key) ==> #[trigger] blob_keyed(final(self).blobs@, key)
                &&& forall|k: int| 0 <= k < commits@.len() ==> in_dag(final(self).dag@, (#[trigger] commits@[k]).vertex@)
                &&& stored_batch(final(self).blobs@, commits@)
            },
            match r {
                Ok(()) => true,
                Err(CommitError::UnknownParent { vertex, parent }) => all_ok(commits@) && !orderable(old(self).dag@, commits@)
                    && exists|k: int, j: int|
                    0 <= k < commits@.len() && 0 <= j < commits@[k].parents@.len() && (#[trigger] commits@[k]).vertex@
                        == vertex@ && (#[trigger] commits@[k].parents@[j])@ == parent@ && !in_dag(old(self).dag@, parent@),
                Err(e) => checked(commits@, Err(e)),
            },
    {
        let texts = match check_commits(commits) {
            Err(e) => {
                proof {
                    match e {
                        CommitError::InvalidParent { .. } => {
                            let k = choose|k: int|
                                0 <= k < commits@.len() && (forall|m: int| 0 <= m < k ==> commit_ok(#[trigger] commits@[m]))
                                    && short_parents(#[trigger] commits@[k]) && commits@[k].vertex@ == (e->InvalidParent_vertex)@;
                            assert(!commit_ok(commits@[k]));
                        },
                        CommitError::HashMismatch { .. } => {
                            let k = choose|k: int|
                                0 <= k < commits@.len() && (forall|m: int| 0 <= m < k ==> commit_ok(#[trigger] commits@[m]))
                                    && !short_parents(#[trigger] commits@[k]) && commits@[k].vertex@ == (e->HashMismatch_expected)@
                                    && (e->HashMismatch_actual)@ == sha1_of(commit_text(commits@[k])) && (e->HashMismatch_actual)@
                                    != (e->HashMismatch_expected)@;
                            assert(!commit_ok(commits@[k]));
                        },
                        _ => {},
                    }
                }
                return Err(e);
            },
            Ok(t) => t,
        };
        let ghost d0 = self.dag@;
        let ghost b0 = self.blobs@;
        proof {
            if resolvable(d0, commits@) {
                lemma_resolvable_orderable(d0, commits@);
            }
        }
        match self.link_commits(commits) {
            Err(e) => {
                return Err(e);
            },
            Ok(()) => {},
        }
        self.write_blobs(commits, &texts);
        proof {
            reveal(stored_batch);
            assert forall|i: int| 0 <= i < self.dag@.len() implies blob_keyed(self.blobs@, (#[trigger] self.dag@[i]).vertex@) by {
                if i < d0.len() {
                    assert(self.dag@[i] == self.dag@.take(d0.len() as int)[i]);
                    assert(blob_keyed(b0, d0[i].vertex@));
                } else {
                    let k = choose|k: int|
                        0 <= k < commits@.len() && (#[trigger] self.dag@[i]).vertex@ == commits@[k].vertex@ && views(self.dag@[i].parents@)
                            == views(commits@[k].parents@);
                    assert(blob_keyed(self.blobs@, commits@[k].vertex@));
                }
            };
        }
        Ok(())
    }
}

proof fn lemma_extends_push(d0: Seq<DagNode>, before: Seq<DagNode>, after: Seq<DagNode>, commits: Seq<HgCommit>, k: int)
    requires
        extends_with(d0, before, commits),
        0 <= k < commits.len(),
        after.len() == before.len() + 1,
        after.take(before.len() as int) == before,
        after.last().vertex@ == commits[k].vertex@,
        views(after.last().parents@) == views(commits[k].parents@),
    ensures
        extends_with(d0, after, commits),
{
    assert(after.take(d0.len() as int) =~= before.take(d0.len() as int));
    assert forall|i: int| d0.len() <= i < after.len() implies exists|m: int|
        0 <= m < commits.len() && (#[trigger] after[i]).vertex@ == commits[m].vertex@ && views(after[i].parents@)
            == views(commits[m].parents@) by {
        if i < before.len() {
            assert(after[i] == before.take(before.len() as int)[i]);
            assert(after[i] == before[i]);
        }
    };
}

pub open spec fn has_parent(n: DagNode, v: Seq<u8>) -> bool {
    views(n.parents@).contains(v)
}

/// For the nodes `k..` of the graph, whether each is an ancestor of (or one
/// of) `heads`: a node is, when it is a head or a parent of a later node
/// that is. Since parents come before children, this is reachability.
pub open spec fn ancestor_marks(dag: Seq<DagNode>, heads: Seq<Seq<u8>>, k: int) -> Seq<bool>
    decreases dag.len() - k,
{
    if k >= dag.len() || k < 0 {
        Seq::empty()
    } else {
        let rest = ancestor_marks(dag, heads, k + 1);
        let mark = heads.contains(dag[k].vertex@) || exists|j: int|
            0 <= j < rest.len() && rest[j] && #[trigger] has_parent(dag[k + 1 + j], dag[k].vertex@);
        seq![mark] + rest
    }
}

proof fn lemma_marks_len(dag: Seq<DagNode>, heads: Seq<Seq<u8>>, k: int)
    requires
        0 <= k <= dag.len(),
    ensures
        ancestor_marks(dag, heads, k).len() == dag.len() - k,
    decreases dag.len() - k,
{
    if k < dag.len() {
        lemma_marks_len(dag, heads, k + 1);
    }
}

/// Whether `a` is an ancestor of `d` (every vertex is its own ancestor).
pub open spec fn is_ancestor_spec(dag: Seq<DagNode>, a: Seq<u8>, d: Seq<u8>) -> bool {
    exists|k: int| 0 <= k < dag.len() && dag[k].vertex@ == a && ancestor_marks(dag, seq![d], 0)[k]
}

fn node_has_parent(n: &DagNode, v: &VertexName) -> (r: bool)
    ensures
        r == has_parent(*n, v@),
{
    let mut i: usize = 0;
    while i < n.parents.len()
        invariant
            i <= n.parents@.len(),
            forall|j: int| 0 <= j < i ==> n.parents@[j]@ != v@,
        decreases n.parents@.len() - i,
    {
        if n.parents[i].same_as(v) {
            assert(views(n.parents@)[i as int] == v@);
            return true;
        }
        i = i + 1;
    }
    assert(!views(n.parents@).contains(v@)) by {
        if views(n.parents@).contains(v@) {
            let j = choose|j: int| 0 <= j < views(n.parents@).len() && views(n.parents@)[j] == v@;
            assert(n.parents@[j]@ == v@);
        }
    };
    false
}

fn name_in(names: &Vec<VertexName>, v: &VertexName) -> (r: bool)
    ensures
        r == views(names@).contains(v@),
{
    let mut i: usize = 0;
    while i < names.len()
        invariant
            i <= names@.len(),
            forall|j: int| 0 <= j < i ==> names@[j]@ != v@,
        decreases names@.len() - i,
    {
        if names[i].same_as(v) {
            assert(views(names@)[i as int] == v@);
            return true;
        }
        i = i + 1;
    }
    assert(!views(names@).contains(v@)) by {
        if views(names@).contains(v@) {
            let j = choose|j: int| 0 <= j < views(names@).len() && views(names@)[j] == v@;
            assert(names@[j]@ == v@);
        }
    };
    false
}

impl HgCommits {
    /// For each node, in graph order, whether it is an ancestor of (or one
    /// of) `heads`.
    fn mark_ancestors(&self, heads: &Vec<VertexName>) -> (r: Vec<bool>)
        ensures
            r@ == ancestor_marks(self.dag@, views(heads@), 0),
    {
        let n = self.dag.len();
        let ghost hv = views(heads@);
        let mut marks: Vec<bool> = vec![false; n];
        let mut k: usize = n;
        proof {
            lemma_marks_len(self.dag@, hv, n as int);
            assert(marks@.subrange(n as int, n as int) =~= ancestor_marks(self.dag@, hv, n as int));
        }
        while k > 0
            invariant
                k <= n,
                n == self.dag@.len(),
                marks@.len() == n,
                hv == views(heads@),
                marks@.subrange(k as int, n as int) == ancestor_marks(self.dag@, hv, k as int),
            decreases k,
        {
            k = k - 1;
            let v = &self.dag[k].vertex;
            let ghost rest = ancestor_marks(self.dag@, hv, k + 1);
            proof {
                lemma_marks_len(self.dag@, hv, k + 1);
            }
            let in_heads = name_in(heads, v);
            let mut mark = false;
            let mut j: usize = k + 1;
            while j < n && !mark
                invariant
                    k < j <= n,
                    n == self.dag@.len(),
                    marks@.len() == n,
                    rest == ancestor_marks(self.dag@, hv, k + 1),
                    rest.len() == n - k - 1,
                    marks@.subrange(k + 1, n as int) == rest,
                    *v == self.dag@[k as int].vertex,
                    mark ==> exists|t: int|
                        0 <= t < rest.len() && rest[t] && #[trigger] has_parent(self.dag@[k + 1 + t], v@),
                    !mark ==> forall|t: int|
                        0 <= t < j - k - 1 ==> !(rest[t] && #[trigger] has_parent(self.dag@[k + 1 + t], v@)),
                decreases n - j,
            {
                assert(marks@.subrange(k + 1, n as int)[j - k - 1] == marks@[j as int]);
                if marks[j] && node_has_parent(&self.dag[j], v) {
                    assert(rest[j - k - 1] && has_parent(self.dag@[k + 1 + (j - k - 1)], v@));
                    mark = true;
                }
                j = j + 1;
            }
            let mark = in_heads || mark;
            marks.set(k, mark);
            proof {
                assert(v@ == self.dag@[k as int].vertex@);
                assert(ancestor_marks(self.dag@, hv, k as int) == seq![mark] + rest);
                assert(marks@.subrange(k as int, n as int) =~= seq![mark] + rest);
            }
        }
        assert(marks@.subrange(0, n as int) =~= marks@);
        marks
    }

    /// Whether `ancestor` is an ancestor of `descendant`; both must be in
    /// the graph.
    pub fn is_ancestor(&self, ancestor: &VertexName, descendant: &VertexName) -> (r: Result<bool, CommitError>)
        requires
            self.wf(),
        ensures
            match r {
                Ok(b) => in_dag(self.dag@, ancestor@) && in_dag(self.dag@, descendant@) && b == is_ancestor_spec(
                    self.dag@,
                    ancestor@,
                    descendant@,
                ),
                Err(CommitError::UnknownVertex { vertex }) => (vertex@ == ancestor@ && !in_dag(self.dag@, ancestor@))
                    || (vertex@ == descendant@ && !in_dag(self.dag@, descendant@)),
                Err(_) => false,
            },
    {
        let ai = match self.dag_index(ancestor) {
            None => return Err(CommitError::UnknownVertex { vertex: ancestor.duplicate().bytes }),
            Some(i) => i,
        };
        if self.dag_index(descendant).is_none() {
            return Err(CommitError::UnknownVertex { vertex: descendant.duplicate().bytes });
        }
        let mut heads: Vec<VertexName> = Vec::new();
        heads.push(descendant.duplicate());
        assert(views(heads@) =~= seq![descendant@]);
        let marks = self.mark_ancestors(&heads);
        proof {
            lemma_marks_len(self.dag@, seq![descendant@], 0);
            if is_ancestor_spec(self.dag@, ancestor@, descendant@) {
                let k = choose|k: int|
                    0 <= k < self.dag@.len() && self.dag@[k].vertex@ == ancestor@ && ancestor_marks(
                        self.dag@,
                        seq![descendant@],
                        0,
                    )[k];
                assert(k == ai as int) by {
                    if k != ai as int {
                        assert(self.dag@[k].vertex@ == self.dag@[ai as int].vertex@);
                    }
                };
            }
        }
        Ok(marks[ai])
    }

    /// The vertices whose flag in `keep` is set, in graph order.
    fn collect_marked(&self, keep: &Vec<bool>) -> (r: Vec<VertexName>)
        requires
            keep@.len() == self.dag@.len(),
        ensures
            views(r@) == select(self.dag@, keep@, self.dag@.len() as int),
            forall|x: Seq<u8>|
                #[trigger] views(r@).contains(x) <==> exists|k: int|
                    0 <= k < self.dag@.len() && self.dag@[k].vertex@ == x && keep@[k],
    {
        let mut out: Vec<VertexName> = Vec::new();
        let mut k: usize = 0;
        while k < self.dag.len()
            invariant
                k <= self.dag@.len(),
                keep@.len() == self.dag@.len(),
                views(out@) == select(self.dag@, keep@, k as int),
                forall|x: Seq<u8>|
                    #[trigger] views(out@).contains(x) <==> exists|t: int|
                        0 <= t < k && self.dag@[t].vertex@ == x && keep@[t],
            decreases self.dag@.len() - k,
        {
            if keep[k] {
                let n = self.dag[k].vertex.duplicate();
                let ghost o = out@;
                out.push(n);
                proof {
                    assert(views(out@) =~= views(o).push(n@));
                    assert forall|x: Seq<u8>| #[trigger] views(out@).contains(x) <==> exists|t: int|
                        0 <= t < k + 1 && self.dag@[t].vertex@ == x && keep@[t] by {
                        if views(out@).contains(x) {
                            let q = choose|q: int| 0 <= q < views(out@).len() && views(out@)[q] == x;
                            if q < o.len() {
                                assert(views(o)[q] == x);
                                assert(views(o).contains(x));
                            } else {
                                assert(self.dag@[k as int].vertex@ == x && keep@[k as int]);
                            }
                        }
                        if exists|t: int| 0 <= t < k + 1 && self.dag@[t].vertex@ == x && keep@[t] {
                            let t = choose|t: int| 0 <= t < k + 1 && self.dag@[t].vertex@ == x && keep@[t];
                            if t < k {
                                assert(views(o).contains(x));
                                let q = choose|q: int| 0 <= q < views(o).len() && views(o)[q] == x;
                                assert(views(out@)[q] == x);
                            } else {
                                assert(views(out@)[o.len() as int] == x);
                            }
                        }
                    };
                }
            } else {
                proof {
                    assert forall|x: Seq<u8>| #[trigger] views(out@).contains(x) <==> exists|t: int|
                        0 <= t < k + 1 && self.dag@[t].vertex@ == x && keep@[t] by {
                        if exists|t: int| 0 <= t < k + 1 && self.dag@[t].vertex@ == x && keep@[t] {
                            let t = choose|t: int| 0 <= t < k + 1 && self.dag@[t].vertex@ == x && keep@[t];
                            assert(t != k);
                        }
                    };
                }
            }
            k = k + 1;
        }
        out
    }

    /// The vertices that are ancestors of (or among) `heads`, in graph
    /// order.
    pub fn ancestors(&self, heads: &Vec<VertexName>) -> (r: Vec<VertexName>)
        requires
            self.wf(),
        ensures
            forall|x: Seq<u8>|
                #[trigger] views(r@).contains(x) <==> exists|k: int|
                    0 <= k < self.dag@.len() && self.dag@[k].vertex@ == x && ancestor_marks(self.dag@, views(heads@), 0)[k],
    {
        let marks = self.mark_ancestors(heads);
        proof {
            lemma_marks_len(self.dag@, views(heads@), 0);
        }
        self.collect_marked(&marks)
    }

    /// For each node, in graph order, whether it is a descendant of (or one
    /// of) `roots`.
    fn mark_descendants(&self, roots: &Vec<VertexName>) -> (r: Vec<bool>)
        ensures
            r@ == descendant_marks(self.dag@, views(roots@), self.dag@.len() as int),
            r@.len() == self.dag@.len(),
    {
        let n = self.dag.len();
        let ghost rv = views(roots@);
        let mut marks: Vec<bool> = Vec::new();
        let mut k: usize = 0;
        while k < n
            invariant
                k <= n,
                n == self.dag@.len(),
                rv == views(roots@),
                marks@ == descendant_marks(self.dag@, rv, k as int),
                marks@.len() == k,
            decreases n - k,
        {
            let node = &self.dag[k];
            let in_roots = name_in(roots, &node.vertex);
            let mut via_parent = false;
            let mut j: usize = 0;
            while j < k && !via_parent
                invariant
                    j <= k,
                    k < n,
                    n == self.dag@.len(),
                    marks@.len() == k,
                    *node == self.dag@[k as int],
                    via_parent ==> exists|t: int|
                        0 <= t < marks@.len() && marks@[t] && #[trigger] has_parent(*node, self.dag@[t].vertex@),
                    !via_parent ==> forall|t: int|
                        0 <= t < j ==> !(marks@[t] && #[trigger] has_parent(*node, self.dag@[t].vertex@)),
                decreases k - j + (if via_parent { 0int } else { 1int }),
            {
                if marks[j] && node_has_parent(node, &self.dag[j].vertex) {
                    via_parent = true;
                } else {
                    j = j + 1;
                }
            }
            let mark = in_roots || via_parent;
            let ghost m0 = marks@;
            marks.push(mark);
            proof {
                assert(descendant_marks(self.dag@, rv, k as int + 1) == m0.push(mark));
            }
            k = k + 1;
        }
        marks
    }

    /// The vertices that are descendants of (or among) `roots`, in graph
    /// order.
    pub fn descendants(&self, roots: &Vec<VertexName>) -> (r: Vec<VertexName>)
        requires
            self.wf(),
        ensures
            forall|x: Seq<u8>|
                #[trigger] views(r@).contains(x) <==> exists|k: int|
                    0 <= k < self.dag@.len() && self.dag@[k].vertex@ == x && descendant_marks(
                        self.dag@,
                        views(roots@),
                        self.dag@.len() as int,
                    )[k],
    {
        let marks = self.mark_descendants(roots);
        self.collect_marked(&marks)
    }

    /// The vertices that are both descendants of `roots` and ancestors of
    /// `heads`.
    pub fn range(&self, roots: &Vec<VertexName>, heads: &Vec<VertexName>) -> (r: Vec<VertexName>)
        requires
            self.wf(),
        ensures
            forall|x: Seq<u8>|
                #[trigger] views(r@).contains(x) <==> exists|k: int|
                    0 <= k < self.dag@.len() && self.dag@[k].vertex@ == x && descendant_marks(
                        self.dag@,
                        views(roots@),
                        self.dag@.len() as int,
                    )[k] && ancestor_marks(self.dag@, views(heads@), 0)[k],
    {
        let d = self.mark_descendants(roots);
        let a = self.mark_ancestors(heads);
        proof {
            lemma_marks_len(self.dag@, views(heads@), 0);
        }
        let keep = combine_marks(&d, &a, false);
        let r = self.collect_marked(&keep);
        proof {
            let dm = descendant_marks(self.dag@, views(roots@), self.dag@.len() as int);
            let am = ancestor_marks(self.dag@, views(heads@), 0);
            assert forall|x: Seq<u8>| #[trigger] views(r@).contains(x) <==> exists|k: int|
                0 <= k < self.dag@.len() && self.dag@[k].vertex@ == x && dm[k] && am[k] by {
                if views(r@).contains(x) {
                    let k = choose|k: int| 0 <= k < self.dag@.len() && self.dag@[k].vertex@ == x && keep@[k];
                    assert(dm[k] && am[k]);
                }
                if exists|k: int| 0 <= k < self.dag@.len() && self.dag@[k].vertex@ == x && dm[k] && am[k] {
                    let k = choose|k: int| 0 <= k < self.dag@.len() && self.dag@[k].vertex@ == x && dm[k] && am[k];
                    assert(keep@[k]);
                }
            };
        }
        r
    }

    /// The ancestors of `reachable` that are not ancestors of
    /// `unreachable`.
    pub fn only(&self, reachable: &Vec<VertexName>, unreachable: &Vec<VertexName>) -> (r: Vec<VertexName>)
        requires
            self.wf(),
        ensures
            forall|x: Seq<u8>|
                #[trigger] views(r@).contains(x) <==> exists|k: int|
                    0 <= k < self.dag@.len() && self.dag@[k].vertex@ == x && ancestor_marks(self.dag@, views(reachable@), 0)[k]
                        && !ancestor_marks(self.dag@, views(unreachable@), 0)[k],
    {
        let a = self.mark_ancestors(reachable);
        let b = self.mark_ancestors(unreachable);
        proof {
            lemma_marks_len(self.dag@, views(reachable@), 0);
            lemma_marks_len(self.dag@, views(unreachable@), 0);
        }
        let keep = combine_marks(&a, &b, true);
        let r = self.collect_marked(&keep);
        proof {
            let am = ancestor_marks(self.dag@, views(reachable@), 0);
            let bm = ancestor_marks(self.dag@, views(unreachable@), 0);
            assert forall|x: Seq<u8>| #[trigger] views(r@).contains(x) <==> exists|k: int|
                0 <= k < self.dag@.len() && self.dag@[k].vertex@ == x && am[k] && !bm[k] by {
                if views(r@).contains(x) {
                    let k = choose|k: int| 0 <= k < self.dag@.len() && self.dag@[k].vertex@ == x && keep@[k];
                    assert(am[k] && !bm[k]);
                }
                if exists|k: int| 0 <= k < self.dag@.len() && self.dag@[k].vertex@ == x && am[k] && !bm[k] {
                    let k = choose|k: int| 0 <= k < self.dag@.len() && self.dag@[k].vertex@ == x && am[k] && !bm[k];
                    assert(keep@[k]);
                }
            };
        }
        r
    }
}

/// The vertices of the first `k` nodes whose flag in `keep` is set, in
/// graph order.
pub open spec fn select(dag: Seq<DagNode>, keep: Seq<bool>, k: int) -> Seq<Seq<u8>>
    decreases k,
{
    if k <= 0 {
        Seq::empty()
    } else {
        let p = select(dag, keep, k - 1);
        if keep[k - 1] {
            p.push(dag[k - 1].vertex@)
        } else {
            p
        }
    }
}

pub open spec fn membership(dag: Seq<DagNode>, set: Seq<Seq<u8>>) -> Seq<bool> {
    Seq::new(dag.len(), |k: int| set.contains(dag[k].vertex@))
}

/// Whether `x` is a vertex that is an ancestor of every vertex of `set`.
pub open spec fn is_common(dag: Seq<DagNode>, set: Seq<Seq<u8>>, x: Seq<u8>) -> bool {
    exists|k: int| 0 <= k < dag.len() && dag[k].vertex@ == x && common_mark(dag, set, k)
}

/// Whether node `k` is an ancestor of every vertex of `set`.
pub open spec fn common_mark(dag: Seq<DagNode>, set: Seq<Seq<u8>>, k: int) -> bool {
    set.len() > 0 && forall|i: int| 0 <= i < set.len() ==> #[trigger] ancestor_marks(dag, seq![set[i]], 0)[k]
}

impl HgCommits {
    /// The vertices of `set` that the graph holds, parents before children
    /// (graph order).
    pub fn sort(&self, set: &Vec<VertexName>) -> (r: Vec<VertexName>)
        ensures
            views(r@) == select(self.dag@, membership(self.dag@, views(set@)), self.dag@.len() as int),
    {
        let mut keep: Vec<bool> = Vec::new();
        let mut k: usize = 0;
        while k < self.dag.len()
            invariant
                k <= self.dag@.len(),
                keep@ == membership(self.dag@, views(set@)).take(k as int),
            decreases self.dag@.len() - k,
        {
            let m = name_in(set, &self.dag[k].vertex);
            keep.push(m);
            k = k + 1;
            assert(keep@ =~= membership(self.dag@, views(set@)).take(k as int));
        }
        assert(keep@ =~= membership(self.dag@, views(set@)));
        self.collect_marked(&keep)
    }

    /// The vertices that are ancestors of every vertex of `set` (none when
    /// `set` is empty).
    pub fn common_ancestors(&self, set: &Vec<VertexName>) -> (r: Vec<VertexName>)
        requires
            self.wf(),
        ensures
            forall|x: Seq<u8>| #[trigger] views(r@).contains(x) <==> is_common(self.dag@, views(set@), x),
    {
        let n = self.dag.len();
        let ghost sv = views(set@);
        let mut keep: Vec<bool> = vec![set.len() > 0; n];
        let mut j: usize = 0;
        while j < set.len()
            invariant
                j <= set@.len(),
                n == self.dag@.len(),
                sv == views(set@),
                keep@.len() == n,
                forall|k: int|
                    0 <= k < n ==> #[trigger] keep@[k] == (sv.len() > 0 && forall|i: int|
                        0 <= i < j ==> #[trigger] ancestor_marks(self.dag@, seq![sv[i]], 0)[k]),
            decreases set@.len() - j,
        {
            let mut one: Vec<VertexName> = Vec::new();
            one.push(set[j].duplicate());
            assert(views(one@) =~= seq![sv[j as int]]);
            let m = self.mark_ancestors(&one);
            proof {
                lemma_marks_len(self.dag@, seq![sv[j as int]], 0);
            }
            let ghost k0 = keep@;
            keep = combine_marks(&keep, &m, false);
            proof {
                assert forall|k: int| 0 <= k < n implies #[trigger] keep@[k] == (sv.len() > 0 && forall|i: int|
                    0 <= i < j + 1 ==> #[trigger] ancestor_marks(self.dag@, seq![sv[i]], 0)[k]) by {
                    if keep@[k] {
                        assert forall|i: int| 0 <= i < j + 1 implies #[trigger] ancestor_marks(self.dag@, seq![sv[i]], 0)[k] by {
                            if i < j {
                                assert(k0[k]);
                            }
                        };
                    }
                };
            }
            j = j + 1;
        }
        let r = self.collect_marked(&keep);
        proof {
            assert forall|x: Seq<u8>| #[trigger] views(r@).contains(x) <==> exists|k: int|
                0 <= k < self.dag@.len() && self.dag@[k].vertex@ == x && common_mark(self.dag@, sv, k) by {
                if views(r@).contains(x) {
                    let k = choose|k: int| 0 <= k < self.dag@.len() && self.dag@[k].vertex@ == x && keep@[k];
                    assert(common_mark(self.dag@, sv, k));
                }
                if exists|k: int| 0 <= k < self.dag@.len() && self.dag@[k].vertex@ == x && common_mark(self.dag@, sv, k) {
                    let k = choose|k: int| 0 <= k < self.dag@.len() && self.dag@[k].vertex@ == x && common_mark(self.dag@, sv, k);
                    assert(keep@[k]);
                }
            };
        }
        r
    }
}

/// `a[k] && b[k]`, or `a[k] && !b[k]` when `negate_b`.
fn combine_marks(a: &Vec<bool>, b: &Vec<bool>, negate_b: bool) -> (r: Vec<bool>)
    requires
        a@.len() == b@.len(),
    ensures
        r@.len() == a@.len(),
        forall|k: int| 0 <= k < r@.len() ==> #[trigger] r@[k] == (a@[k] && (if negate_b { !b@[k] } else { b@[k] })),
{
    let mut r: Vec<bool> = Vec::new();
    let mut k: usize = 0;
    while k < a.len()
        invariant
            k <= a@.len(),
            a@.len() == b@.len(),
            r@.len() == k,
            forall|t: int| 0 <= t < k ==> #[trigger] r@[t] == (a@[t] && (if negate_b { !b@[t] } else { b@[t] })),
        decreases a@.len() - k,
    {
        r.push(a[k] && (if negate_b { !b[k] } else { b[k] }));
        k = k + 1;
    }
    r
}

/// For nodes `0..k`, whether each is a descendant of (or one of) `roots`:
/// a node is, when it is a root or one of its parents is an earlier node
/// that is.
pub open spec fn descendant_marks(dag: Seq<DagNode>, roots: Seq<Seq<u8>>, k: int) -> Seq<bool>
    decreases k,
{
    if k <= 0 || k > dag.len() {
        Seq::empty()
    } else {
        let prev = descendant_marks(dag, roots, k - 1);
        let node = dag[k - 1];
        let mark = roots.contains(node.vertex@) || exists|j: int|
            0 <= j < prev.len() && prev[j] && #[trigger] has_parent(node, dag[j].vertex@);
        prev.push(mark)
    }
}

pub open spec fn node_index(dag: Seq<DagNode>, v: Seq<u8>) -> int {
    choose|i: int| 0 <= i < dag.len() && dag[i].vertex@ == v
}

/// The vertex `n` steps up the first-parent chain from `v`.
pub open spec fn first_ancestor(dag: Seq<DagNode>, v: Seq<u8>, n: nat) -> Option<Seq<u8>>
    decreases n,
{
    if !in_dag(dag, v) {
        None
    } else if n == 0 {
        Some(v)
    } else {
        let node = dag[node_index(dag, v)];
        if node.parents@.len() == 0 {
            None
        } else {
            first_ancestor(dag, node.parents@[0]@, (n - 1) as nat)
        }
    }
}

impl HgCommits {
    /// The vertex `n` steps up the first-parent chain from `name`.
    pub fn first_ancestor_nth(&self, name: &VertexName, n: u64) -> (r: Result<VertexName, CommitError>)
        requires
            self.wf(),
        ensures
            match r {
                Ok(a) => first_ancestor(self.dag@, name@, n as nat) == Some(a@),
                Err(CommitError::UnknownVertex { vertex }) => !in_dag(self.dag@, name@) && vertex@ == name@,
                Err(CommitError::NoSuchAncestor) => in_dag(self.dag@, name@) && first_ancestor(
                    self.dag@,
                    name@,
                    n as nat,
                ) is None,
                Err(_) => false,
            },
    {
        if self.dag_index(name).is_none() {
            return Err(CommitError::UnknownVertex { vertex: name.duplicate().bytes });
        }
        let mut cur = name.duplicate();
        let mut i: u64 = 0;
        while i < n
            invariant
                i <= n,
                in_dag(self.dag@, name@),
                dag_unique(self.dag@),
                first_ancestor(self.dag@, name@, n as nat) == first_ancestor(self.dag@, cur@, (n - i) as nat),
            decreases n - i,
        {
            match self.dag_index(&cur) {
                None => return Err(CommitError::NoSuchAncestor),
                Some(k) => {
                    proof {
                        let c = node_index(self.dag@, cur@);
                        assert(c == k as int) by {
                            if c != k as int {
                                if c < k as int {
                                    assert(self.dag@[c].vertex@ != self.dag@[k as int].vertex@);
                                } else {
                                    assert(self.dag@[k as int].vertex@ != self.dag@[c].vertex@);
                                }
                            }
                        };
                    }
                    if self.dag[k].parents.len() == 0 {
                        return Err(CommitError::NoSuchAncestor);
                    }
                    cur = self.dag[k].parents[0].duplicate();
                },
            }
            i = i + 1;
        }
        if self.dag_index(&cur).is_none() {
            return Err(CommitError::NoSuchAncestor);
        }
        Ok(cur)
    }

    /// The vertices of `set` that no other vertex of `set` has as a parent,
    /// in the order of `set`.
    pub fn heads(&self, set: &Vec<VertexName>) -> (r: Vec<VertexName>)
        ensures
            forall|x: Seq<u8>|
                #[trigger] views(r@).contains(x) <==> (views(set@).contains(x) && !exists|i: int|
                    0 <= i < self.dag@.len() && views(set@).contains(self.dag@[i].vertex@) && #[trigger] has_parent(
                        self.dag@[i],
                        x,
                    )),
    {
        let mut out: Vec<VertexName> = Vec::new();
        let mut k: usize = 0;
        while k < set.len()
            invariant
                k <= set@.len(),
                forall|x: Seq<u8>|
                    #[trigger] views(out@).contains(x) <==> (views(set@).take(k as int).contains(x) && !exists|i: int|
                        0 <= i < self.dag@.len() && views(set@).contains(self.dag@[i].vertex@) && #[trigger] has_parent(
                            self.dag@[i],
                            x,
                        )),
            decreases set@.len() - k,
        {
            let x = &set[k];
            let mut child = false;
            let mut i: usize = 0;
            while i < self.dag.len() && !child
                invariant
                    i <= self.dag@.len(),
                    child ==> exists|t: int|
                        0 <= t < self.dag@.len() && views(set@).contains(self.dag@[t].vertex@) && #[trigger] has_parent(
                            self.dag@[t],
                            x@,
                        ),
                    !child ==> forall|t: int|
                        0 <= t < i ==> !(views(set@).contains(self.dag@[t].vertex@) && #[trigger] has_parent(
                            self.dag@[t],
                            x@,
                        )),
                decreases self.dag@.len() - i + (if child { 0int } else { 1int }),
            {
                if name_in(set, &self.dag[i].vertex) && node_has_parent(&self.dag[i], x) {
                    child = true;
                } else {
                    i = i + 1;
                }
            }
            let ghost o = out@;
            let ghost t = views(set@).take(k as int);
            assert(views(set@).take(k as int + 1) =~= t.push(x@));
            assert(views(set@)[k as int] == x@);
            if !child {
                let n = x.duplicate();
                out.push(n);
                assert(views(out@) =~= views(o).push(x@));
            }
            proof {
                assert forall|y: Seq<u8>| #[trigger] views(out@).contains(y) <==> (t.push(x@).contains(y) && !exists|i: int|
                    0 <= i < self.dag@.len() && views(set@).contains(self.dag@[i].vertex@) && #[trigger] has_parent(
                        self.dag@[i],
                        y,
                    )) by {
                    if views(out@).contains(y) {
                        let q = choose|q: int| 0 <= q < views(out@).len() && views(out@)[q] == y;
                        if q < o.len() {
                            assert(views(o)[q] == y);
                            assert(views(o).contains(y));
                            let m = choose|m: int| 0 <= m < t.len() && t[m] == y;
                            assert(t.push(x@)[m] == y);
                        } else {
                            assert(t.push(x@)[t.len() as int] == y);
                        }
                    }
                    if t.push(x@).contains(y) && !exists|i: int|
                        0 <= i < self.dag@.len() && views(set@).contains(self.dag@[i].vertex@) && #[trigger] has_parent(
                            self.dag@[i],
                            y,
                        ) {
                        let m = choose|m: int| 0 <= m < t.len() + 1 && t.push(x@)[m] == y;
                        if m < t.len() {
                            assert(t[m] == y);
                            assert(t.contains(y));
                            assert(views(o).contains(y));
                            let q = choose|q: int| 0 <= q < views(o).len() && views(o)[q] == y;
                            if !child {
                                assert(views(out@)[q] == y);
                            }
                        } else {
                            assert(y == x@);
                            assert(!child);
                            assert(views(out@)[o.len() as int] == y);
                        }
                    }
                };
            }
            k = k + 1;
        }
        assert(views(set@).take(set@.len() as int) =~= views(set@));
        out
    }
}

impl HgCommits {
    /// The greatest common ancestors of `set`: its common ancestors that are
    /// not a parent of another common ancestor.
    pub fn gca_all(&self, set: &Vec<VertexName>) -> (r: Vec<VertexName>)
        requires
            self.wf(),
        ensures
            forall|x: Seq<u8>|
                #[trigger] views(r@).contains(x) <==> (is_common(self.dag@, views(set@), x) && !exists|i: int|
                    0 <= i < self.dag@.len() && is_common(self.dag@, views(set@), self.dag@[i].vertex@)
                        && #[trigger] has_parent(self.dag@[i], x)),
    {
        let ca = self.common_ancestors(set);
        let r = self.heads(&ca);
        proof {
            let sv = views(set@);
            assert forall|x: Seq<u8>| #[trigger] views(r@).contains(x) <==> (is_common(self.dag@, sv, x) && !exists|i: int|
                0 <= i < self.dag@.len() && is_common(self.dag@, sv, self.dag@[i].vertex@) && #[trigger] has_parent(
                    self.dag@[i],
                    x,
                )) by {
                assert(views(ca@).contains(x) == is_common(self.dag@, sv, x));
                assert forall|i: int| 0 <= i < self.dag@.len() implies views(ca@).contains(self.dag@[i].vertex@)
                    == is_common(self.dag@, sv, self.dag@[i].vertex@) by {};
            };
        }
        r
    }

    /// One greatest common ancestor of `set`, if there is any.
    pub fn gca_one(&self, set: &Vec<VertexName>) -> (r: Option<VertexName>)
        requires
            self.wf(),
        ensures
            match r {
                Some(a) => is_common(self.dag@, views(set@), a@) && !exists|i: int|
                    0 <= i < self.dag@.len() && is_common(self.dag@, views(set@), self.dag@[i].vertex@)
                        && #[trigger] has_parent(self.dag@[i], a@),
                None => forall|x: Seq<u8>| !(is_common(self.dag@, views(set@), x) && !exists|i: int|
                    0 <= i < self.dag@.len() && is_common(self.dag@, views(set@), self.dag@[i].vertex@)
                        && #[trigger] has_parent(self.dag@[i], x)),
            },
    {
        let mut all = self.gca_all(set);
        let ghost v0 = views(all@);
        match all.pop() {
            None => {
                proof {
                    assert forall|x: Seq<u8>| !(is_common(self.dag@, views(set@), x) && !exists|i: int|
                        0 <= i < self.dag@.len() && is_common(self.dag@, views(set@), self.dag@[i].vertex@)
                            && #[trigger] has_parent(self.dag@[i], x)) by {
                        assert(!v0.contains(x));
                    };
                }
                None
            },
            Some(a) => {
                assert(v0[v0.len() - 1] == a@);
                assert(v0.contains(a@));
                Some(a)
            },
        }
    }
}

/// The lowercase hexadecimal spelling of `v`, two digits per byte.
pub open spec fn hex_of(v: Seq<u8>) -> Seq<u8> {
    Seq::new(
        2 * v.len(),
        |i: int|
            if i % 2 == 0 {
                hex_digit_of(v[i / 2] / 16)
            } else {
                hex_digit_of(v[i / 2] % 16)
            },
    )
}

pub open spec fn hex_prefixed(dag: Seq<DagNode>, prefix: Seq<u8>) -> Seq<bool> {
    Seq::new(
        dag.len(),
        |k: int| prefix.len() <= hex_of(dag[k].vertex@).len() && hex_of(dag[k].vertex@).take(prefix.len() as int) == prefix,
    )
}

fn hex_starts_with(v: &[u8], prefix: &[u8]) -> (r: bool)
    ensures
        r == (prefix@.len() <= hex_of(v@).len() && hex_of(v@).take(prefix@.len() as int) == prefix@),
{
    let ghost h = hex_of(v@);
    if prefix.len() / 2 > v.len() || (prefix.len() / 2 == v.len() && prefix.len() % 2 == 1) {
        return false;
    }
    assert(prefix@.len() <= h.len());
    let mut i: usize = 0;
    while i < prefix.len()
        invariant
            i <= prefix@.len(),
            prefix@.len() <= h.len(),
            h == hex_of(v@),
            forall|j: int| 0 <= j < i ==> h[j] == prefix@[j],
        decreases prefix@.len() - i,
    {
        let b = v[i / 2];
        let d = if i % 2 == 0 {
            b / 16
        } else {
            b % 16
        };
        let digit = if d < 10 {
            d + 48
        } else {
            d + 87
        };
        assert(digit == h[i as int]);
        if digit != prefix[i] {
            assert(h.take(prefix@.len() as int)[i as int] != prefix@[i as int]);
            return false;
        }
        i = i + 1;
    }
    assert(h.take(prefix@.len() as int) =~= prefix@);
    true
}

impl HgCommits {
    /// Up to `limit` vertices, in graph order, whose lowercase hexadecimal
    /// spelling starts with `hex_prefix`.
    pub fn vertexes_by_hex_prefix(&self, hex_prefix: &[u8], limit: usize) -> (r: Vec<VertexName>)
        ensures
            ({
                let all = select(self.dag@, hex_prefixed(self.dag@, hex_prefix@), self.dag@.len() as int);
                views(r@) == all.take(if limit < all.len() { limit as int } else { all.len() as int })
            }),
    {
        let mut keep: Vec<bool> = Vec::new();
        let mut k: usize = 0;
        while k < self.dag.len()
            invariant
                k <= self.dag@.len(),
                keep@ == hex_prefixed(self.dag@, hex_prefix@).take(k as int),
            decreases self.dag@.len() - k,
        {
            keep.push(hex_starts_with(self.dag[k].vertex.as_bytes(), hex_prefix));
            k = k + 1;
            assert(keep@ =~= hex_prefixed(self.dag@, hex_prefix@).take(k as int));
        }
        assert(keep@ =~= hex_prefixed(self.dag@, hex_prefix@));
        let mut r = self.collect_marked(&keep);
        let ghost all = views(r@);
        if limit < r.len() {
            r.truncate(limit);
            assert(views(r@) =~= all.take(limit as int));
        } else {
            assert(views(r@) =~= all.take(all.len() as int));
        }
        r
    }
}

/// Whether some parent of `n` is among `set`.
pub open spec fn has_parent_in(n: DagNode, set: Seq<Seq<u8>>) -> bool {
    exists|j: int| 0 <= j < n.parents@.len() && set.contains(#[trigger] n.parents@[j]@)
}

pub open spec fn child_marks(dag: Seq<DagNode>, set: Seq<Seq<u8>>) -> Seq<bool> {
    Seq::new(dag.len(), |k: int| has_parent_in(dag[k], set))
}

fn parent_in(n: &DagNode, set: &Vec<VertexName>) -> (r: bool)
    ensures
        r == has_parent_in(*n, views(set@)),
{
    let mut j: usize = 0;
    while j < n.parents.len()
        invariant
            j <= n.parents@.len(),
            forall|t: int| 0 <= t < j ==> !views(set@).contains(#[trigger] n.parents@[t]@),
        decreases n.parents@.len() - j,
    {
        if name_in(set, &n.parents[j]) {
            return true;
        }
        j = j + 1;
    }
    false
}

impl HgCommits {
    /// The vertices, in graph order, that have a parent in `set`.
    pub fn children(&self, set: &Vec<VertexName>) -> (r: Vec<VertexName>)
        ensures
            views(r@) == select(self.dag@, child_marks(self.dag@, views(set@)), self.dag@.len() as int),
    {
        let mut keep: Vec<bool> = Vec::new();
        let mut k: usize = 0;
        while k < self.dag.len()
            invariant
                k <= self.dag@.len(),
                keep@ == child_marks(self.dag@, views(set@)).take(k as int),
            decreases self.dag@.len() - k,
        {
            keep.push(parent_in(&self.dag[k], set));
            k = k + 1;
            assert(keep@ =~= child_marks(self.dag@, views(set@)).take(k as int));
        }
        assert(keep@ =~= child_marks(self.dag@, views(set@)));
        self.collect_marked(&keep)
    }

    /// The vertices of `set`, in the order of `set`, none of whose parents
    /// is in `set`.
    pub fn roots(&self, set: &Vec<VertexName>) -> (r: Vec<VertexName>)
        requires
            self.wf(),
        ensures
            forall|x: Seq<u8>|
                #[trigger] views(r@).contains(x) <==> (views(set@).contains(x) && !exists|i: int|
                    0 <= i < self.dag@.len() && self.dag@[i].vertex@ == x && has_parent_in(self.dag@[i], views(set@))),
    {
        let ghost sv = views(set@);
        let mut out: Vec<VertexName> = Vec::new();
        let mut k: usize = 0;
        while k < set.len()
            invariant
                k <= set@.len(),
                sv == views(set@),
                dag_unique(self.dag@),
                forall|x: Seq<u8>|
                    #[trigger] views(out@).contains(x) <==> (sv.take(k as int).contains(x) && !exists|i: int|
                        0 <= i < self.dag@.len() && self.dag@[i].vertex@ == x && has_parent_in(self.dag@[i], sv)),
            decreases set@.len() - k,
        {
            let x = &set[k];
            let is_root = match self.dag_index(x) {
                None => true,
                Some(i) => !parent_in(&self.dag[i], set),
            };
            proof {
                let ex = exists|i: int| 0 <= i < self.dag@.len() && self.dag@[i].vertex@ == x@ && has_parent_in(self.dag@[i], sv);
                assert(is_root == !ex) by {
                    if ex {
                        let i = choose|i: int| 0 <= i < self.dag@.len() && self.dag@[i].vertex@ == x@ && has_parent_in(self.dag@[i], sv);
                        assert(in_dag(self.dag@, x@));
                    }
                };
            }
            let ghost o = out@;
            let ghost t = sv.take(k as int);
            assert(sv.take(k as int + 1) =~= t.push(x@));
            assert(sv[k as int] == x@);
            if is_root {
                out.push(x.duplicate());
                assert(views(out@) =~= views(o).push(x@));
            }
            proof {
                assert forall|y: Seq<u8>| #[trigger] views(out@).contains(y) <==> (t.push(x@).contains(y) && !exists|i: int|
                    0 <= i < self.dag@.len() && self.dag@[i].vertex@ == y && has_parent_in(self.dag@[i], sv)) by {
                    if views(out@).contains(y) {
                        let q = choose|q: int| 0 <= q < views(out@).len() && views(out@)[q] == y;
                        if q < o.len() {
                            assert(views(o)[q] == y);
                            assert(views(o).contains(y));
                            let m = choose|m: int| 0 <= m < t.len() && t[m] == y;
                            assert(t.push(x@)[m] == y);
                        } else {
                            assert(t.push(x@)[t.len() as int] == y);
                        }
                    }
                    if t.push(x@).contains(y) && !exists|i: int|
                        0 <= i < self.dag@.len() && self.dag@[i].vertex@ == y && has_parent_in(self.dag@[i], sv) {
                        let m = choose|m: int| 0 <= m < t.len() + 1 && t.push(x@)[m] == y;
                        if m < t.len() {
                            assert(t[m] == y);
                            assert(t.contains(y));
                            assert(views(o).contains(y));
                            let q = choose|q: int| 0 <= q < views(o).len() && views(o)[q] == y;
                            if is_root {
                                assert(views(out@)[q] == y);
                            }
                        } else {
                            assert(y == x@);
                            assert(views(out@)[o.len() as int] == y);
                        }
                    }
                };
            }
            k = k + 1;
        }
        assert(sv.take(set@.len() as int) =~= sv);
        out
    }
}

/// Whether `v` is a parent of some vertex of `set`.
pub open spec fn is_parent_of_set(dag: Seq<DagNode>, set: Seq<Seq<u8>>, v: Seq<u8>) -> bool {
    exists|i: int| 0 <= i < dag.len() && set.contains(dag[i].vertex@) && #[trigger] has_parent(dag[i], v)
}

pub open spec fn parent_marks(dag: Seq<DagNode>, set: Seq<Seq<u8>>) -> Seq<bool> {
    Seq::new(dag.len(), |k: int| is_parent_of_set(dag, set, dag[k].vertex@))
}

impl HgCommits {
    /// The vertices, in graph order, that are a parent of some vertex of
    /// `set`.
    pub fn parents(&self, set: &Vec<VertexName>) -> (r: Vec<VertexName>)
        ensures
            views(r@) == select(self.dag@, parent_marks(self.dag@, views(set@)), self.dag@.len() as int),
    {
        let n = self.dag.len();
        let ghost sv = views(set@);
        let mut keep: Vec<bool> = Vec::new();
        let mut k: usize = 0;
        while k < n
            invariant
                k <= n,
                n == self.dag@.len(),
                sv == views(set@),
                keep@ == parent_marks(self.dag@, sv).take(k as int),
            decreases n - k,
        {
            let v = &self.dag[k].vertex;
            let mut found = false;
            let mut i: usize = 0;
            while i < n && !found
                invariant
                    i <= n,
                    n == self.dag@.len(),
                    sv == views(set@),
                    *v == self.dag@[k as int].vertex,
                    found ==> is_parent_of_set(self.dag@, sv, v@),
                    !found ==> forall|t: int|
                        0 <= t < i ==> !(sv.contains(self.dag@[t].vertex@) && #[trigger] has_parent(self.dag@[t], v@)),
                decreases n - i + (if found { 0int } else { 1int }),
            {
                if name_in(set, &self.dag[i].vertex) && node_has_parent(&self.dag[i], v) {
                    found = true;
                } else {
                    i = i + 1;
                }
            }
            keep.push(found);
            k = k + 1;
            assert(keep@ =~= parent_marks(self.dag@, sv).take(k as int));
        }
        assert(keep@ =~= parent_marks(self.dag@, sv));
        self.collect_marked(&keep)
    }
}

/// The hashed header does not depend on the order of the first two
/// parents.
pub proof fn law_header_ignores_parent_order(p: Seq<Seq<u8>>)
    requires
        p.len() >= 2,
    ensures
        canonical_header(p) == canonical_header(p.update(0, p[1]).update(1, p[0])),
{
    let q = p.update(0, p[1]).update(1, p[0]);
    assert(parent_or_null(q, 0) == p[1]);
    assert(parent_or_null(q, 1) == p[0]);
    lemma_lex_total(p[0], p[1]);
    lemma_lex_irreflexive(p[0]);
}

/// The payload of a commit with 20-byte parent ids follows its 40-byte
/// header.
pub proof fn law_payload_after_header(c: HgCommit)
    requires
        !short_parents(c),
    ensures
        commit_text(c).len() >= 40,
        commit_text(c).skip(40) == c.raw_text@,
{
    let ps = views(c.parents@);
    assert forall|j: int| 0 <= j < ps.len() implies (#[trigger] ps[j]).len() == 20 by {
        assert(ps[j] == c.parents@[j]@);
    };
    lemma_header_len(ps);
    assert(commit_text(c).skip(40) =~= c.raw_text@);
}

/// After a batch is stored, the text under a commit's name is the hashed
/// text of a commit of the batch with that name; when the names in the
/// batch are distinct, it is that commit's own, so its payload reads back.
pub proof fn law_stored_commit_reads_back(blobs: Seq<StoredBlob>, commits: Seq<HgCommit>, k: int)
    requires
        stored_batch(blobs, commits),
        all_ok(commits),
        0 <= k < commits.len(),
        forall|a: int, b: int| 0 <= a < b < commits.len() ==> commits[a].vertex@ != commits[b].vertex@,
    ensures
        blob_keyed(blobs, commits[k].vertex@),
        blob_text(blobs, commits[k].vertex@) == commit_text(commits[k]),
        blob_text(blobs, commits[k].vertex@).skip(40) == commits[k].raw_text@,
{
    reveal(stored_batch);
    let c = commits[k];
    let m = choose|m: int|
        0 <= m < commits.len() && commits[m].vertex@ == c.vertex@ && blob_text(blobs, c.vertex@) == commit_text(
            #[trigger] commits[m],
        );
    if m < k {
        assert(commits[m].vertex@ != commits[k].vertex@);
    } else if k < m {
        assert(commits[k].vertex@ != commits[m].vertex@);
    }
    assert(commit_ok(commits[k]));
    law_payload_after_header(c);
}

/// Every commit of a stored batch is readable: its name is 20 bytes and a
/// text is stored under it.
pub proof fn law_stored_commit_readable(blobs: Seq<StoredBlob>, commits: Seq<HgCommit>, k: int)
    requires
        stored_batch(blobs, commits),
        all_ok(commits),
        0 <= k < commits.len(),
    ensures
        commits[k].vertex@.len() == 20,
        blob_keyed(blobs, commits[k].vertex@),
{
    reveal(stored_batch);
    assert(commit_ok(commits[k]));
}

/// Whether `x` is a vertex that is an ancestor of (or among) `heads`.
pub open spec fn is_ancestor_of_set(dag: Seq<DagNode>, heads: Seq<Seq<u8>>, x: Seq<u8>) -> bool {
    exists|k: int| 0 <= k < dag.len() && dag[k].vertex@ == x && ancestor_marks(dag, heads, 0)[k]
}

impl HgCommits {
    /// The heads of the ancestors of `set`: its ancestors that are not a
    /// parent of another of its ancestors.
    pub fn heads_ancestors(&self, set: &Vec<VertexName>) -> (r: Vec<VertexName>)
        requires
            self.wf(),
        ensures
            forall|x: Seq<u8>|
                #[trigger] views(r@).contains(x) <==> (is_ancestor_of_set(self.dag@, views(set@), x) && !exists|i: int|
                    0 <= i < self.dag@.len() && is_ancestor_of_set(self.dag@, views(set@), self.dag@[i].vertex@)
                        && #[trigger] has_parent(self.dag@[i], x)),
    {
        let anc = self.ancestors(set);
        let r = self.heads(&anc);
        proof {
            let sv = views(set@);
            assert forall|x: Seq<u8>| #[trigger] views(r@).contains(x) <==> (is_ancestor_of_set(self.dag@, sv, x) && !exists|i: int|
                0 <= i < self.dag@.len() && is_ancestor_of_set(self.dag@, sv, self.dag@[i].vertex@) && #[trigger] has_parent(
                    self.dag@[i],
                    x,
                )) by {
                assert(views(anc@).contains(x) == is_ancestor_of_set(self.dag@, sv, x));
                assert forall|i: int| 0 <= i < self.dag@.len() implies views(anc@).contains(self.dag@[i].vertex@)
                    == is_ancestor_of_set(self.dag@, sv, self.dag@[i].vertex@) by {};
            };
        }
        r
    }

    /// `only(reachable, unreachable)` and the ancestors of `unreachable`,
    /// together.
    pub fn only_both(&self, reachable: &Vec<VertexName>, unreachable: &Vec<VertexName>) -> (r: (
        Vec<VertexName>,
        Vec<VertexName>,
    ))
        requires
            self.wf(),
        ensures
            forall|x: Seq<u8>|
                #[trigger] views(r.0@).contains(x) <==> exists|k: int|
                    0 <= k < self.dag@.len() && self.dag@[k].vertex@ == x && ancestor_marks(self.dag@, views(reachable@), 0)[k]
                        && !ancestor_marks(self.dag@, views(unreachable@), 0)[k],
            forall|x: Seq<u8>|
                #[trigger] views(r.1@).contains(x) <==> is_ancestor_of_set(self.dag@, views(unreachable@), x),
    {
        let only = self.only(reachable, unreachable);
        let anc = self.ancestors(unreachable);
        (only, anc)
    }
}

} // verus!
