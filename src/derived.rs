//! The derived-data framework: per-type mappings from changesets to derived
//! values, derivation that reuses what is recorded, regeneration, and a
//! batched backfill that makes derived blobs durable before it records any
//! mapping entry.
use crate::types::ChangesetId;
use vstd::prelude::*;

verus! {

/// The derivation types that can be named.
#[derive(PartialEq, Eq, Structural, Clone, Copy, Debug)]
pub enum DerivedDataType {
    Unodes,
    Fastlog,
    HgChangesets,
    Fsnodes,
    Blame,
    ChangesetInfo,
    DeletedManifest,
    Filenodes,
}

pub open spec fn kind_name(t: DerivedDataType) -> Seq<char> {
    match t {
        DerivedDataType::Unodes => "unodes"@,
        DerivedDataType::Fastlog => "fastlog"@,
        DerivedDataType::HgChangesets => "hgchangesets"@,
        DerivedDataType::Fsnodes => "fsnodes"@,
        DerivedDataType::Blame => "blame"@,
        DerivedDataType::ChangesetInfo => "changeset_info"@,
        DerivedDataType::DeletedManifest => "deleted_manifest"@,
        DerivedDataType::Filenodes => "filenodes"@,
    }
}

/// The type a name stands for.
pub open spec fn parse_kind(n: Seq<char>) -> Option<DerivedDataType> {
    if n == "unodes"@ {
        Some(DerivedDataType::Unodes)
    } else if n == "fastlog"@ {
        Some(DerivedDataType::Fastlog)
    } else if n == "hgchangesets"@ {
        Some(DerivedDataType::HgChangesets)
    } else if n == "fsnodes"@ {
        Some(DerivedDataType::Fsnodes)
    } else if n == "blame"@ {
        Some(DerivedDataType::Blame)
    } else if n == "changeset_info"@ {
        Some(DerivedDataType::ChangesetInfo)
    } else if n == "deleted_manifest"@ {
        Some(DerivedDataType::DeletedManifest)
    } else if n == "filenodes"@ {
        Some(DerivedDataType::Filenodes)
    } else {
        None
    }
}

/// Each type's name parses back to the type.
pub proof fn law_kind_name_round_trip(t: DerivedDataType)
    ensures
        parse_kind(kind_name(t)) == Some(t),
{
    reveal_strlit("unodes");
    reveal_strlit("fastlog");
    reveal_strlit("hgchangesets");
    reveal_strlit("fsnodes");
    reveal_strlit("blame");
    reveal_strlit("changeset_info");
    reveal_strlit("deleted_manifest");
    reveal_strlit("filenodes");
    assert("unodes"@.len() == 6 && "fastlog"@.len() == 7 && "hgchangesets"@.len() == 12);
    assert("fsnodes"@.len() == 7 && "blame"@.len() == 5 && "changeset_info"@.len() == 14);
    assert("deleted_manifest"@.len() == 16 && "filenodes"@.len() == 9);
    assert("fastlog"@[1] != "fsnodes"@[1]);
}

fn name_is(name: &str, lit: &str) -> (r: bool)
    ensures
        r == (name@ == lit@),
{
    let a = name.to_owned();
    let b = lit.to_owned();
    a == b
}

impl DerivedDataType {
    pub fn name(&self) -> (r: &'static str)
        ensures
            r@ == kind_name(*self),
    {
        match self {
            DerivedDataType::Unodes => "unodes",
            DerivedDataType::Fastlog => "fastlog",
            DerivedDataType::HgChangesets => "hgchangesets",
            DerivedDataType::Fsnodes => "fsnodes",
            DerivedDataType::Blame => "blame",
            DerivedDataType::ChangesetInfo => "changeset_info",
            DerivedDataType::DeletedManifest => "deleted_manifest",
            DerivedDataType::Filenodes => "filenodes",
        }
    }

    /// The type with the given name, if any.
    pub fn from_name(name: &str) -> (r: Option<DerivedDataType>)
        ensures
            r == parse_kind(name@),
    {
        if name_is(name, "unodes") {
            Some(DerivedDataType::Unodes)
        } else if name_is(name, "fastlog") {
            Some(DerivedDataType::Fastlog)
        } else if name_is(name, "hgchangesets") {
            Some(DerivedDataType::HgChangesets)
        } else if name_is(name, "fsnodes") {
            Some(DerivedDataType::Fsnodes)
        } else if name_is(name, "blame") {
            Some(DerivedDataType::Blame)
        } else if name_is(name, "changeset_info") {
            Some(DerivedDataType::ChangesetInfo)
        } else if name_is(name, "deleted_manifest") {
            Some(DerivedDataType::DeletedManifest)
        } else if name_is(name, "filenodes") {
            Some(DerivedDataType::Filenodes)
        } else {
            None
        }
    }
}

/// Every type the factory recognises.
pub fn possible_derived_types() -> (r: Vec<DerivedDataType>)
    ensures
        r@ == seq![
            DerivedDataType::Unodes,
            DerivedDataType::Fastlog,
            DerivedDataType::HgChangesets,
            DerivedDataType::Fsnodes,
            DerivedDataType::Blame,
            DerivedDataType::ChangesetInfo,
            DerivedDataType::DeletedManifest,
            DerivedDataType::Filenodes,
        ],
{
    let mut v: Vec<DerivedDataType> = Vec::new();
    v.push(DerivedDataType::Unodes);
    v.push(DerivedDataType::Fastlog);
    v.push(DerivedDataType::HgChangesets);
    v.push(DerivedDataType::Fsnodes);
    v.push(DerivedDataType::Blame);
    v.push(DerivedDataType::ChangesetInfo);
    v.push(DerivedDataType::DeletedManifest);
    v.push(DerivedDataType::Filenodes);
    assert(v@ =~= seq![
        DerivedDataType::Unodes,
        DerivedDataType::Fastlog,
        DerivedDataType::HgChangesets,
        DerivedDataType::Fsnodes,
        DerivedDataType::Blame,
        DerivedDataType::ChangesetInfo,
        DerivedDataType::DeletedManifest,
        DerivedDataType::Filenodes,
    ]);
    v
}

#[derive(PartialEq, Eq, Structural, Clone, Copy, Debug)]
pub enum DeriveMode {
    /// Derive only types enabled for the repository, with their dependencies.
    OnlyIfEnabled,
    /// Derive without checking that dependencies are derived.
    Unsafe,
}

#[derive(PartialEq, Eq, Debug)]
pub enum DerivedError {
    /// No derivation type is named `name`.
    UnsupportedType { name: String },
    /// Mapping entries may only be recorded once the staged blobs are flushed.
    NotFlushed,
    /// Outside unsafe mode, a changeset is derived only after its parents;
    /// `parents[index]` is not derived yet.
    UnderivedParent { index: usize },
}

pub open spec fn keys_unique(s: Seq<(ChangesetId, Vec<u8>)>) -> bool {
    forall|i: int, j: int| 0 <= i < s.len() && 0 <= j < s.len() && i != j ==> s[i].0 != s[j].0
}

pub open spec fn value_in(s: Seq<(ChangesetId, Vec<u8>)>, c: ChangesetId) -> Option<Seq<u8>> {
    if exists|i: int| 0 <= i < s.len() && s[i].0 == c {
        Some(s[choose|i: int| 0 <= i < s.len() && s[i].0 == c].1@)
    } else {
        None
    }
}

proof fn lemma_value_at(s: Seq<(ChangesetId, Vec<u8>)>, i: int)
    requires
        keys_unique(s),
        0 <= i < s.len(),
    ensures
        value_in(s, s[i].0) == Some(s[i].1@),
{
    let j = choose|j: int| 0 <= j < s.len() && s[j].0 == s[i].0;
    assert(j == i);
}

fn copy_bytes(b: &Vec<u8>) -> (r: Vec<u8>)
    ensures
        r@ == b@,
{
    let mut v: Vec<u8> = Vec::new();
    let mut i: usize = 0;
    while i < b.len()
        invariant
            i <= b@.len(),
            v@ == b@.take(i as int),
        decreases b@.len() - i,
    {
        v.push(b[i]);
        i = i + 1;
        assert(v@ =~= b@.take(i as int));
    }
    assert(b@.take(b@.len() as int) =~= b@);
    v
}

/// Sets `c` to `v` in a table with unique keys.
fn upsert(table: &mut Vec<(ChangesetId, Vec<u8>)>, c: ChangesetId, v: Vec<u8>)
    requires
        keys_unique(old(table)@),
    ensures
        keys_unique(final(table)@),
        forall|x: ChangesetId| #[trigger] value_in(final(table)@, x) == if x == c {
            Some(v@)
        } else {
            value_in(old(table)@, x)
        },
{
    let ghost t0 = table@;
    let ghost v0 = v@;
    let mut i: usize = 0;
    let mut found = false;
    while !found && i < table.len()
        invariant
            i <= table@.len(),
            table@ == t0,
            found ==> i < t0.len() && t0[i as int].0 == c,
            forall|j: int| 0 <= j < i ==> t0[j].0 != c,
        decreases table@.len() - i + (if found { 0int } else { 1int }),
    {
        if table[i].0 == c {
            found = true;
        } else {
            i = i + 1;
        }
    }
    let at: usize = if found {
        table.set(i, (c, v));
        i
    } else {
        table.push((c, v));
        table.len() - 1
    };
    proof {
        let t = table@;
        assert(t[at as int] == (c, t[at as int].1) && t[at as int].1@ == v0);
        assert(forall|j: int| 0 <= j < t.len() && j != at ==> t[j] == t0[j]);
        assert(keys_unique(t)) by {
            assert forall|a: int, b: int| 0 <= a < t.len() && 0 <= b < t.len() && a != b implies t[a].0 != t[b].0 by {
                if a != at && b != at {
                    assert(t[a] == t0[a] && t[b] == t0[b]);
                } else if a != at {
                    assert(t[a] == t0[a]);
                } else {
                    assert(t[b] == t0[b]);
                }
            };
        };
        assert forall|x: ChangesetId| #[trigger] value_in(t, x) == if x == c { Some(v0) } else { value_in(t0, x) } by {
            if x == c {
                lemma_value_at(t, at as int);
            } else if exists|j: int| 0 <= j < t0.len() && t0[j].0 == x {
                let j = choose|j: int| 0 <= j < t0.len() && t0[j].0 == x;
                lemma_value_at(t0, j);
                assert(t[j] == t0[j]);
                lemma_value_at(t, j);
            } else if exists|j: int| 0 <= j < t.len() && t[j].0 == x {
                let j = choose|j: int| 0 <= j < t.len() && t[j].0 == x;
                assert(j != at);
                assert(t0[j] == t[j]);
            }
        };
    }
}

fn lookup_value(table: &Vec<(ChangesetId, Vec<u8>)>, c: ChangesetId) -> (r: Option<usize>)
    requires
        keys_unique(table@),
    ensures
        match r {
            Some(i) => i < table@.len() && table@[i as int].0 == c && value_in(table@, c) == Some(
                table@[i as int].1@,
            ),
            None => value_in(table@, c) is None,
        },
{
    let mut i: usize = 0;
    while i < table.len()
        invariant
            i <= table@.len(),
            keys_unique(table@),
            forall|j: int| 0 <= j < i ==> table@[j].0 != c,
        decreases table@.len() - i,
    {
        if table[i].0 == c {
            proof {
                lemma_value_at(table@, i as int);
            }
            return Some(i);
        }
        i = i + 1;
    }
    None
}

fn contains_cs(v: &Vec<ChangesetId>, c: ChangesetId) -> (r: bool)
    ensures
        r == v@.contains(c),
{
    let mut i: usize = 0;
    while i < v.len()
        invariant
            i <= v@.len(),
            forall|j: int| 0 <= j < i ==> v@[j] != c,
        decreases v@.len() - i,
    {
        if v[i] == c {
            assert(v@[i as int] == c);
            return true;
        }
        i = i + 1;
    }
    false
}

/// What a key holds in an append-only log of blob writes: the last write.
pub open spec fn latest(s: Seq<(Vec<u8>, Vec<u8>)>, k: Seq<u8>) -> Option<Seq<u8>>
    decreases s.len(),
{
    if s.len() == 0 {
        None
    } else if s.last().0@ == k {
        Some(s.last().1@)
    } else {
        latest(s.drop_last(), k)
    }
}

/// A key/value blob store; a later write of a key replaces an earlier one.
pub struct BlobStore {
    pub writes: Vec<(Vec<u8>, Vec<u8>)>,
}

impl BlobStore {
    pub open spec fn get_spec(self, k: Seq<u8>) -> Option<Seq<u8>> {
        latest(self.writes@, k)
    }

    pub fn new() -> (r: BlobStore)
        ensures
            forall|k: Seq<u8>| #[trigger] r.get_spec(k) is None,
    {
        BlobStore { writes: Vec::new() }
    }

    pub fn put(&mut self, key: Vec<u8>, value: Vec<u8>)
        ensures
            final(self).writes@ == old(self).writes@.push((key, value)),
            forall|k: Seq<u8>| #[trigger] final(self).get_spec(k) == if k == key@ {
                Some(value@)
            } else {
                old(self).get_spec(k)
            },
    {
        let ghost w0 = self.writes@;
        self.writes.push((key, value));
        assert(self.writes@.drop_last() =~= w0);
    }

    pub fn get(&self, key: &Vec<u8>) -> (r: Option<Vec<u8>>)
        ensures
            match r {
                Some(v) => self.get_spec(key@) == Some(v@),
                None => self.get_spec(key@) is None,
            },
    {
        let mut i: usize = self.writes.len();
        assert(self.writes@.take(i as int) =~= self.writes@);
        while i > 0
            invariant
                i <= self.writes@.len(),
                latest(self.writes@, key@) == latest(self.writes@.take(i as int), key@),
            decreases i,
        {
            let ghost t = self.writes@.take(i as int);
            assert(t.drop_last() =~= self.writes@.take(i - 1));
            assert(t.last() == self.writes@[i - 1]);
            if bytes_eq(&self.writes[i - 1].0, key) {
                return Some(copy_bytes(&self.writes[i - 1].1));
            }
            i = i - 1;
        }
        None
    }
}

fn bytes_eq(a: &Vec<u8>, b: &Vec<u8>) -> (r: bool)
    ensures
        r == (a@ == b@),
{
    if a.len() != b.len() {
        return false;
    }
    let mut i: usize = 0;
    while i < a.len()
        invariant
            i <= a@.len(),
            a@.len() == b@.len(),
            forall|j: int| 0 <= j < i ==> a@[j] == b@[j],
        decreases a@.len() - i,
    {
        if a[i] != b[i] {
            return false;
        }
        i = i + 1;
    }
    assert(a@ =~= b@);
    true
}

/// The operations on one derivation type: its mapping from changesets to
/// derived values, and the changesets marked for regeneration, whose
/// recorded values are ignored until they are derived again.
pub struct DerivedUtils {
    pub kind: DerivedDataType,
    pub mode: DeriveMode,
    pub mapping: Vec<(ChangesetId, Vec<u8>)>,
    pub regenerating: Vec<ChangesetId>,
}

impl DerivedUtils {
    pub open spec fn wf(self) -> bool {
        keys_unique(self.mapping@)
    }

    /// The value recorded for `c` that is not marked for regeneration.
    pub open spec fn derived_value(self, c: ChangesetId) -> Option<Seq<u8>> {
        if self.regenerating@.contains(c) {
            None
        } else {
            value_in(self.mapping@, c)
        }
    }

    pub open spec fn is_derived(self, c: ChangesetId) -> bool {
        self.derived_value(c) is Some
    }

    pub open spec fn underived(self) -> spec_fn(ChangesetId) -> bool {
        |c: ChangesetId| !self.is_derived(c)
    }

    pub fn new(kind: DerivedDataType, mode: DeriveMode) -> (r: DerivedUtils)
        ensures
            r.wf(),
            r.kind == kind,
            r.mode == mode,
            forall|c: ChangesetId| #[trigger] r.derived_value(c) is None,
    {
        DerivedUtils { kind, mode, mapping: Vec::new(), regenerating: Vec::new() }
    }

    /// The name of the derivation type.
    pub fn name(&self) -> (r: &'static str)
        ensures
            r@ == kind_name(self.kind),
    {
        self.kind.name()
    }

    /// The derived value of `c`, if it is derived.
    pub fn fetch(&self, c: ChangesetId) -> (r: Option<Vec<u8>>)
        requires
            self.wf(),
        ensures
            match r {
                Some(v) => self.derived_value(c) == Some(v@),
                None => self.derived_value(c) is None,
            },
    {
        if contains_cs(&self.regenerating, c) {
            return None;
        }
        match lookup_value(&self.mapping, c) {
            Some(i) => Some(copy_bytes(&self.mapping[i].1)),
            None => None,
        }
    }

    /// The changesets of `csids` that are not derived yet, in order.
    pub fn pending(&self, csids: &Vec<ChangesetId>) -> (r: Vec<ChangesetId>)
        requires
            self.wf(),
        ensures
            r@ == csids@.filter(self.underived()),
    {
        broadcast use Seq::lemma_filter_push;

        let mut out: Vec<ChangesetId> = Vec::new();
        let mut i: usize = 0;
        while i < csids.len()
            invariant
                i <= csids@.len(),
                self.wf(),
                out@ == csids@.take(i as int).filter(self.underived()),
            decreases csids@.len() - i,
        {
            let c = csids[i];
            assert(csids@.take(i as int + 1) =~= csids@.take(i as int).push(c));
            assert(self.underived()(c) == !self.is_derived(c));
            proof {
                csids@.take(i as int).lemma_filter_push(c, self.underived());
            }
            if self.fetch(c).is_none() {
                out.push(c);
            }
            i = i + 1;
        }
        assert(csids@.take(csids@.len() as int) =~= csids@);
        out
    }

    /// Records `value` for `c` and clears any regeneration mark on it.
    pub fn put(&mut self, c: ChangesetId, value: Vec<u8>)
        requires
            old(self).wf(),
        ensures
            final(self).wf(),
            final(self).kind == old(self).kind,
            final(self).mode == old(self).mode,
            final(self).derived_value(c) == Some(value@),
            forall|x: ChangesetId| x != c ==> #[trigger] final(self).derived_value(x) == old(self).derived_value(x),
    {
        let ghost r0 = self.regenerating@;
        upsert(&mut self.mapping, c, value);
        let mut kept: Vec<ChangesetId> = Vec::new();
        let mut i: usize = 0;
        while i < self.regenerating.len()
            invariant
                i <= self.regenerating@.len(),
                self.regenerating@ == r0,
                forall|x: ChangesetId| #[trigger] kept@.contains(x) <==> (r0.take(i as int).contains(x) && x != c),
            decreases self.regenerating@.len() - i,
        {
            let x = self.regenerating[i];
            let ghost k0 = kept@;
            if x != c {
                kept.push(x);
            }
            proof {
                let t = r0.take(i as int);
                assert(r0.take(i as int + 1) =~= t.push(x));
                assert forall|y: ChangesetId| #[trigger] kept@.contains(y) <==> (t.push(x).contains(y) && y != c) by {
                    if kept@.contains(y) {
                        let j = choose|j: int| 0 <= j < kept@.len() && kept@[j] == y;
                        if j < k0.len() {
                            assert(k0[j] == y);
                            assert(k0.contains(y));
                            let m = choose|m: int| 0 <= m < t.len() && t[m] == y;
                            assert(t.push(x)[m] == y);
                        } else {
                            assert(t.push(x)[t.len() as int] == y);
                        }
                    }
                    if t.push(x).contains(y) && y != c {
                        let m = choose|m: int| 0 <= m < t.len() + 1 && t.push(x)[m] == y;
                        if m < t.len() {
                            assert(t[m] == y);
                            assert(t.contains(y));
                            assert(k0.contains(y));
                            let j = choose|j: int| 0 <= j < k0.len() && k0[j] == y;
                            assert(kept@[j] == y);
                        } else {
                            assert(kept@[k0.len() as int] == y);
                        }
                    }
                };
            }
            i = i + 1;
        }
        assert(r0.take(r0.len() as int) =~= r0);
        self.regenerating = kept;
    }

    /// Whether some parent of `parents` is not derived.
    pub open spec fn parent_underived(self, parents: Seq<ChangesetId>) -> bool {
        exists|j: int| 0 <= j < parents.len() && !self.is_derived(#[trigger] parents[j])
    }

    /// Derives `c`, whose parents are `parents`: its recorded value if it
    /// is derived, else `computed`, the value the derivation produced, which
    /// is then recorded. Outside unsafe mode every parent must be derived
    /// first; otherwise nothing changes.
    pub fn derive(&mut self, c: ChangesetId, parents: &Vec<ChangesetId>, computed: Vec<u8>) -> (r: Result<
        Vec<u8>,
        DerivedError,
    >)
        requires
            old(self).wf(),
        ensures
            final(self).wf(),
            final(self).kind == old(self).kind,
            final(self).mode == old(self).mode,
            r is Err <==> (old(self).derived_value(c) is None && old(self).mode == DeriveMode::OnlyIfEnabled
                && old(self).parent_underived(parents@)),
            match r {
                Ok(v) => v@ == match old(self).derived_value(c) {
                    Some(w) => w,
                    None => computed@,
                } && final(self).derived_value(c) == Some(v@),
                Err(e) => *final(self) == *old(self) && e is UnderivedParent && e->index < parents@.len()
                    && !old(self).is_derived(parents@[e->index as int]),
            },
            forall|x: ChangesetId| x != c ==> #[trigger] final(self).derived_value(x) == old(self).derived_value(x),
    {
        match self.fetch(c) {
            Some(v) => Ok(v),
            None => {
                if self.mode == DeriveMode::OnlyIfEnabled {
                    let mut j: usize = 0;
                    while j < parents.len()
                        invariant
                            j <= parents@.len(),
                            self.wf(),
                            *self == *old(self),
                            self.mode == DeriveMode::OnlyIfEnabled,
                            old(self).derived_value(c) is None,
                            forall|t: int| 0 <= t < j ==> self.is_derived(#[trigger] parents@[t]),
                        decreases parents@.len() - j,
                    {
                        if self.fetch(parents[j]).is_none() {
                            assert(!self.is_derived(parents@[j as int]));
                            return Err(DerivedError::UnderivedParent { index: j });
                        }
                        j = j + 1;
                    }
                }
                let r = copy_bytes(&computed);
                self.put(c, computed);
                Ok(r)
            },
        }
    }

    /// Marks `csids` so that their recorded values are ignored until they
    /// are derived again.
    pub fn regenerate(&mut self, csids: &Vec<ChangesetId>)
        requires
            old(self).wf(),
        ensures
            final(self).wf(),
            final(self).kind == old(self).kind,
            final(self).mapping@ == old(self).mapping@,
            forall|x: ChangesetId| #[trigger] final(self).derived_value(x) == if csids@.contains(x) {
                None
            } else {
                old(self).derived_value(x)
            },
    {
        let ghost r0 = self.regenerating@;
        let mut i: usize = 0;
        while i < csids.len()
            invariant
                i <= csids@.len(),
                self.mapping@ == old(self).mapping@,
                self.kind == old(self).kind,
                r0 == old(self).regenerating@,
                forall|x: ChangesetId| #[trigger] self.regenerating@.contains(x) <==> (r0.contains(x) || csids@.take(i as int).contains(x)),
            decreases csids@.len() - i,
        {
            let c = csids[i];
            let ghost g0 = self.regenerating@;
            self.regenerating.push(c);
            proof {
                let t = csids@.take(i as int);
                assert(csids@.take(i as int + 1) =~= t.push(c));
                assert forall|x: ChangesetId| #[trigger] self.regenerating@.contains(x) <==> (r0.contains(x) || t.push(c).contains(x)) by {
                    if self.regenerating@.contains(x) {
                        let j = choose|j: int| 0 <= j < self.regenerating@.len() && self.regenerating@[j] == x;
                        if j < g0.len() {
                            assert(g0[j] == x);
                            assert(g0.contains(x));
                            if t.contains(x) {
                                let m = choose|m: int| 0 <= m < t.len() && t[m] == x;
                                assert(t.push(c)[m] == x);
                            }
                        } else {
                            assert(t.push(c)[t.len() as int] == x);
                        }
                    }
                    if t.push(c).contains(x) {
                        let m = choose|m: int| 0 <= m < t.len() + 1 && t.push(c)[m] == x;
                        if m < t.len() {
                            assert(t[m] == x);
                            assert(t.contains(x));
                            assert(g0.contains(x));
                            let j = choose|j: int| 0 <= j < g0.len() && g0[j] == x;
                            assert(self.regenerating@[j] == x);
                        } else {
                            assert(self.regenerating@[g0.len() as int] == x);
                        }
                    }
                    if r0.contains(x) {
                        assert(g0.contains(x));
                        let j = choose|j: int| 0 <= j < g0.len() && g0[j] == x;
                        assert(self.regenerating@[j] == x);
                    }
                };
            }
            i = i + 1;
        }
        assert(csids@.take(csids@.len() as int) =~= csids@);
    }
}

/// Outside unsafe mode, a changeset newly derived has all its parents
/// derived.
pub proof fn law_parents_derived_first(
    before: DerivedUtils,
    after: DerivedUtils,
    c: ChangesetId,
    parents: Seq<ChangesetId>,
)
    requires
        before.mode == DeriveMode::OnlyIfEnabled,
        before.derived_value(c) is None,
        after.derived_value(c) is Some,
        !(before.derived_value(c) is None && before.mode == DeriveMode::OnlyIfEnabled && before.parent_underived(parents)),
    ensures
        forall|j: int| 0 <= j < parents.len() ==> before.is_derived(#[trigger] parents[j]),
{
}

/// Once a changeset is derived, asking which of it is pending gives nothing.
pub proof fn law_derived_not_pending(u: DerivedUtils, c: ChangesetId)
    requires
        u.is_derived(c),
    ensures
        seq![c].filter(u.underived()) == Seq::<ChangesetId>::empty(),
{
    broadcast use Seq::lemma_filter_push;

    assert(seq![c] =~= Seq::<ChangesetId>::empty().push(c));
    reveal(Seq::filter);
    assert(Seq::<ChangesetId>::empty().filter(u.underived()) =~= Seq::<ChangesetId>::empty());
}

proof fn lemma_value_push(s: Seq<(ChangesetId, Vec<u8>)>, e: (ChangesetId, Vec<u8>))
    requires
        keys_unique(s.push(e)),
    ensures
        keys_unique(s),
        forall|x: ChangesetId| #[trigger] value_in(s.push(e), x) == if x == e.0 {
            Some(e.1@)
        } else {
            value_in(s, x)
        },
{
    let t = s.push(e);
    assert(keys_unique(s)) by {
        assert forall|a: int, b: int| 0 <= a < s.len() && 0 <= b < s.len() && a != b implies s[a].0 != s[b].0 by {
            assert(t[a] == s[a] && t[b] == s[b]);
        };
    };
    assert forall|x: ChangesetId| #[trigger] value_in(t, x) == if x == e.0 { Some(e.1@) } else { value_in(s, x) } by {
        if x == e.0 {
            lemma_value_at(t, s.len() as int);
        } else if exists|j: int| 0 <= j < s.len() && s[j].0 == x {
            let j = choose|j: int| 0 <= j < s.len() && s[j].0 == x;
            lemma_value_at(s, j);
            assert(t[j] == s[j]);
            lemma_value_at(t, j);
        } else if exists|j: int| 0 <= j < t.len() && t[j].0 == x {
            let j = choose|j: int| 0 <= j < t.len() && t[j].0 == x;
            assert(t[j] == s[j]);
        }
    };
}

#[derive(PartialEq, Eq, Structural, Clone, Copy, Debug)]
pub enum BackfillPhase {
    /// Derived values and blobs accumulate in memory.
    Staging,
    /// The staged blobs are in the blob store; mapping entries may follow.
    Flushed,
}

/// A batched derivation run in unsafe mode: blob writes and mapping entries
/// are held in memory, the blobs are flushed first, and only then are the
/// mapping entries recorded. Dropping it before `commit` leaves the mapping
/// as it was.
pub struct Backfill {
    pub blobs: Vec<(Vec<u8>, Vec<u8>)>,
    pub staged: Vec<(ChangesetId, Vec<u8>)>,
    pub phase: BackfillPhase,
}

impl Backfill {
    pub open spec fn wf(self) -> bool {
        keys_unique(self.staged@)
    }

    pub fn new() -> (r: Backfill)
        ensures
            r.wf(),
            r.phase == BackfillPhase::Staging,
            r.blobs@.len() == 0,
            forall|c: ChangesetId| #[trigger] value_in(r.staged@, c) is None,
    {
        Backfill { blobs: Vec::new(), staged: Vec::new(), phase: BackfillPhase::Staging }
    }

    /// Reads through the staging layer: a staged value first, else the
    /// derived one.
    pub fn get(&self, utils: &DerivedUtils, c: ChangesetId) -> (r: Option<Vec<u8>>)
        requires
            self.wf(),
            utils.wf(),
        ensures
            match r {
                Some(v) => Some(v@) == match value_in(self.staged@, c) {
                    Some(s) => Some(s),
                    None => utils.derived_value(c),
                },
                None => value_in(self.staged@, c) is None && utils.derived_value(c) is None,
            },
    {
        match lookup_value(&self.staged, c) {
            Some(i) => Some(copy_bytes(&self.staged[i].1)),
            None => utils.fetch(c),
        }
    }

    /// Stages the derived `value` of `c` and the blobs its derivation wrote.
    pub fn stage(&mut self, c: ChangesetId, value: Vec<u8>, blobs: Vec<(Vec<u8>, Vec<u8>)>)
        requires
            old(self).wf(),
            old(self).phase == BackfillPhase::Staging,
        ensures
            final(self).wf(),
            final(self).phase == BackfillPhase::Staging,
            final(self).blobs@ == old(self).blobs@ + blobs@,
            forall|x: ChangesetId| #[trigger] value_in(final(self).staged@, x) == if x == c {
                Some(value@)
            } else {
                value_in(old(self).staged@, x)
            },
    {
        upsert(&mut self.staged, c, value);
        let mut blobs = blobs;
        self.blobs.append(&mut blobs);
    }

    /// Writes the staged blobs to `store`.
    pub fn flush(&mut self, store: &mut BlobStore)
        ensures
            final(self).phase == BackfillPhase::Flushed,
            final(self).staged@ == old(self).staged@,
            final(self).blobs@ == old(self).blobs@,
            final(store).writes@.len() == old(store).writes@.len() + old(self).blobs@.len(),
            forall|j: int| 0 <= j < old(store).writes@.len() ==> #[trigger] final(store).writes@[j] == old(store).writes@[j],
            forall|j: int|
                0 <= j < old(self).blobs@.len() ==> (#[trigger] final(store).writes@[old(store).writes@.len() + j]).0@
                    == old(self).blobs@[j].0@ && final(store).writes@[old(store).writes@.len() + j].1@
                    == old(self).blobs@[j].1@,
    {
        let ghost w0 = store.writes@;
        let mut i: usize = 0;
        while i < self.blobs.len()
            invariant
                i <= self.blobs@.len(),
                self.blobs@ == old(self).blobs@,
                self.staged@ == old(self).staged@,
                w0 == old(store).writes@,
                store.writes@.len() == w0.len() + i,
                forall|j: int| 0 <= j < w0.len() ==> store.writes@[j] == w0[j],
                forall|j: int| 0 <= j < i ==> store.writes@[w0.len() + j].0@ == self.blobs@[j].0@
                    && store.writes@[w0.len() + j].1@ == self.blobs@[j].1@,
            decreases self.blobs@.len() - i,
        {
            let k = copy_bytes(&self.blobs[i].0);
            let v = copy_bytes(&self.blobs[i].1);
            store.put(k, v);
            i = i + 1;
        }
        self.phase = BackfillPhase::Flushed;
    }
}

impl Backfill {
    /// Records the staged mapping entries in `utils`, provided the staged
    /// blobs were flushed; otherwise refuses and leaves `utils` as it was.
    pub fn commit(self, utils: &mut DerivedUtils) -> (r: Result<(), DerivedError>)
        requires
            self.wf(),
            old(utils).wf(),
        ensures
            final(utils).wf(),
            r is Ok <==> self.phase == BackfillPhase::Flushed,
            r is Err ==> *final(utils) == *old(utils) && r == Err::<(), DerivedError>(DerivedError::NotFlushed),
            r is Ok ==> forall|x: ChangesetId| #[trigger] final(utils).derived_value(x) == match value_in(self.staged@, x) {
                Some(v) => Some(v),
                None => old(utils).derived_value(x),
            },
    {
        if self.phase != BackfillPhase::Flushed {
            return Err(DerivedError::NotFlushed);
        }
        let ghost staged = self.staged@;
        let mut i: usize = 0;
        assert(staged.take(0) =~= Seq::<(ChangesetId, Vec<u8>)>::empty());
        while i < self.staged.len()
            invariant
                i <= staged.len(),
                staged == self.staged@,
                keys_unique(staged),
                utils.wf(),
                forall|x: ChangesetId| #[trigger] utils.derived_value(x) == match value_in(staged.take(i as int), x) {
                    Some(v) => Some(v),
                    None => old(utils).derived_value(x),
                },
            decreases staged.len() - i,
        {
            let c = self.staged[i].0;
            let v = copy_bytes(&self.staged[i].1);
            utils.put(c, v);
            proof {
                let t = staged.take(i as int + 1);
                assert(t =~= staged.take(i as int).push(staged[i as int]));
                assert(keys_unique(t)) by {
                    assert forall|a: int, b: int| 0 <= a < t.len() && 0 <= b < t.len() && a != b implies t[a].0 != t[b].0 by {
                        assert(t[a] == staged[a] && t[b] == staged[b]);
                    };
                };
                lemma_value_push(staged.take(i as int), staged[i as int]);
            }
            i = i + 1;
        }
        assert(staged.take(staged.len() as int) =~= staged);
        Ok(())
    }
}

/// The first changeset of each list, the toposorted underived ancestors of
/// one requested changeset, that has the earliest author date (the first of
/// them on a tie); `None` when every list is empty.
pub open spec fn oldest_of(lists: Seq<Vec<(ChangesetId, i64)>>, r: Option<(ChangesetId, i64)>) -> bool {
    match r {
        None => forall|i: int| 0 <= i < lists.len() ==> (#[trigger] lists[i])@.len() == 0,
        Some(best) => exists|i: int|
            0 <= i < lists.len() && (#[trigger] lists[i])@.len() > 0 && lists[i]@[0] == best && (forall|j: int|
                0 <= j < lists.len() && (#[trigger] lists[j])@.len() > 0 ==> best.1 <= lists[j]@[0].1) && (forall|j: int|
                0 <= j < i && (#[trigger] lists[j])@.len() > 0 ==> best.1 < lists[j]@[0].1),
    }
}

impl DerivedUtils {
    /// Given, for each requested changeset, its underived ancestors in
    /// topological order with their author dates, picks the first of each
    /// list as that branch's oldest underived commit and returns the one
    /// with the earliest author date.
    pub fn find_oldest_underived(&self, underived: &Vec<Vec<(ChangesetId, i64)>>) -> (r: Option<(ChangesetId, i64)>)
        ensures
            oldest_of(underived@, r),
    {
        let mut best: Option<(ChangesetId, i64)> = None;
        let ghost mut at: int = 0;
        let mut i: usize = 0;
        while i < underived.len()
            invariant
                i <= underived@.len(),
                oldest_of(underived@.take(i as int), best),
                match best {
                    Some(b) => 0 <= at < i && underived@[at]@.len() > 0 && underived@[at]@[0] == b,
                    None => true,
                },
            decreases underived@.len() - i,
        {
            let ghost pre = underived@.take(i as int);
            let ghost post = underived@.take(i as int + 1);
            assert(post =~= pre.push(underived@[i as int]));
            if underived[i].len() > 0 {
                let cand = underived[i][0];
                let better = match best {
                    None => true,
                    Some(b) => cand.1 < b.1,
                };
                if better {
                    proof {
                        at = i as int;
                    }
                    best = Some(cand);
                    proof {
                        assert(post[i as int]@[0] == cand);
                        assert forall|j: int| 0 <= j < post.len() && (#[trigger] post[j])@.len() > 0 implies cand.1 <= post[j]@[0].1 by {
                            if j < i {
                                assert(post[j] == pre[j]);
                            }
                        };
                        assert forall|j: int| 0 <= j < i && (#[trigger] post[j])@.len() > 0 implies cand.1 < post[j]@[0].1 by {
                            assert(post[j] == pre[j]);
                        };
                    }
                } else {
                    proof {
                        let b = best->Some_0;
                        let k = choose|k: int|
                            0 <= k < pre.len() && (#[trigger] pre[k])@.len() > 0 && pre[k]@[0] == b && (forall|j: int|
                                0 <= j < pre.len() && (#[trigger] pre[j])@.len() > 0 ==> b.1 <= pre[j]@[0].1) && (forall|j: int|
                                0 <= j < k && (#[trigger] pre[j])@.len() > 0 ==> b.1 < pre[j]@[0].1);
                        assert(post[k] == pre[k]);
                        assert forall|j: int| 0 <= j < post.len() && (#[trigger] post[j])@.len() > 0 implies b.1 <= post[j]@[0].1 by {
                            if j < i {
                                assert(post[j] == pre[j]);
                            }
                        };
                        assert forall|j: int| 0 <= j < k && (#[trigger] post[j])@.len() > 0 implies b.1 < post[j]@[0].1 by {
                            assert(post[j] == pre[j]);
                        };
                    }
                }
            } else {
                proof {
                    match best {
                        None => {
                            assert forall|j: int| 0 <= j < post.len() implies (#[trigger] post[j])@.len() == 0 by {
                                if j < i {
                                    assert(post[j] == pre[j]);
                                }
                            };
                        },
                        Some(b) => {
                            let k = choose|k: int|
                                0 <= k < pre.len() && (#[trigger] pre[k])@.len() > 0 && pre[k]@[0] == b && (forall|j: int|
                                    0 <= j < pre.len() && (#[trigger] pre[j])@.len() > 0 ==> b.1 <= pre[j]@[0].1) && (forall|j: int|
                                    0 <= j < k && (#[trigger] pre[j])@.len() > 0 ==> b.1 < pre[j]@[0].1);
                            assert(post[k] == pre[k]);
                            assert forall|j: int| 0 <= j < post.len() && (#[trigger] post[j])@.len() > 0 implies b.1 <= post[j]@[0].1 by {
                                if j < i {
                                    assert(post[j] == pre[j]);
                                }
                            };
                            assert forall|j: int| 0 <= j < k && (#[trigger] post[j])@.len() > 0 implies b.1 < post[j]@[0].1 by {
                                assert(post[j] == pre[j]);
                            };
                        },
                    }
                }
            }
            i = i + 1;
        }
        assert(underived@.take(underived@.len() as int) =~= underived@);
        best
    }
}

fn derived_data_utils_impl(name: &str, mode: DeriveMode) -> (r: Result<DerivedUtils, DerivedError>)
    ensures
        match r {
            Ok(u) => parse_kind(name@) == Some(u.kind) && u.mode == mode && u.wf() && forall|c: ChangesetId|
                #[trigger] u.derived_value(c) is None,
            Err(e) => parse_kind(name@) is None && e is UnsupportedType && e->UnsupportedType_name@ == name@,
        },
{
    match DerivedDataType::from_name(name) {
        Some(kind) => Ok(DerivedUtils::new(kind, mode)),
        None => Err(DerivedError::UnsupportedType { name: name.to_owned() }),
    }
}

/// The operations on the named derivation type, deriving only what the
/// repository enables.
pub fn derived_data_utils(name: &str) -> (r: Result<DerivedUtils, DerivedError>)
    ensures
        match r {
            Ok(u) => parse_kind(name@) == Some(u.kind) && u.mode == DeriveMode::OnlyIfEnabled && u.wf()
                && forall|c: ChangesetId| #[trigger] u.derived_value(c) is None,
            Err(e) => parse_kind(name@) is None && e is UnsupportedType && e->UnsupportedType_name@ == name@,
        },
{
    derived_data_utils_impl(name, DeriveMode::OnlyIfEnabled)
}

/// The operations on the named derivation type, in unsafe mode.
pub fn derived_data_utils_unsafe(name: &str) -> (r: Result<DerivedUtils, DerivedError>)
    ensures
        match r {
            Ok(u) => parse_kind(name@) == Some(u.kind) && u.mode == DeriveMode::Unsafe && u.wf() && forall|
                c: ChangesetId,
            | #[trigger] u.derived_value(c) is None,
            Err(e) => parse_kind(name@) is None && e is UnsupportedType && e->UnsupportedType_name@ == name@,
        },
{
    derived_data_utils_impl(name, DeriveMode::Unsafe)
}

pub open spec fn names_view(names: Seq<String>) -> Seq<Seq<char>> {
    names.map_values(|s: String| s@)
}

pub open spec fn all_known(names: Seq<Seq<char>>) -> bool {
    forall|i: int| 0 <= i < names.len() ==> (#[trigger] parse_kind(names[i])) is Some
}

/// The derivations to run, in order: for each named type, each changeset.
pub open spec fn derivation_plan(names: Seq<Seq<char>>, csids: Seq<ChangesetId>) -> Seq<(DerivedDataType, ChangesetId)>
    decreases names.len(),
{
    if names.len() == 0 {
        Seq::empty()
    } else {
        derivation_plan(names.drop_last(), csids) + csids.map_values(
            |c: ChangesetId| (parse_kind(names.last())->Some_0, c),
        )
    }
}

/// The derivations that deriving `csids` for every type of `names` runs,
/// type by type and, within a type, changeset by changeset; fails before
/// any derivation if a name is not a derivation type.
pub fn derive_data_for_csids(csids: &Vec<ChangesetId>, names: &Vec<String>) -> (r: Result<
    Vec<(DerivedDataType, ChangesetId)>,
    DerivedError,
>)
    ensures
        match r {
            Ok(plan) => all_known(names_view(names@)) && plan@ == derivation_plan(names_view(names@), csids@),
            Err(e) => e is UnsupportedType && exists|i: int|
                0 <= i < names@.len() && all_known(names_view(names@).take(i)) && parse_kind(#[trigger] names@[i]@) is None
                    && e->UnsupportedType_name@ == names@[i]@,
        },
{
    let ghost nv = names_view(names@);
    let mut plan: Vec<(DerivedDataType, ChangesetId)> = Vec::new();
    let mut i: usize = 0;
    assert(nv.take(0) =~= Seq::<Seq<char>>::empty());
    while i < names.len()
        invariant
            i <= names@.len(),
            nv == names_view(names@),
            all_known(nv.take(i as int)),
            plan@ == derivation_plan(nv.take(i as int), csids@),
        decreases names@.len() - i,
    {
        let kind = match DerivedDataType::from_name(names[i].as_str()) {
            Some(k) => k,
            None => {
                assert(parse_kind(nv[i as int]) is None);
                assert(nv[i as int] == names@[i as int]@);
                return Err(DerivedError::UnsupportedType { name: names[i].clone() });
            },
        };
        let ghost t = nv.take(i as int + 1);
        assert(t.drop_last() =~= nv.take(i as int));
        assert(t.last() == names@[i as int]@);
        let ghost p0 = plan@;
        let mut j: usize = 0;
        while j < csids.len()
            invariant
                j <= csids@.len(),
                plan@ == p0 + csids@.take(j as int).map_values(|c: ChangesetId| (kind, c)),
            decreases csids@.len() - j,
        {
            plan.push((kind, csids[j]));
            j = j + 1;
            assert(plan@ =~= p0 + csids@.take(j as int).map_values(|c: ChangesetId| (kind, c)));
        }
        assert(csids@.take(csids@.len() as int) =~= csids@);
        assert(plan@ =~= derivation_plan(t, csids@));
        proof {
            assert forall|k: int| 0 <= k < t.len() implies (#[trigger] parse_kind(t[k])) is Some by {
                if k < i {
                    assert(t[k] == nv.take(i as int)[k]);
                }
            };
        }
        i = i + 1;
    }
    assert(nv.take(names@.len() as int) =~= nv);
    Ok(plan)
}

} // verus!
