//! Per-repository bookmarks with transactional, conditional updates and an
//! append-only update log whose ids run 1, 2, 3, ... within each repository.
use crate::commits::{bytes_lt, lemma_lex_irreflexive, lemma_lex_total, lemma_lex_transitive, lex_lt};
use crate::types::{ChangesetId, RepositoryId};
use vstd::prelude::*;
use vstd::string::StringSliceAdditionalSpecFns;

verus! {

/// A bookmark name: the non-empty UTF-8 bytes of a string holding none of
/// the characters that names may not contain (`:`, NUL, line feed and
/// carriage return).
pub struct BookmarkName {
    pub bytes: Vec<u8>,
}

impl View for BookmarkName {
    type V = Seq<u8>;

    open spec fn view(&self) -> Seq<u8> {
        self.bytes@
    }
}

pub open spec fn forbidden_byte(c: u8) -> bool {
    c == 58 || c == 0 || c == 10 || c == 13
}

pub open spec fn valid_name(b: Seq<u8>) -> bool {
    b.len() > 0 && forall|i: int| 0 <= i < b.len() ==> !forbidden_byte(#[trigger] b[i])
}

#[derive(PartialEq, Eq, Structural, Clone, Copy, Debug)]
pub enum BookmarkError {
    /// The name is empty or holds a forbidden character.
    InvalidName,
    /// The transaction already holds an operation on this name.
    AlreadyStaged,
}

fn copy_bytes(b: &[u8]) -> (r: Vec<u8>)
    ensures
        r@ == b@,
{
    let mut v: Vec<u8> = Vec::new();
    let mut i: usize = 0;
    while i < b.len()
        invariant
            i <= b@.len(),
            v@ == b@.subrange(0, i as int),
        decreases b@.len() - i,
    {
        v.push(b[i]);
        i = i + 1;
        assert(v@ =~= b@.subrange(0, i as int));
    }
    assert(v@ =~= b@);
    v
}

fn bytes_equal(a: &[u8], b: &[u8]) -> (r: bool)
    ensures
        r == (a@ == b@),
{
    if a.len() != b.len() {
        return false;
    }
    let mut i: usize = 0;
    while i < a.len()
        invariant
            i <= a@.len(),
            a@.len() == b@.len(),
            forall|j: int| 0 <= j < i ==> a@[j] == b@[j],
        decreases a@.len() - i,
    {
        if a[i] != b[i] {
            return false;
        }
        i = i + 1;
    }
    assert(a@ =~= b@);
    true
}

impl BookmarkName {
    /// Accepts a non-empty name without forbidden characters.
    pub fn new(name: &str) -> (r: Result<BookmarkName, BookmarkError>)
        ensures
            match r {
                Ok(n) => valid_name(name.spec_bytes()) && n@ == name.spec_bytes(),
                Err(e) => !valid_name(name.spec_bytes()) && e == BookmarkError::InvalidName,
            },
    {
        let b = name.as_bytes();
        if b.len() == 0 {
            return Err(BookmarkError::InvalidName);
        }
        let mut i: usize = 0;
        while i < b.len()
            invariant
                i <= b@.len(),
                b@ == name.spec_bytes(),
                forall|j: int| 0 <= j < i ==> !forbidden_byte(#[trigger] b@[j]),
            decreases b@.len() - i,
        {
            let c = b[i];
            if c == 58 || c == 0 || c == 10 || c == 13 {
                assert(forbidden_byte(b@[i as int]));
                return Err(BookmarkError::InvalidName);
            }
            i = i + 1;
        }
        Ok(BookmarkName { bytes: copy_bytes(b) })
    }

    pub fn as_bytes(&self) -> (r: &[u8])
        ensures
            r@ == self@,
    {
        self.bytes.as_slice()
    }

    pub fn duplicate(&self) -> (r: BookmarkName)
        ensures
            r@ == self@,
    {
        BookmarkName { bytes: copy_bytes(self.bytes.as_slice()) }
    }

    pub fn same_as(&self, o: &BookmarkName) -> (r: bool)
        ensures
            r == (self@ == o@),
    {
        bytes_equal(self.bytes.as_slice(), o.bytes.as_slice())
    }
}

#[derive(PartialEq, Eq, Structural, Clone, Copy, Debug)]
pub enum BookmarkKind {
    /// Infinitepush bookmarks: moves are not logged.
    Scratch,
    Publishing,
    PullDefaultPublishing,
}

impl BookmarkKind {
    pub open spec fn is_public(self) -> bool {
        self != BookmarkKind::Scratch
    }

    /// Every kind.
    pub fn all() -> (r: Vec<BookmarkKind>)
        ensures
            r@ == seq![
                BookmarkKind::Scratch,
                BookmarkKind::Publishing,
                BookmarkKind::PullDefaultPublishing,
            ],
    {
        let mut v: Vec<BookmarkKind> = Vec::new();
        v.push(BookmarkKind::Scratch);
        v.push(BookmarkKind::Publishing);
        v.push(BookmarkKind::PullDefaultPublishing);
        assert(v@ =~= seq![
            BookmarkKind::Scratch,
            BookmarkKind::Publishing,
            BookmarkKind::PullDefaultPublishing,
        ]);
        v
    }
}

#[derive(PartialEq, Eq, Structural, Clone, Copy, Debug)]
pub enum BookmarkUpdateReason {
    Backsyncer,
    Blobimport,
    ManualMove,
    Push,
    Pushrebase,
    TestMove,
    XRepoSync,
}

/// The short tag under which a reason is interchanged.
pub open spec fn reason_tag(r: BookmarkUpdateReason) -> Seq<char> {
    match r {
        BookmarkUpdateReason::Backsyncer => "backsyncer"@,
        BookmarkUpdateReason::Blobimport => "blobimport"@,
        BookmarkUpdateReason::ManualMove => "manualmove"@,
        BookmarkUpdateReason::Push => "push"@,
        BookmarkUpdateReason::Pushrebase => "pushrebase"@,
        BookmarkUpdateReason::TestMove => "testmove"@,
        BookmarkUpdateReason::XRepoSync => "xreposync"@,
    }
}

fn tag_is(tag: &String, lit: &str) -> (r: bool)
    ensures
        r == (tag@ == lit@),
{
    let owned = lit.to_owned();
    *tag == owned
}

impl BookmarkUpdateReason {
    pub fn as_tag(&self) -> (r: String)
        ensures
            r@ == reason_tag(*self),
    {
        match self {
            BookmarkUpdateReason::Backsyncer => "backsyncer".to_owned(),
            BookmarkUpdateReason::Blobimport => "blobimport".to_owned(),
            BookmarkUpdateReason::ManualMove => "manualmove".to_owned(),
            BookmarkUpdateReason::Push => "push".to_owned(),
            BookmarkUpdateReason::Pushrebase => "pushrebase".to_owned(),
            BookmarkUpdateReason::TestMove => "testmove".to_owned(),
            BookmarkUpdateReason::XRepoSync => "xreposync".to_owned(),
        }
    }

    /// The reason with the given tag, if any.
    pub fn from_tag(tag: &String) -> (r: Option<BookmarkUpdateReason>)
        ensures
            match r {
                Some(x) => reason_tag(x) == tag@,
                None => forall|x: BookmarkUpdateReason| reason_tag(x) != tag@,
            },
    {
        if tag_is(tag, "backsyncer") {
            Some(BookmarkUpdateReason::Backsyncer)
        } else if tag_is(tag, "blobimport") {
            Some(BookmarkUpdateReason::Blobimport)
        } else if tag_is(tag, "manualmove") {
            Some(BookmarkUpdateReason::ManualMove)
        } else if tag_is(tag, "push") {
            Some(BookmarkUpdateReason::Push)
        } else if tag_is(tag, "pushrebase") {
            Some(BookmarkUpdateReason::Pushrebase)
        } else if tag_is(tag, "testmove") {
            Some(BookmarkUpdateReason::TestMove)
        } else if tag_is(tag, "xreposync") {
            Some(BookmarkUpdateReason::XRepoSync)
        } else {
            None
        }
    }
}

/// Decoding the tag of a reason gives the reason back.
pub proof fn law_reason_tag_round_trip(r: BookmarkUpdateReason, q: BookmarkUpdateReason)
    ensures
        reason_tag(r) == reason_tag(q) ==> r == q,
{
    reveal_strlit("backsyncer");
    reveal_strlit("blobimport");
    reveal_strlit("manualmove");
    reveal_strlit("push");
    reveal_strlit("pushrebase");
    reveal_strlit("testmove");
    reveal_strlit("xreposync");
    if reason_tag(r) == reason_tag(q) && r != q {
        let a = reason_tag(r);
        let b = reason_tag(q);
        assert(a.len() == b.len());
        assert(a[0] == b[0]);
        assert(a[1] == b[1]);
        assert(a[4] == b[4]);
    }
}

/// Data that lets a push be replayed elsewhere.
pub struct RawBundleReplayData {
    pub bundle_handle: String,
    pub commit_timestamps_json: String,
}

impl View for RawBundleReplayData {
    type V = (Seq<char>, Seq<char>);

    open spec fn view(&self) -> (Seq<char>, Seq<char>) {
        (self.bundle_handle@, self.commit_timestamps_json@)
    }
}

pub open spec fn replay_view(r: Option<RawBundleReplayData>) -> Option<(Seq<char>, Seq<char>)> {
    match r {
        Some(d) => Some(d@),
        None => None,
    }
}

impl RawBundleReplayData {
    pub fn duplicate(&self) -> (r: RawBundleReplayData)
        ensures
            r@ == self@,
    {
        RawBundleReplayData {
            bundle_handle: self.bundle_handle.clone(),
            commit_timestamps_json: self.commit_timestamps_json.clone(),
        }
    }
}

fn copy_replay(r: &Option<RawBundleReplayData>) -> (c: Option<RawBundleReplayData>)
    ensures
        replay_view(c) == replay_view(*r),
{
    match r {
        Some(d) => Some(d.duplicate()),
        None => None,
    }
}

/// What a log entry records.
pub struct LogRecord {
    pub id: u64,
    pub repo_id: RepositoryId,
    pub name: Seq<u8>,
    pub from: Option<ChangesetId>,
    pub to: Option<ChangesetId>,
    pub reason: BookmarkUpdateReason,
    pub timestamp: i64,
    pub replay: Option<(Seq<char>, Seq<char>)>,
}

pub struct BookmarkUpdateLogEntry {
    pub id: u64,
    pub repo_id: RepositoryId,
    pub bookmark_name: BookmarkName,
    pub to_changeset_id: Option<ChangesetId>,
    pub from_changeset_id: Option<ChangesetId>,
    pub reason: BookmarkUpdateReason,
    pub timestamp: i64,
    pub bundle_replay_data: Option<RawBundleReplayData>,
}

impl View for BookmarkUpdateLogEntry {
    type V = LogRecord;

    open spec fn view(&self) -> LogRecord {
        LogRecord {
            id: self.id,
            repo_id: self.repo_id,
            name: self.bookmark_name@,
            from: self.from_changeset_id,
            to: self.to_changeset_id,
            reason: self.reason,
            timestamp: self.timestamp,
            replay: replay_view(self.bundle_replay_data),
        }
    }
}

impl BookmarkUpdateLogEntry {
    pub fn duplicate(&self) -> (r: BookmarkUpdateLogEntry)
        ensures
            r@ == self@,
    {
        BookmarkUpdateLogEntry {
            id: self.id,
            repo_id: self.repo_id,
            bookmark_name: self.bookmark_name.duplicate(),
            to_changeset_id: self.to_changeset_id,
            from_changeset_id: self.from_changeset_id,
            reason: self.reason,
            timestamp: self.timestamp,
            bundle_replay_data: copy_replay(&self.bundle_replay_data),
        }
    }
}

pub open spec fn log_view(s: Seq<BookmarkUpdateLogEntry>) -> Seq<LogRecord> {
    s.map_values(|e: BookmarkUpdateLogEntry| e@)
}

/// A stored bookmark.
pub struct BookmarkEntry {
    pub name: BookmarkName,
    pub kind: BookmarkKind,
    pub cs_id: ChangesetId,
}

impl View for BookmarkEntry {
    type V = (Seq<u8>, BookmarkKind, ChangesetId);

    open spec fn view(&self) -> (Seq<u8>, BookmarkKind, ChangesetId) {
        (self.name@, self.kind, self.cs_id)
    }
}

pub open spec fn entries_view(s: Seq<BookmarkEntry>) -> Seq<(Seq<u8>, BookmarkKind, ChangesetId)> {
    s.map_values(|e: BookmarkEntry| e@)
}

pub open spec fn unique_names(s: Seq<(Seq<u8>, BookmarkKind, ChangesetId)>) -> bool {
    forall|i: int, j: int| 0 <= i < s.len() && 0 <= j < s.len() && i != j ==> s[i].0 != s[j].0
}

/// The kind and target of the bookmark named `n`, if there is one.
pub open spec fn lookup(s: Seq<(Seq<u8>, BookmarkKind, ChangesetId)>, n: Seq<u8>) -> Option<
    (BookmarkKind, ChangesetId),
> {
    if exists|i: int| 0 <= i < s.len() && s[i].0 == n {
        let i = choose|i: int| 0 <= i < s.len() && s[i].0 == n;
        Some((s[i].1, s[i].2))
    } else {
        None
    }
}

proof fn lemma_lookup_at(s: Seq<(Seq<u8>, BookmarkKind, ChangesetId)>, i: int)
    requires
        unique_names(s),
        0 <= i < s.len(),
    ensures
        lookup(s, s[i].0) == Some((s[i].1, s[i].2)),
{
    let j = choose|j: int| 0 <= j < s.len() && s[j].0 == s[i].0;
    assert(j == i);
}

/// Two tables that hold the same entries, but for those named `m`, agree on
/// every other name.
proof fn lemma_lookup_frame(
    a: Seq<(Seq<u8>, BookmarkKind, ChangesetId)>,
    b: Seq<(Seq<u8>, BookmarkKind, ChangesetId)>,
    m: Seq<u8>,
)
    requires
        unique_names(a),
        unique_names(b),
        forall|x: (Seq<u8>, BookmarkKind, ChangesetId)|
            x.0 != m ==> (#[trigger] a.contains(x) <==> b.contains(x)),
    ensures
        forall|n: Seq<u8>| n != m ==> #[trigger] lookup(b, n) == lookup(a, n),
{
    assert forall|n: Seq<u8>| n != m implies #[trigger] lookup(b, n) == lookup(a, n) by {
        if exists|i: int| 0 <= i < a.len() && a[i].0 == n {
            let i = choose|i: int| 0 <= i < a.len() && a[i].0 == n;
            lemma_lookup_at(a, i);
            assert(a.contains(a[i]));
            let k = choose|k: int| 0 <= k < b.len() && b[k] == a[i];
            lemma_lookup_at(b, k);
        } else if exists|k: int| 0 <= k < b.len() && b[k].0 == n {
            let k = choose|k: int| 0 <= k < b.len() && b[k].0 == n;
            assert(b.contains(b[k]));
            assert(a.contains(b[k]));
            let i = choose|i: int| 0 <= i < a.len() && a[i] == b[k];
            assert(a[i].0 == n);
        }
    };
}

/// One staged change to one bookmark.
#[derive(Clone, Copy)]
pub enum BookmarkOp {
    Create { to: ChangesetId },
    Update { to: ChangesetId, from: ChangesetId },
    ForceSet { to: ChangesetId },
    Delete { from: ChangesetId },
    ForceDelete,
    CreateScratch { to: ChangesetId },
    UpdateScratch { to: ChangesetId, from: ChangesetId },
}

/// Whether `op` may apply to a bookmark whose current state is `cur`.
pub open spec fn precondition(cur: Option<(BookmarkKind, ChangesetId)>, op: BookmarkOp) -> bool {
    match op {
        BookmarkOp::Create { .. } => cur is None,
        BookmarkOp::CreateScratch { .. } => cur is None,
        BookmarkOp::Update { from, .. } => match cur {
            Some((k, c)) => k.is_public() && c == from,
            None => false,
        },
        BookmarkOp::UpdateScratch { from, .. } => match cur {
            Some((k, c)) => k == BookmarkKind::Scratch && c == from,
            None => false,
        },
        BookmarkOp::Delete { from } => match cur {
            Some((_, c)) => c == from,
            None => false,
        },
        BookmarkOp::ForceSet { .. } => true,
        BookmarkOp::ForceDelete => true,
    }
}

/// The state of the bookmark after `op` applied to `cur`.
pub open spec fn outcome(cur: Option<(BookmarkKind, ChangesetId)>, op: BookmarkOp) -> Option<
    (BookmarkKind, ChangesetId),
> {
    match op {
        BookmarkOp::Create { to } => Some((BookmarkKind::PullDefaultPublishing, to)),
        BookmarkOp::ForceSet { to } => Some((BookmarkKind::PullDefaultPublishing, to)),
        BookmarkOp::Update { to, .. } => match cur {
            Some((k, _)) => Some((k, to)),
            None => Some((BookmarkKind::PullDefaultPublishing, to)),
        },
        BookmarkOp::CreateScratch { to } => Some((BookmarkKind::Scratch, to)),
        BookmarkOp::UpdateScratch { to, .. } => Some((BookmarkKind::Scratch, to)),
        BookmarkOp::Delete { .. } => None,
        BookmarkOp::ForceDelete => None,
    }
}

/// Scratch moves leave no trace in the log.
pub open spec fn is_logged(op: BookmarkOp) -> bool {
    match op {
        BookmarkOp::CreateScratch { .. } => false,
        BookmarkOp::UpdateScratch { .. } => false,
        _ => true,
    }
}

pub open spec fn op_from(op: BookmarkOp) -> Option<ChangesetId> {
    match op {
        BookmarkOp::Update { from, .. } => Some(from),
        BookmarkOp::Delete { from } => Some(from),
        BookmarkOp::UpdateScratch { from, .. } => Some(from),
        _ => None,
    }
}

pub open spec fn op_to(op: BookmarkOp) -> Option<ChangesetId> {
    match op {
        BookmarkOp::Create { to } => Some(to),
        BookmarkOp::Update { to, .. } => Some(to),
        BookmarkOp::ForceSet { to } => Some(to),
        BookmarkOp::CreateScratch { to } => Some(to),
        BookmarkOp::UpdateScratch { to, .. } => Some(to),
        _ => None,
    }
}

/// An operation waiting in a transaction.
pub struct StagedOp {
    pub name: BookmarkName,
    pub op: BookmarkOp,
    pub reason: BookmarkUpdateReason,
    pub replay: Option<RawBundleReplayData>,
}

pub struct StagedRecord {
    pub name: Seq<u8>,
    pub op: BookmarkOp,
    pub reason: BookmarkUpdateReason,
    pub replay: Option<(Seq<char>, Seq<char>)>,
}

impl View for StagedOp {
    type V = StagedRecord;

    open spec fn view(&self) -> StagedRecord {
        StagedRecord {
            name: self.name@,
            op: self.op,
            reason: self.reason,
            replay: replay_view(self.replay),
        }
    }
}

pub open spec fn staged_view(s: Seq<StagedOp>) -> Seq<StagedRecord> {
    s.map_values(|o: StagedOp| o@)
}

/// The log record that a staged operation leaves.
pub open spec fn record_of(s: StagedRecord, id: int, repo: RepositoryId, ts: i64) -> LogRecord {
    LogRecord {
        id: id as u64,
        repo_id: repo,
        name: s.name,
        from: op_from(s.op),
        to: op_to(s.op),
        reason: s.reason,
        timestamp: ts,
        replay: s.replay,
    }
}

/// The records that `ops` leave, numbered from `first_id`.
pub open spec fn logged_records(ops: Seq<StagedRecord>, first_id: int, repo: RepositoryId, ts: i64) -> Seq<
    LogRecord,
>
    decreases ops.len(),
{
    if ops.len() == 0 {
        Seq::empty()
    } else {
        let prev = logged_records(ops.drop_last(), first_id, repo, ts);
        if is_logged(ops.last().op) {
            prev.push(record_of(ops.last(), first_id + prev.len(), repo, ts))
        } else {
            prev
        }
    }
}

pub open spec fn distinct_names(ops: Seq<StagedRecord>) -> bool {
    forall|i: int, j: int| 0 <= i < ops.len() && 0 <= j < ops.len() && i != j ==> ops[i].name != ops[j].name
}

/// The staged operation on `n`, if any.
pub open spec fn staged_on(ops: Seq<StagedRecord>, n: Seq<u8>) -> Option<StagedRecord> {
    if exists|i: int| 0 <= i < ops.len() && ops[i].name == n {
        Some(ops[choose|i: int| 0 <= i < ops.len() && ops[i].name == n])
    } else {
        None
    }
}

proof fn lemma_staged_on_at(ops: Seq<StagedRecord>, i: int)
    requires
        distinct_names(ops),
        0 <= i < ops.len(),
    ensures
        staged_on(ops, ops[i].name) == Some(ops[i]),
{
    let j = choose|j: int| 0 <= j < ops.len() && ops[j].name == ops[i].name;
    assert(j == i);
}

/// A repository's bookmarks and its update log.
pub struct RepoBookmarks {
    pub repo_id: RepositoryId,
    pub entries: Vec<BookmarkEntry>,
    pub log: Vec<BookmarkUpdateLogEntry>,
}

impl RepoBookmarks {
    pub open spec fn wf(self) -> bool {
        &&& unique_names(entries_view(self.entries@))
        &&& forall|i: int|
            0 <= i < self.log@.len() ==> (#[trigger] self.log@[i]).id == i + 1
                && self.log@[i].repo_id == self.repo_id
    }

    pub open spec fn current(self, n: Seq<u8>) -> Option<(BookmarkKind, ChangesetId)> {
        lookup(entries_view(self.entries@), n)
    }

    fn find(&self, name: &BookmarkName) -> (r: Option<usize>)
        requires
            self.wf(),
        ensures
            match r {
                Some(i) => i < self.entries@.len() && self.entries@[i as int].name@ == name@
                    && self.current(name@) == Some(
                    (self.entries@[i as int].kind, self.entries@[i as int].cs_id),
                ),
                None => self.current(name@) is None,
            },
    {
        let ghost v = entries_view(self.entries@);
        let mut i: usize = 0;
        while i < self.entries.len()
            invariant
                i <= self.entries@.len(),
                v == entries_view(self.entries@),
                unique_names(v),
                forall|j: int| 0 <= j < i ==> self.entries@[j].name@ != name@,
            decreases self.entries@.len() - i,
        {
            if self.entries[i].name.same_as(name) {
                proof {
                    assert(v[i as int] == self.entries@[i as int]@);
                    lemma_lookup_at(v, i as int);
                }
                return Some(i);
            }
            i = i + 1;
        }
        proof {
            if exists|j: int| 0 <= j < v.len() && v[j].0 == name@ {
                let j = choose|j: int| 0 <= j < v.len() && v[j].0 == name@;
                assert(v[j] == self.entries@[j]@);
            }
        }
        None
    }

    /// Applies one operation whose precondition holds, logging it unless it
    /// is a scratch move.
    fn apply(&mut self, s: &StagedOp, ts: i64)
        requires
            old(self).wf(),
            old(self).log@.len() + 1 < u64::MAX,
        ensures
            final(self).wf(),
            final(self).repo_id == old(self).repo_id,
            final(self).current(s.name@) == outcome(old(self).current(s.name@), s.op),
            forall|n: Seq<u8>|
                n != s.name@ ==> #[trigger] final(self).current(n) == old(self).current(n),
            is_logged(s.op) ==> log_view(final(self).log@) == log_view(old(self).log@).push(
                record_of(s@, old(self).log@.len() + 1 as int, old(self).repo_id, ts),
            ),
            !is_logged(s.op) ==> final(self).log@ == old(self).log@,
    {
        let ghost before = entries_view(self.entries@);
        let found = self.find(&s.name);
        let ghost m = s.name@;
        let target: Option<(BookmarkKind, ChangesetId)> = match s.op {
            BookmarkOp::Create { to } => Some((BookmarkKind::PullDefaultPublishing, to)),
            BookmarkOp::ForceSet { to } => Some((BookmarkKind::PullDefaultPublishing, to)),
            BookmarkOp::Update { to, .. } => match found {
                Some(i) => Some((self.entries[i].kind, to)),
                None => Some((BookmarkKind::PullDefaultPublishing, to)),
            },
            BookmarkOp::CreateScratch { to } => Some((BookmarkKind::Scratch, to)),
            BookmarkOp::UpdateScratch { to, .. } => Some((BookmarkKind::Scratch, to)),
            BookmarkOp::Delete { .. } => None,
            BookmarkOp::ForceDelete => None,
        };
        assert(target == outcome(old(self).current(m), s.op));
        match (found, target) {
            (Some(i), Some((kind, cs_id))) => {
                let e = BookmarkEntry { name: s.name.duplicate(), kind, cs_id };
                self.entries.set(i, e);
                proof {
                    let after = entries_view(self.entries@);
                    assert(after =~= before.update(i as int, (m, kind, cs_id)));
                    assert(unique_names(after)) by {
                        assert forall|a: int, b: int|
                            0 <= a < after.len() && 0 <= b < after.len() && a != b implies after[a].0
                            != after[b].0 by {
                            assert(before[i as int].0 == m);
                        };
                    };
                    assert forall|x: (Seq<u8>, BookmarkKind, ChangesetId)|
                        x.0 != m implies (#[trigger] before.contains(x) <==> after.contains(x)) by {
                        if before.contains(x) {
                            let k = choose|k: int| 0 <= k < before.len() && before[k] == x;
                            assert(after[k] == x);
                        }
                        if after.contains(x) {
                            let k = choose|k: int| 0 <= k < after.len() && after[k] == x;
                            assert(before[k] == x);
                        }
                    };
                    lemma_lookup_frame(before, after, m);
                    lemma_lookup_at(after, i as int);
                }
            },
            (None, Some((kind, cs_id))) => {
                let e = BookmarkEntry { name: s.name.duplicate(), kind, cs_id };
                self.entries.push(e);
                proof {
                    let after = entries_view(self.entries@);
                    assert(after =~= before.push((m, kind, cs_id)));
                    assert(forall|k: int| 0 <= k < before.len() ==> before[k].0 != m);
                    assert(unique_names(after));
                    assert forall|x: (Seq<u8>, BookmarkKind, ChangesetId)|
                        x.0 != m implies (#[trigger] before.contains(x) <==> after.contains(x)) by {
                        if before.contains(x) {
                            let k = choose|k: int| 0 <= k < before.len() && before[k] == x;
                            assert(after[k] == x);
                        }
                        if after.contains(x) {
                            let k = choose|k: int| 0 <= k < after.len() && after[k] == x;
                            assert(before[k] == x);
                        }
                    };
                    lemma_lookup_frame(before, after, m);
                    lemma_lookup_at(after, before.len() as int);
                }
            },
            (Some(i), None) => {
                assert(before[i as int] == self.entries@[i as int]@);
                self.entries.remove(i);
                proof {
                    let after = entries_view(self.entries@);
                    assert(after =~= before.remove(i as int));
                    assert(unique_names(after)) by {
                        assert forall|a: int, b: int|
                            0 <= a < after.len() && 0 <= b < after.len() && a != b implies after[a].0
                            != after[b].0 by {
                            let a2 = if a < i { a } else { a + 1 };
                            let b2 = if b < i { b } else { b + 1 };
                            assert(after[a] == before[a2]);
                            assert(after[b] == before[b2]);
                        };
                    };
                    assert forall|x: (Seq<u8>, BookmarkKind, ChangesetId)|
                        x.0 != m implies (#[trigger] before.contains(x) <==> after.contains(x)) by {
                        if before.contains(x) {
                            let k = choose|k: int| 0 <= k < before.len() && before[k] == x;
                            assert(k != i);
                            if k < i {
                                assert(after[k] == x);
                            } else {
                                assert(after[k - 1] == x);
                            }
                        }
                        if after.contains(x) {
                            let k = choose|k: int| 0 <= k < after.len() && after[k] == x;
                            if k < i {
                                assert(before[k] == x);
                            } else {
                                assert(before[k + 1] == x);
                            }
                        }
                    };
                    lemma_lookup_frame(before, after, m);
                    if exists|k: int| 0 <= k < after.len() && after[k].0 == m {
                        let k = choose|k: int| 0 <= k < after.len() && after[k].0 == m;
                        if k < i {
                            assert(before[k].0 == m);
                        } else {
                            assert(before[k + 1].0 == m);
                        }
                    }
                    assert(lookup(after, m) is None);
                }
            },
            (None, None) => {},
        }
        match s.op {
            BookmarkOp::CreateScratch { .. } => {},
            BookmarkOp::UpdateScratch { .. } => {},
            _ => {
                let id: u64 = self.log.len() as u64 + 1;
                let entry = BookmarkUpdateLogEntry {
                    id,
                    repo_id: self.repo_id,
                    bookmark_name: s.name.duplicate(),
                    to_changeset_id: match s.op {
                        BookmarkOp::Create { to } => Some(to),
                        BookmarkOp::Update { to, .. } => Some(to),
                        BookmarkOp::ForceSet { to } => Some(to),
                        _ => None,
                    },
                    from_changeset_id: match s.op {
                        BookmarkOp::Update { from, .. } => Some(from),
                        BookmarkOp::Delete { from } => Some(from),
                        _ => None,
                    },
                    reason: s.reason,
                    timestamp: ts,
                    bundle_replay_data: copy_replay(&s.replay),
                };
                let ghost old_log = self.log@;
                self.log.push(entry);
                assert(log_view(self.log@) =~= log_view(old_log).push(entry@));
            },
        }
    }
}

pub open spec fn replay_ref_view(r: Option<&RawBundleReplayData>) -> Option<(Seq<char>, Seq<char>)> {
    match r {
        Some(d) => Some(d@),
        None => None,
    }
}

pub open spec fn names_staged(ops: Seq<StagedRecord>, n: Seq<u8>) -> bool {
    exists|i: int| 0 <= i < ops.len() && ops[i].name == n
}

/// What staging `rec` does to a transaction: it is added, unless the
/// transaction already holds an operation on the same name.
pub open spec fn staging(
    before: Seq<StagedRecord>,
    after: Seq<StagedRecord>,
    r: Result<(), BookmarkError>,
    rec: StagedRecord,
) -> bool {
    match r {
        Ok(()) => !names_staged(before, rec.name) && after == before.push(rec),
        Err(e) => e == BookmarkError::AlreadyStaged && names_staged(before, rec.name) && after
            == before,
    }
}

/// A set of operations, at most one per bookmark name, applied atomically
/// by `commit`.
pub struct BookmarkTransaction {
    pub repo_id: RepositoryId,
    pub ops: Vec<StagedOp>,
}

impl BookmarkTransaction {
    pub open spec fn staged(self) -> Seq<StagedRecord> {
        staged_view(self.ops@)
    }

    pub open spec fn wf(self) -> bool {
        distinct_names(self.staged())
    }

    pub fn new(repo_id: RepositoryId) -> (r: BookmarkTransaction)
        ensures
            r.repo_id == repo_id,
            r.staged() == Seq::<StagedRecord>::empty(),
            r.wf(),
    {
        let t = BookmarkTransaction { repo_id, ops: Vec::new() };
        assert(t.staged() =~= Seq::<StagedRecord>::empty());
        t
    }

    fn stage(
        &mut self,
        name: &BookmarkName,
        op: BookmarkOp,
        reason: BookmarkUpdateReason,
        replay: Option<&RawBundleReplayData>,
    ) -> (r: Result<(), BookmarkError>)
        requires
            old(self).wf(),
        ensures
            final(self).wf(),
            final(self).repo_id == old(self).repo_id,
            staging(
                old(self).staged(),
                final(self).staged(),
                r,
                StagedRecord { name: name@, op, reason, replay: replay_ref_view(replay) },
            ),
    {
        let ghost before = self.staged();
        let mut i: usize = 0;
        while i < self.ops.len()
            invariant
                i <= self.ops@.len(),
                before == self.staged(),
                self.wf(),
                forall|j: int| 0 <= j < i ==> self.ops@[j].name@ != name@,
            decreases self.ops@.len() - i,
        {
            if self.ops[i].name.same_as(name) {
                assert(before[i as int].name == name@);
                return Err(BookmarkError::AlreadyStaged);
            }
            i = i + 1;
        }
        assert(!names_staged(before, name@)) by {
            if names_staged(before, name@) {
                let j = choose|j: int| 0 <= j < before.len() && before[j].name == name@;
                assert(before[j] == self.ops@[j]@);
            }
        };
        let replay = match replay {
            Some(d) => Some(d.duplicate()),
            None => None,
        };
        let s = StagedOp { name: name.duplicate(), op, reason, replay };
        let ghost old_ops = self.ops@;
        self.ops.push(s);
        assert(self.staged() =~= before.push(s@));
        proof {
            let after = self.staged();
            assert forall|a: int, b: int|
                0 <= a < after.len() && 0 <= b < after.len() && a != b implies after[a].name
                != after[b].name by {
                if a < before.len() && b < before.len() {
                } else if a < before.len() {
                    assert(before[a] == after[a]);
                } else {
                    assert(before[b] == after[b]);
                }
            };
        }
        Ok(())
    }

    /// Creates `name`, which must not exist yet.
    pub fn create(
        &mut self,
        name: &BookmarkName,
        to: ChangesetId,
        reason: BookmarkUpdateReason,
        replay: Option<&RawBundleReplayData>,
    ) -> (r: Result<(), BookmarkError>)
        requires
            old(self).wf(),
        ensures
            final(self).wf(),
            final(self).repo_id == old(self).repo_id,
            staging(
                old(self).staged(),
                final(self).staged(),
                r,
                StagedRecord {
                    name: name@,
                    op: BookmarkOp::Create { to },
                    reason,
                    replay: replay_ref_view(replay),
                },
            ),
    {
        self.stage(name, BookmarkOp::Create { to }, reason, replay)
    }

    /// Moves `name` from `from` to `to`; it must currently be a public
    /// bookmark at `from`.
    pub fn update(
        &mut self,
        name: &BookmarkName,
        to: ChangesetId,
        from: ChangesetId,
        reason: BookmarkUpdateReason,
        replay: Option<&RawBundleReplayData>,
    ) -> (r: Result<(), BookmarkError>)
        requires
            old(self).wf(),
        ensures
            final(self).wf(),
            final(self).repo_id == old(self).repo_id,
            staging(
                old(self).staged(),
                final(self).staged(),
                r,
                StagedRecord {
                    name: name@,
                    op: BookmarkOp::Update { to, from },
                    reason,
                    replay: replay_ref_view(replay),
                },
            ),
    {
        self.stage(name, BookmarkOp::Update { to, from }, reason, replay)
    }

    /// Points `name` at `to` whatever its current state.
    pub fn force_set(
        &mut self,
        name: &BookmarkName,
        to: ChangesetId,
        reason: BookmarkUpdateReason,
        replay: Option<&RawBundleReplayData>,
    ) -> (r: Result<(), BookmarkError>)
        requires
            old(self).wf(),
        ensures
            final(self).wf(),
            final(self).repo_id == old(self).repo_id,
            staging(
                old(self).staged(),
                final(self).staged(),
                r,
                StagedRecord {
                    name: name@,
                    op: BookmarkOp::ForceSet { to },
                    reason,
                    replay: replay_ref_view(replay),
                },
            ),
    {
        self.stage(name, BookmarkOp::ForceSet { to }, reason, replay)
    }

    /// Deletes `name`, which must currently point at `from`.
    pub fn delete(
        &mut self,
        name: &BookmarkName,
        from: ChangesetId,
        reason: BookmarkUpdateReason,
        replay: Option<&RawBundleReplayData>,
    ) -> (r: Result<(), BookmarkError>)
        requires
            old(self).wf(),
        ensures
            final(self).wf(),
            final(self).repo_id == old(self).repo_id,
            staging(
                old(self).staged(),
                final(self).staged(),
                r,
                StagedRecord {
                    name: name@,
                    op: BookmarkOp::Delete { from },
                    reason,
                    replay: replay_ref_view(replay),
                },
            ),
    {
        self.stage(name, BookmarkOp::Delete { from }, reason, replay)
    }

    /// Deletes `name` whatever its current state (logged even when unset).
    pub fn force_delete(
        &mut self,
        name: &BookmarkName,
        reason: BookmarkUpdateReason,
        replay: Option<&RawBundleReplayData>,
    ) -> (r: Result<(), BookmarkError>)
        requires
            old(self).wf(),
        ensures
            final(self).wf(),
            final(self).repo_id == old(self).repo_id,
            staging(
                old(self).staged(),
                final(self).staged(),
                r,
                StagedRecord {
                    name: name@,
                    op: BookmarkOp::ForceDelete,
                    reason,
                    replay: replay_ref_view(replay),
                },
            ),
    {
        self.stage(name, BookmarkOp::ForceDelete, reason, replay)
    }

    /// Creates the scratch bookmark `name`; not logged.
    pub fn create_scratch(&mut self, name: &BookmarkName, to: ChangesetId) -> (r: Result<
        (),
        BookmarkError,
    >)
        requires
            old(self).wf(),
        ensures
            final(self).wf(),
            final(self).repo_id == old(self).repo_id,
            staging(
                old(self).staged(),
                final(self).staged(),
                r,
                StagedRecord {
                    name: name@,
                    op: BookmarkOp::CreateScratch { to },
                    reason: BookmarkUpdateReason::Push,
                    replay: None,
                },
            ),
    {
        self.stage(name, BookmarkOp::CreateScratch { to }, BookmarkUpdateReason::Push, None)
    }

    /// Moves the scratch bookmark `name` from `from` to `to`; not logged.
    pub fn update_scratch(&mut self, name: &BookmarkName, to: ChangesetId, from: ChangesetId) -> (r:
        Result<(), BookmarkError>)
        requires
            old(self).wf(),
        ensures
            final(self).wf(),
            final(self).repo_id == old(self).repo_id,
            staging(
                old(self).staged(),
                final(self).staged(),
                r,
                StagedRecord {
                    name: name@,
                    op: BookmarkOp::UpdateScratch { to, from },
                    reason: BookmarkUpdateReason::Push,
                    replay: None,
                },
            ),
    {
        self.stage(name, BookmarkOp::UpdateScratch { to, from }, BookmarkUpdateReason::Push, None)
    }
}

/// The state of each bookmark after a committed transaction: the staged
/// operation's outcome where one names it, the old state elsewhere.
pub open spec fn state_after(
    before: Option<(BookmarkKind, ChangesetId)>,
    ops: Seq<StagedRecord>,
    n: Seq<u8>,
) -> Option<(BookmarkKind, ChangesetId)> {
    match staged_on(ops, n) {
        Some(s) => outcome(before, s.op),
        None => before,
    }
}

/// Bookmarks of many repositories, each with its update log.
pub struct Bookmarks {
    pub repos: Vec<RepoBookmarks>,
}

impl Bookmarks {
    pub open spec fn wf(self) -> bool {
        &&& forall|i: int, j: int|
            0 <= i < self.repos@.len() && 0 <= j < self.repos@.len() && i != j
                ==> self.repos@[i].repo_id != self.repos@[j].repo_id
        &&& forall|i: int| 0 <= i < self.repos@.len() ==> (#[trigger] self.repos@[i]).wf()
    }

    pub open spec fn slot_of(self, repo: RepositoryId) -> Option<int> {
        if exists|i: int| 0 <= i < self.repos@.len() && self.repos@[i].repo_id == repo {
            Some(choose|i: int| 0 <= i < self.repos@.len() && self.repos@[i].repo_id == repo)
        } else {
            None
        }
    }

    /// The kind and target of a bookmark.
    pub open spec fn current(self, repo: RepositoryId, n: Seq<u8>) -> Option<
        (BookmarkKind, ChangesetId),
    > {
        match self.slot_of(repo) {
            Some(i) => self.repos@[i].current(n),
            None => None,
        }
    }

    /// A repository's update log, oldest first.
    pub open spec fn log(self, repo: RepositoryId) -> Seq<LogRecord> {
        match self.slot_of(repo) {
            Some(i) => log_view(self.repos@[i].log@),
            None => Seq::empty(),
        }
    }

    proof fn lemma_slot_at(self, i: int)
        requires
            self.wf(),
            0 <= i < self.repos@.len(),
        ensures
            self.slot_of(self.repos@[i].repo_id) == Some(i),
    {
        let j = choose|j: int|
            0 <= j < self.repos@.len() && self.repos@[j].repo_id == self.repos@[i].repo_id;
        assert(j == i);
    }

    /// Log ids of a repository run 1, 2, 3, ...
    pub proof fn lemma_log_ids(self, repo: RepositoryId)
        requires
            self.wf(),
        ensures
            forall|i: int|
                0 <= i < self.log(repo).len() ==> (#[trigger] self.log(repo)[i]).id == i + 1
                    && self.log(repo)[i].repo_id == repo,
    {
        match self.slot_of(repo) {
            Some(k) => {
                assert forall|i: int| 0 <= i < self.log(repo).len() implies (
                #[trigger] self.log(repo)[i]).id == i + 1 && self.log(repo)[i].repo_id == repo by {
                    assert(self.repos@[k].wf());
                    assert(self.log(repo)[i] == self.repos@[k].log@[i]@);
                };
            },
            None => {},
        }
    }

    /// An empty store.
    pub fn new() -> (r: Bookmarks)
        ensures
            r.wf(),
            forall|repo: RepositoryId, n: Seq<u8>| #[trigger] r.current(repo, n) is None,
            forall|repo: RepositoryId| #[trigger] r.log(repo) == Seq::<LogRecord>::empty(),
    {
        Bookmarks { repos: Vec::new() }
    }

    fn find_repo(&self, repo: RepositoryId) -> (r: Option<usize>)
        requires
            self.wf(),
        ensures
            match r {
                Some(i) => i < self.repos@.len() && self.slot_of(repo) == Some(i as int)
                    && self.repos@[i as int].repo_id == repo,
                None => self.slot_of(repo) is None,
            },
    {
        let mut i: usize = 0;
        while i < self.repos.len()
            invariant
                i <= self.repos@.len(),
                self.wf(),
                forall|j: int| 0 <= j < i ==> self.repos@[j].repo_id != repo,
            decreases self.repos@.len() - i,
        {
            if self.repos[i].repo_id == repo {
                proof {
                    self.lemma_slot_at(i as int);
                }
                return Some(i);
            }
            i = i + 1;
        }
        None
    }

    /// A new, empty transaction on `repo`.
    pub fn create_transaction(&self, repo: RepositoryId) -> (r: BookmarkTransaction)
        ensures
            r.repo_id == repo,
            r.staged() == Seq::<StagedRecord>::empty(),
            r.wf(),
    {
        BookmarkTransaction::new(repo)
    }

    /// The changeset a bookmark points at.
    pub fn get(&self, repo: RepositoryId, name: &BookmarkName) -> (r: Option<ChangesetId>)
        requires
            self.wf(),
        ensures
            r == match self.current(repo, name@) {
                Some((_, c)) => Some(c),
                None => None,
            },
    {
        match self.find_repo(repo) {
            None => None,
            Some(i) => {
                assert(self.repos@[i as int].wf());
                match self.repos[i].find(name) {
                    Some(j) => Some(self.repos[i].entries[j].cs_id),
                    None => None,
                }
            },
        }
    }

    /// The kind and target of a bookmark.
    pub fn get_entry(&self, repo: RepositoryId, name: &BookmarkName) -> (r: Option<
        (BookmarkKind, ChangesetId),
    >)
        requires
            self.wf(),
        ensures
            r == self.current(repo, name@),
    {
        match self.find_repo(repo) {
            None => None,
            Some(i) => {
                assert(self.repos@[i as int].wf());
                match self.repos[i].find(name) {
                    Some(j) => Some((self.repos[i].entries[j].kind, self.repos[i].entries[j].cs_id)),
                    None => None,
                }
            },
        }
    }
}

/// What a successful commit of `ops` on `repo` does: each staged bookmark
/// takes its outcome, the others keep their state, the repository's log
/// gains one record per public operation numbered on from its last id, and
/// other repositories are untouched.
pub open spec fn committed(
    before: Bookmarks,
    after: Bookmarks,
    ops: Seq<StagedRecord>,
    repo: RepositoryId,
    ts: i64,
) -> bool {
    &&& forall|n: Seq<u8>|
        #[trigger] after.current(repo, n) == state_after(before.current(repo, n), ops, n)
    &&& after.log(repo) == before.log(repo) + logged_records(
        ops,
        before.log(repo).len() + 1 as int,
        repo,
        ts,
    )
    &&& forall|o: RepositoryId, n: Seq<u8>|
        o != repo ==> #[trigger] after.current(o, n) == before.current(o, n)
    &&& forall|o: RepositoryId| o != repo ==> #[trigger] after.log(o) == before.log(o)
}

pub open spec fn all_hold(store: Bookmarks, repo: RepositoryId, ops: Seq<StagedRecord>) -> bool {
    forall|j: int|
        0 <= j < ops.len() ==> precondition(store.current(repo, (#[trigger] ops[j]).name), ops[j].op)
}

proof fn lemma_logged_len(ops: Seq<StagedRecord>, first: int, repo: RepositoryId, ts: i64)
    ensures
        logged_records(ops, first, repo, ts).len() <= ops.len(),
    decreases ops.len(),
{
    if ops.len() > 0 {
        lemma_logged_len(ops.drop_last(), first, repo, ts);
    }
}

proof fn lemma_staged_on_step(ops: Seq<StagedRecord>, k: int, n: Seq<u8>)
    requires
        distinct_names(ops),
        0 <= k < ops.len(),
    ensures
        staged_on(ops.take(k + 1), n) == if n == ops[k].name {
            Some(ops[k])
        } else {
            staged_on(ops.take(k), n)
        },
        n == ops[k].name ==> staged_on(ops.take(k), n) is None,
{
    let a = ops.take(k);
    let b = ops.take(k + 1);
    assert(distinct_names(b));
    if n == ops[k].name {
        lemma_staged_on_at(b, k);
        if exists|i: int| 0 <= i < a.len() && a[i].name == n {
            let i = choose|i: int| 0 <= i < a.len() && a[i].name == n;
            assert(ops[i].name == ops[k].name);
        }
    } else {
        if exists|i: int| 0 <= i < a.len() && a[i].name == n {
            let i = choose|i: int| 0 <= i < a.len() && a[i].name == n;
            assert(distinct_names(a));
            lemma_staged_on_at(a, i);
            assert(b[i] == a[i]);
            lemma_staged_on_at(b, i);
        } else if exists|i: int| 0 <= i < b.len() && b[i].name == n {
            let i = choose|i: int| 0 <= i < b.len() && b[i].name == n;
            assert(i != k);
            assert(a[i] == b[i]);
        }
    }
}

impl BookmarkTransaction {
    /// Whether every staged operation's precondition holds against `store`.
    fn check_all(&self, store: &Bookmarks) -> (r: bool)
        requires
            store.wf(),
        ensures
            r == all_hold(*store, self.repo_id, self.staged()),
    {
        let repo = self.repo_id;
        let ghost ops = self.staged();
        let found = store.find_repo(repo);
        let mut k: usize = 0;
        while k < self.ops.len()
            invariant
                k <= self.ops@.len(),
                ops == self.staged(),
                repo == self.repo_id,
                store.wf(),
                match found {
                    Some(i) => i < store.repos@.len() && store.slot_of(repo) == Some(i as int),
                    None => store.slot_of(repo) is None,
                },
                forall|j: int|
                    0 <= j < k ==> precondition(store.current(repo, (#[trigger] ops[j]).name), ops[j].op),
            decreases self.ops@.len() - k,
        {
            let s = &self.ops[k];
            assert(ops[k as int] == s@);
            let cur: Option<(BookmarkKind, ChangesetId)> = match found {
                Some(i) => {
                    assert(store.repos@[i as int].wf());
                    match store.repos[i].find(&s.name) {
                        Some(j) => Some((store.repos[i].entries[j].kind, store.repos[i].entries[j].cs_id)),
                        None => None,
                    }
                },
                None => None,
            };
            assert(cur == store.current(repo, s.name@));
            let ok = match s.op {
                BookmarkOp::Create { .. } => cur.is_none(),
                BookmarkOp::CreateScratch { .. } => cur.is_none(),
                BookmarkOp::Update { from, .. } => match cur {
                    Some((kind, c)) => kind != BookmarkKind::Scratch && c == from,
                    None => false,
                },
                BookmarkOp::UpdateScratch { from, .. } => match cur {
                    Some((kind, c)) => kind == BookmarkKind::Scratch && c == from,
                    None => false,
                },
                BookmarkOp::Delete { from } => match cur {
                    Some((_, c)) => c == from,
                    None => false,
                },
                BookmarkOp::ForceSet { .. } => true,
                BookmarkOp::ForceDelete => true,
            };
            assert(ok == precondition(cur, s.op));
            if !ok {
                assert(!precondition(store.current(repo, ops[k as int].name), ops[k as int].op));
                return false;
            }
            k = k + 1;
        }
        true
    }

    /// Applies every staged operation if each one's precondition holds
    /// against the current state, and returns true; otherwise changes
    /// nothing and returns false.
    pub fn commit(self, store: &mut Bookmarks, timestamp: i64) -> (r: bool)
        requires
            old(store).wf(),
            self.wf(),
            old(store).log(self.repo_id).len() + self.staged().len() + 1 < u64::MAX,
        ensures
            final(store).wf(),
            r == all_hold(*old(store), self.repo_id, self.staged()),
            r ==> committed(*old(store), *final(store), self.staged(), self.repo_id, timestamp),
            !r ==> *final(store) == *old(store),
    {
        if !self.check_all(store) {
            return false;
        }
        self.apply_all(store, timestamp);
        true
    }

    fn apply_all(self, store: &mut Bookmarks, timestamp: i64)
        requires
            old(store).wf(),
            self.wf(),
            old(store).log(self.repo_id).len() + self.staged().len() + 1 < u64::MAX,
        ensures
            final(store).wf(),
            committed(*old(store), *final(store), self.staged(), self.repo_id, timestamp),
    {
        let repo = self.repo_id;
        let ghost ops = self.staged();
        let found = store.find_repo(repo);
        let ghost before = *store;
        let idx: usize = match found {
            Some(i) => i,
            None => {
                store.repos.push(RepoBookmarks { repo_id: repo, entries: Vec::new(), log: Vec::new() });
                proof {
                    assert(forall|j: int| 0 <= j < before.repos@.len() ==> before.repos@[j].repo_id != repo);
                    assert(entries_view(store.repos@[before.repos@.len() as int].entries@) =~= Seq::<
                        (Seq<u8>, BookmarkKind, ChangesetId),
                    >::empty());
                    assert(store.wf());
                }
                store.repos.len() - 1
            },
        };
        let ghost mid = *store;
        proof {
            mid.lemma_slot_at(idx as int);
            assert(mid.repos@[idx as int].wf());
            // the new slot starts out empty and unlogged, like an absent repository
            assert forall|n: Seq<u8>| #[trigger] mid.current(repo, n) == before.current(repo, n) by {};
            assert(mid.log(repo) =~= before.log(repo));
        }
        let mut slot = store.repos.remove(idx);
        let ghost slot0 = slot;
        let ghost first: int = slot0.log@.len() + 1 as int;
        let mut k: usize = 0;
        while k < self.ops.len()
            invariant
                k <= self.ops@.len(),
                ops == self.staged(),
                distinct_names(ops),
                slot.wf(),
                slot.repo_id == repo,
                slot0.log@.len() + ops.len() + 1 < u64::MAX,
                first == slot0.log@.len() + 1,
                forall|n: Seq<u8>|
                    #[trigger] slot.current(n) == state_after(slot0.current(n), ops.take(k as int), n),
                log_view(slot.log@) == log_view(slot0.log@) + logged_records(
                    ops.take(k as int),
                    first,
                    repo,
                    timestamp,
                ),
            decreases self.ops@.len() - k,
        {
            let s = &self.ops[k];
            proof {
                assert(ops[k as int] == s@);
                lemma_logged_len(ops.take(k as int), first, repo, timestamp);
                assert(slot.log@.len() == log_view(slot.log@).len());
            }
            let ghost pre = slot;
            slot.apply(s, timestamp);
            proof {
                let t = ops.take(k as int);
                let t1 = ops.take(k as int + 1);
                assert forall|n: Seq<u8>|
                    #[trigger] slot.current(n) == state_after(slot0.current(n), t1, n) by {
                    lemma_staged_on_step(ops, k as int, n);
                };
                assert(t1.drop_last() =~= t);
                assert(t1.last() == s@);
                let prev = logged_records(t, first, repo, timestamp);
                assert(pre.log@.len() == log_view(pre.log@).len());
                if is_logged(s.op) {
                    assert(log_view(slot.log@) =~= log_view(slot0.log@) + prev.push(
                        record_of(s@, first + prev.len(), repo, timestamp),
                    ));
                }
            }
            k = k + 1;
        }
        assert(ops.take(ops.len() as int) =~= ops);
        store.repos.insert(idx, slot);
        proof {
            assert(store.repos@ =~= mid.repos@.update(idx as int, slot));
            assert(store.wf()) by {
                assert forall|i: int, j: int|
                    0 <= i < store.repos@.len() && 0 <= j < store.repos@.len() && i != j
                        implies store.repos@[i].repo_id != store.repos@[j].repo_id by {
                    assert(mid.repos@[i].repo_id == store.repos@[i].repo_id);
                    assert(mid.repos@[j].repo_id == store.repos@[j].repo_id);
                };
            };
            store.lemma_slot_at(idx as int);
            assert forall|o: RepositoryId, n: Seq<u8>|
                o != repo implies #[trigger] store.current(o, n) == mid.current(o, n)
                    && store.log(o) == mid.log(o) by {
                if mid.slot_of(o) is Some {
                    let i = mid.slot_of(o)->Some_0;
                    assert(mid.repos@[i].repo_id == o);
                    assert(i != idx);
                    store.lemma_slot_at(i);
                } else {
                    if store.slot_of(o) is Some {
                        let i = store.slot_of(o)->Some_0;
                        assert(store.repos@[i].repo_id == o);
                        assert(mid.repos@[i].repo_id == o);
                    }
                }
            };
            assert forall|o: RepositoryId, n: Seq<u8>|
                o != repo implies #[trigger] store.current(o, n) == before.current(o, n) by {
                if before.slot_of(o) is Some {
                    let i = before.slot_of(o)->Some_0;
                    assert(mid.repos@[i] == before.repos@[i]);
                    mid.lemma_slot_at(i);
                } else if mid.slot_of(o) is Some {
                    let i = mid.slot_of(o)->Some_0;
                    assert(mid.repos@[i].repo_id == o);
                    if i < before.repos@.len() {
                        assert(before.repos@[i].repo_id == o);
                    }
                }
            };
            assert forall|o: RepositoryId| o != repo implies #[trigger] store.log(o) == before.log(o) by {
                assert(store.current(o, Seq::empty()) == mid.current(o, Seq::empty()));
                if before.slot_of(o) is Some {
                    let i = before.slot_of(o)->Some_0;
                    assert(mid.repos@[i] == before.repos@[i]);
                    mid.lemma_slot_at(i);
                } else if mid.slot_of(o) is Some {
                    let i = mid.slot_of(o)->Some_0;
                    assert(mid.repos@[i].repo_id == o);
                    if i < before.repos@.len() {
                        assert(before.repos@[i].repo_id == o);
                    }
                }
            };
            assert(before.log(repo).len() + 1 == first);
        }
    }
}

/// The entries after `from`, at most `limit` of them: since ids run 1, 2,
/// 3, ... these are the entries with `id > from`, in ascending id order.
pub open spec fn next_entries(log: Seq<LogRecord>, from: int, limit: int) -> Seq<LogRecord> {
    let start = if from < log.len() { from } else { log.len() as int };
    let end = if start + limit < log.len() { start + limit } else { log.len() as int };
    log.subrange(start, end)
}

/// Whether `s` starts with `k` entries on the same bookmark and with the same
/// reason as its first entry, and `k` is as large as that allows.
pub open spec fn same_run(s: Seq<LogRecord>, k: int) -> bool {
    &&& 0 <= k <= s.len()
    &&& forall|j: int|
        0 <= j < k ==> (#[trigger] s[j]).name == s[0].name && s[j].reason == s[0].reason
    &&& k < s.len() ==> (s[k].name != s[0].name || s[k].reason != s[0].reason)
}

pub open spec fn named(n: Seq<u8>) -> spec_fn(LogRecord) -> bool {
    |e: LogRecord| e.name == n
}

pub open spec fn summary(e: LogRecord) -> (Option<ChangesetId>, BookmarkUpdateReason, i64) {
    (e.to, e.reason, e.timestamp)
}

/// Entries `offset .. offset + max` of `h`, where they exist.
pub open spec fn window<A>(h: Seq<A>, offset: int, max: int) -> Seq<A> {
    let start = if offset < h.len() { offset } else { h.len() as int };
    let end = if start + max < h.len() { start + max } else { h.len() as int };
    h.subrange(start, end)
}

/// The history of bookmark `n`, newest first: `max` records after skipping
/// `offset`, each as (target, reason, timestamp).
pub open spec fn history(log: Seq<LogRecord>, n: Seq<u8>, max: int, offset: int) -> Seq<
    (Option<ChangesetId>, BookmarkUpdateReason, i64),
> {
    window(log.filter(named(n)).reverse(), offset, max).map_values(|e: LogRecord| summary(e))
}

proof fn lemma_filter_prepend_one<A>(x: A, t: Seq<A>, p: spec_fn(A) -> bool)
    ensures
        (seq![x] + t).filter(p) == if p(x) {
            seq![x] + t.filter(p)
        } else {
            t.filter(p)
        },
{
    broadcast use Seq::lemma_filter_prepend;

    assert(seq![x] + t =~= t.insert(0, x));
    t.lemma_filter_prepend(x, p);
}

impl Bookmarks {
    /// Up to `limit` log entries of `repo` with ids greater than `from_id`,
    /// in ascending id order.
    pub fn read_next_bookmark_log_entries(&self, repo: RepositoryId, from_id: u64, limit: u64) -> (r:
        Vec<BookmarkUpdateLogEntry>)
        requires
            self.wf(),
        ensures
            log_view(r@) == next_entries(self.log(repo), from_id as int, limit as int),
    {
        let mut out: Vec<BookmarkUpdateLogEntry> = Vec::new();
        match self.find_repo(repo) {
            None => {
                assert(log_view(out@) =~= next_entries(self.log(repo), from_id as int, limit as int));
                out
            },
            Some(i) => {
                let slot = &self.repos[i];
                let ghost lv = log_view(slot.log@);
                assert(lv == self.log(repo));
                let len64: u64 = slot.log.len() as u64;
                let start64: u64 = if from_id < len64 {
                    from_id
                } else {
                    len64
                };
                let end64: u64 = if limit < len64 - start64 {
                    start64 + limit
                } else {
                    len64
                };
                let start: usize = start64 as usize;
                let end: usize = end64 as usize;
                let mut j: usize = start;
                while j < end
                    invariant
                        start <= j <= end,
                        end <= slot.log@.len(),
                        lv == log_view(slot.log@),
                        log_view(out@) == lv.subrange(start as int, j as int),
                    decreases end - j,
                {
                    let e = slot.log[j].duplicate();
                    let ghost o = out@;
                    out.push(e);
                    proof {
                        assert(log_view(out@) =~= log_view(o).push(e@));
                        assert(lv[j as int] == slot.log@[j as int]@);
                        assert(lv.subrange(start as int, j + 1) =~= lv.subrange(start as int, j as int).push(
                            lv[j as int],
                        ));
                    }
                    j = j + 1;
                }
                out
            },
        }
    }

    /// The longest run of the entries `read_next_bookmark_log_entries` gives
    /// that share the bookmark name and the reason of the first of them.
    pub fn read_next_bookmark_log_entries_same_bookmark_and_reason(
        &self,
        repo: RepositoryId,
        from_id: u64,
        limit: u64,
    ) -> (r: Vec<BookmarkUpdateLogEntry>)
        requires
            self.wf(),
        ensures
            ({
                let s = next_entries(self.log(repo), from_id as int, limit as int);
                same_run(s, r@.len() as int) && log_view(r@) == s.take(r@.len() as int)
            }),
    {
        let mut all = self.read_next_bookmark_log_entries(repo, from_id, limit);
        let ghost s = log_view(all@);
        if all.len() == 0 {
            assert(log_view(all@) =~= s.take(0));
            return all;
        }
        let mut k: usize = 1;
        let mut stop = false;
        while !stop && k < all.len()
            invariant
                1 <= k <= all@.len(),
                s == log_view(all@),
                forall|j: int|
                    0 <= j < k ==> (#[trigger] s[j]).name == s[0].name && s[j].reason == s[0].reason,
                stop ==> k < s.len() && (s[k as int].name != s[0].name || s[k as int].reason
                    != s[0].reason),
            decreases all@.len() - k + (if stop { 0int } else { 1int }),
        {
            assert(s[k as int] == all@[k as int]@);
            assert(s[0] == all@[0]@);
            if !all[k].bookmark_name.same_as(&all[0].bookmark_name) || all[k].reason != all[0].reason {
                stop = true;
            } else {
                k = k + 1;
            }
        }
        all.truncate(k);
        assert(log_view(all@) =~= s.take(k as int));
        all
    }

    /// The history of bookmark `name` in `repo`, newest first: after
    /// skipping `offset` entries, up to `max_rec` of them, each as (target,
    /// reason, timestamp).
    #[verifier::rlimit(40)]
    pub fn list_bookmark_log_entries(
        &self,
        repo: RepositoryId,
        name: &BookmarkName,
        max_rec: u32,
        offset: Option<u32>,
    ) -> (r: Vec<(Option<ChangesetId>, BookmarkUpdateReason, i64)>)
        requires
            self.wf(),
        ensures
            r@ == history(
                self.log(repo),
                name@,
                max_rec as int,
                match offset {
                    Some(o) => o as int,
                    None => 0,
                },
            ),
    {
        let off: u64 = match offset {
            Some(o) => o as u64,
            None => 0,
        };
        let ghost p = named(name@);
        let mut out: Vec<(Option<ChangesetId>, BookmarkUpdateReason, i64)> = Vec::new();
        let found = self.find_repo(repo);
        if found.is_none() {
            let ghost h = self.log(repo).filter(p).reverse();
            assert(self.log(repo) =~= Seq::<LogRecord>::empty());
            assert(h =~= Seq::<LogRecord>::empty()) by {
                reveal(Seq::filter);
            };
            assert(out@ =~= history(self.log(repo), name@, max_rec as int, off as int));
            return out;
        }
        let i = found.unwrap();
        let slot = &self.repos[i];
        let ghost lv = log_view(slot.log@);
        assert(lv == self.log(repo));
        let total: usize = slot.log.len();
        let mut j: usize = total;
        let mut seen: usize = 0;
        assert(lv.subrange(j as int, lv.len() as int).filter(p) =~= Seq::<LogRecord>::empty()) by {
            reveal(Seq::filter);
        };
        while j > 0
            invariant
                j <= slot.log@.len(),
                total == slot.log@.len(),
                lv == log_view(slot.log@),
                p == named(name@),
                seen as int == lv.subrange(j as int, lv.len() as int).filter(p).len(),
                seen <= lv.len() - j,
                out@ == window(
                    lv.subrange(j as int, lv.len() as int).filter(p).reverse(),
                    off as int,
                    max_rec as int,
                ).map_values(|e: LogRecord| summary(e)),
            decreases j,
        {
            let ghost t = lv.subrange(j as int, lv.len() as int);
            let ghost h = t.filter(p).reverse();
            j = j - 1;
            let e = &slot.log[j];
            proof {
                let x = lv[j as int];
                assert(x == e@);
                assert(lv.subrange(j as int, lv.len() as int) =~= seq![x] + t);
                lemma_filter_prepend_one(x, t, p);
                t.lemma_filter_len(p);
            }
            if e.bookmark_name.same_as(name) {
                proof {
                    let x = lv[j as int];
                    assert((seq![x] + t.filter(p)).reverse() =~= h.push(x));
                }
                if seen as u64 >= off && seen as u64 - off < max_rec as u64 {
                    let ghost o = out@;
                    out.push((e.to_changeset_id, e.reason, e.timestamp));
                    proof {
                        let x = lv[j as int];
                        let h2 = h.push(x);
                        assert(window(h2, off as int, max_rec as int) =~= window(
                            h,
                            off as int,
                            max_rec as int,
                        ).push(x));
                        assert(out@ =~= window(h2, off as int, max_rec as int).map_values(
                            |e: LogRecord| summary(e),
                        ));
                    }
                } else {
                    proof {
                        let x = lv[j as int];
                        let h2 = h.push(x);
                        assert(window(h2, off as int, max_rec as int) =~= window(
                            h,
                            off as int,
                            max_rec as int,
                        ));
                    }
                }
                seen = seen + 1;
            }
        }
        assert(lv.subrange(0, lv.len() as int) =~= lv);
        out
    }
}

/// A transaction that only creates bookmark `name` at `to`, once committed,
/// leaves the bookmark at `to` and the repository's log grown by exactly one
/// record, numbered one past the previous last, moving `name` from nothing
/// to `to`.
pub proof fn law_create_then_get(
    before: Bookmarks,
    after: Bookmarks,
    repo: RepositoryId,
    name: Seq<u8>,
    to: ChangesetId,
    reason: BookmarkUpdateReason,
    replay: Option<(Seq<char>, Seq<char>)>,
    ts: i64,
)
    requires
        before.wf(),
        after.wf(),
        committed(
            before,
            after,
            seq![StagedRecord { name, op: BookmarkOp::Create { to }, reason, replay }],
            repo,
            ts,
        ),
    ensures
        after.current(repo, name) == Some((BookmarkKind::PullDefaultPublishing, to)),
        after.log(repo).len() == before.log(repo).len() + 1,
        after.log(repo).last().id == before.log(repo).len() + 1,
        after.log(repo).last().name == name,
        after.log(repo).last().from is None,
        after.log(repo).last().to == Some(to),
{
    let rec = StagedRecord { name, op: BookmarkOp::Create { to }, reason, replay };
    let ops = seq![rec];
    lemma_staged_on_at(ops, 0);
    reveal_with_fuel(logged_records, 2);
    assert(after.current(repo, name) == state_after(before.current(repo, name), ops, name));
    assert(ops.drop_last() =~= Seq::<StagedRecord>::empty());
    after.lemma_log_ids(repo);
}

/// Bookmark names are listed from a byte prefix.
pub struct BookmarkPrefix {
    pub bytes: Vec<u8>,
}

impl BookmarkPrefix {
    pub fn new(prefix: &str) -> (r: BookmarkPrefix)
        ensures
            r.bytes@ == prefix.spec_bytes(),
    {
        BookmarkPrefix { bytes: copy_bytes(prefix.as_bytes()) }
    }
}

/// Where a listing starts: at the first name, or after a given name.
pub enum BookmarkPagination {
    FromStart,
    After(BookmarkName),
}

/// A bookmark's name and kind.
pub struct Bookmark {
    pub name: BookmarkName,
    pub kind: BookmarkKind,
}

pub open spec fn has_prefix(s: Seq<u8>, p: Seq<u8>) -> bool {
    p.len() <= s.len() && s.take(p.len() as int) == p
}

/// Whether a listing with these parameters includes the entry `e`.
pub open spec fn selected(
    e: (Seq<u8>, BookmarkKind, ChangesetId),
    prefix: Seq<u8>,
    kinds: Seq<BookmarkKind>,
    after: Option<Seq<u8>>,
) -> bool {
    &&& has_prefix(e.0, prefix)
    &&& kinds.contains(e.1)
    &&& match after {
        Some(a) => lex_lt(a, e.0),
        None => true,
    }
}

pub open spec fn listed_view(s: Seq<(Bookmark, ChangesetId)>) -> Seq<(Seq<u8>, BookmarkKind, ChangesetId)> {
    s.map_values(|e: (Bookmark, ChangesetId)| (e.0.name@, e.0.kind, e.1))
}

/// `r` is the first `limit` entries of `entries` that the listing selects,
/// in ascending name order.
pub open spec fn listing(
    entries: Seq<(Seq<u8>, BookmarkKind, ChangesetId)>,
    r: Seq<(Seq<u8>, BookmarkKind, ChangesetId)>,
    prefix: Seq<u8>,
    kinds: Seq<BookmarkKind>,
    after: Option<Seq<u8>>,
    limit: int,
) -> bool {
    &&& r.len() <= limit
    &&& forall|i: int| 0 <= i < r.len() ==> entries.contains(#[trigger] r[i]) && selected(r[i], prefix, kinds, after)
    &&& forall|i: int, j: int| 0 <= i < j < r.len() ==> lex_lt(r[i].0, r[j].0)
    &&& forall|x: (Seq<u8>, BookmarkKind, ChangesetId)|
        #[trigger] entries.contains(x) && selected(x, prefix, kinds, after) && !r.contains(x) ==> r.len() == limit
            && (r.len() == 0 || lex_lt(r.last().0, x.0))
}

fn kind_in(kinds: &Vec<BookmarkKind>, k: BookmarkKind) -> (r: bool)
    ensures
        r == kinds@.contains(k),
{
    let mut i: usize = 0;
    while i < kinds.len()
        invariant
            i <= kinds@.len(),
            forall|j: int| 0 <= j < i ==> kinds@[j] != k,
        decreases kinds@.len() - i,
    {
        if kinds[i] == k {
            assert(kinds@[i as int] == k);
            return true;
        }
        i = i + 1;
    }
    false
}

fn starts_with_bytes(s: &[u8], p: &[u8]) -> (r: bool)
    ensures
        r == has_prefix(s@, p@),
{
    if p.len() > s.len() {
        return false;
    }
    let mut i: usize = 0;
    while i < p.len()
        invariant
            i <= p@.len(),
            p@.len() <= s@.len(),
            forall|j: int| 0 <= j < i ==> s@[j] == p@[j],
        decreases p@.len() - i,
    {
        if s[i] != p[i] {
            assert(s@.take(p@.len() as int)[i as int] != p@[i as int]);
            return false;
        }
        i = i + 1;
    }
    assert(s@.take(p@.len() as int) =~= p@);
    true
}

impl Bookmarks {
    /// The stored bookmarks of a repository.
    pub open spec fn entries_of(self, repo: RepositoryId) -> Seq<(Seq<u8>, BookmarkKind, ChangesetId)> {
        match self.slot_of(repo) {
            Some(i) => entries_view(self.repos@[i].entries@),
            None => Seq::empty(),
        }
    }

    /// Up to `limit` bookmarks of `repo` whose names start with `prefix`,
    /// whose kinds are among `kinds`, and, for `After(name)`, whose names
    /// sort after `name`: the first ones in ascending name order.
    pub fn list(
        &self,
        repo: RepositoryId,
        prefix: &BookmarkPrefix,
        kinds: &Vec<BookmarkKind>,
        pagination: &BookmarkPagination,
        limit: u64,
    ) -> (r: Vec<(Bookmark, ChangesetId)>)
        requires
            self.wf(),
        ensures
            listing(
                self.entries_of(repo),
                listed_view(r@),
                prefix.bytes@,
                kinds@,
                match pagination {
                    BookmarkPagination::FromStart => None,
                    BookmarkPagination::After(n) => Some(n@),
                },
                limit as int,
            ),
    {
        let ghost after: Option<Seq<u8>> = match pagination {
            BookmarkPagination::FromStart => None,
            BookmarkPagination::After(n) => Some(n@),
        };
        let ghost pre = prefix.bytes@;
        let ghost ks = kinds@;
        let mut out: Vec<(Bookmark, ChangesetId)> = Vec::new();
        let found = self.find_repo(repo);
        if found.is_none() {
            assert(listed_view(out@) =~= Seq::<(Seq<u8>, BookmarkKind, ChangesetId)>::empty());
            return out;
        }
        let slot = &self.repos[found.unwrap()];
        let ghost ents = entries_view(slot.entries@);
        assert(ents == self.entries_of(repo));
        assert(slot.wf());
        let mut stop = false;
        while !stop && (out.len() as u64) < limit
            invariant
                ents == entries_view(slot.entries@),
                unique_names(ents),
                pre == prefix.bytes@,
                ks == kinds@,
                after == match pagination {
                    BookmarkPagination::FromStart => None,
                    BookmarkPagination::After(n) => Some(n@),
                },
                out@.len() <= limit,
                forall|i: int|
                    0 <= i < listed_view(out@).len() ==> ents.contains(#[trigger] listed_view(out@)[i])
                        && selected(listed_view(out@)[i], pre, ks, after),
                forall|i: int, j: int|
                    0 <= i < j < listed_view(out@).len() ==> lex_lt(listed_view(out@)[i].0, listed_view(out@)[j].0),
                forall|x: (Seq<u8>, BookmarkKind, ChangesetId)|
                    #[trigger] ents.contains(x) && selected(x, pre, ks, after) && !listed_view(out@).contains(x)
                        ==> !stop && (out@.len() == 0 || lex_lt(listed_view(out@).last().0, x.0)),
            decreases limit - out@.len(), (if stop { 0int } else { 1int }),
        {
            let ghost ov = listed_view(out@);
            // the smallest selected entry after the last one listed
            let mut best: Option<usize> = None;
            let mut j: usize = 0;
            while j < slot.entries.len()
                invariant
                    j <= slot.entries@.len(),
                    ents == entries_view(slot.entries@),
                    ov == listed_view(out@),
                    pre == prefix.bytes@,
                    ks == kinds@,
                    after == match pagination {
                        BookmarkPagination::FromStart => None,
                        BookmarkPagination::After(n) => Some(n@),
                    },
                    match best {
                        Some(b) => b < j && selected(ents[b as int], pre, ks, after) && (ov.len() == 0 || lex_lt(
                            ov.last().0,
                            ents[b as int].0,
                        )) && forall|m: int|
                            0 <= m < j && selected(#[trigger] ents[m], pre, ks, after) && (ov.len() == 0 || lex_lt(
                                ov.last().0,
                                ents[m].0,
                            )) ==> !lex_lt(ents[m].0, ents[b as int].0),
                        None => forall|m: int|
                            0 <= m < j ==> !(selected(#[trigger] ents[m], pre, ks, after) && (ov.len() == 0 || lex_lt(
                                ov.last().0,
                                ents[m].0,
                            ))),
                    },
                decreases slot.entries@.len() - j,
            {
                let e = &slot.entries[j];
                assert(ents[j as int] == e@);
                let mut ok = starts_with_bytes(e.name.as_bytes(), prefix.bytes.as_slice()) && kind_in(kinds, e.kind);
                match pagination {
                    BookmarkPagination::FromStart => {},
                    BookmarkPagination::After(n) => {
                        if !bytes_lt(n.as_bytes(), e.name.as_bytes()) {
                            ok = false;
                        }
                    },
                }
                if ok && out.len() > 0 {
                    let k = out.len() - 1;
                    assert(ov.last() == ov[k as int]);
                    if !bytes_lt(out[k].0.name.as_bytes(), e.name.as_bytes()) {
                        ok = false;
                    }
                }
                assert(ok == (selected(ents[j as int], pre, ks, after) && (ov.len() == 0 || lex_lt(ov.last().0, ents[j as int].0))));
                if ok {
                    let better = match best {
                        None => true,
                        Some(b) => bytes_lt(e.name.as_bytes(), slot.entries[b].name.as_bytes()),
                    };
                    if better {
                        proof {
                            match best {
                                None => {},
                                Some(b) => {
                                    assert(ents[b as int] == slot.entries@[b as int]@);
                                    assert forall|m: int|
                                        0 <= m < j + 1 && selected(#[trigger] ents[m], pre, ks, after) && (ov.len() == 0 || lex_lt(
                                            ov.last().0,
                                            ents[m].0,
                                        )) implies !lex_lt(ents[m].0, ents[j as int].0) by {
                                        lemma_lex_total(ents[m].0, ents[j as int].0);
                                        if m < j && lex_lt(ents[m].0, ents[j as int].0) {
                                            lemma_lex_transitive(ents[m].0, ents[j as int].0, ents[b as int].0);
                                        }
                                        if m == j {
                                            lemma_lex_irreflexive(ents[m].0);
                                        }
                                    };
                                },
                            }
                            if best is None {
                                assert forall|m: int|
                                    0 <= m < j + 1 && selected(#[trigger] ents[m], pre, ks, after) && (ov.len() == 0 || lex_lt(
                                        ov.last().0,
                                        ents[m].0,
                                    )) implies !lex_lt(ents[m].0, ents[j as int].0) by {
                                    if m == j {
                                        lemma_lex_irreflexive(ents[m].0);
                                    }
                                };
                            }
                        }
                        best = Some(j);
                    } else {
                        proof {
                            let b = best->Some_0;
                            assert(ents[b as int] == slot.entries@[b as int]@);
                        }
                    }
                }
                j = j + 1;
            }
            match best {
                None => {
                    stop = true;
                    proof {
                        assert forall|x: (Seq<u8>, BookmarkKind, ChangesetId)|
                            #[trigger] ents.contains(x) && selected(x, pre, ks, after) && !ov.contains(x) implies false by {
                            let m = choose|m: int| 0 <= m < ents.len() && ents[m] == x;
                        };
                    }
                },
                Some(b) => {
                    let e = &slot.entries[b];
                    let item = (Bookmark { name: e.name.duplicate(), kind: e.kind }, e.cs_id);
                    out.push(item);
                    proof {
                        let nv = listed_view(out@);
                        let eb = ents[b as int];
                        assert(eb == slot.entries@[b as int]@);
                        assert(nv =~= ov.push(eb));
                        assert(ents.contains(eb));
                        assert forall|i: int, k: int| 0 <= i < k < nv.len() implies lex_lt(nv[i].0, nv[k].0) by {
                            if k == ov.len() && i < ov.len() {
                                if i < ov.len() - 1 {
                                    lemma_lex_transitive(ov[i].0, ov.last().0, eb.0);
                                }
                            }
                        };
                        assert forall|x: (Seq<u8>, BookmarkKind, ChangesetId)|
                            #[trigger] ents.contains(x) && selected(x, pre, ks, after) && !nv.contains(x) implies
                            (out@.len() == 0 || lex_lt(nv.last().0, x.0)) by {
                            let m = choose|m: int| 0 <= m < ents.len() && ents[m] == x;
                            assert(!ov.contains(x)) by {
                                if ov.contains(x) {
                                    let q = choose|q: int| 0 <= q < ov.len() && ov[q] == x;
                                    assert(nv[q] == x);
                                }
                            };
                            assert(x != eb) by {
                                assert(nv[ov.len() as int] == eb);
                            };
                            assert(m != b);
                            assert(ents[m].0 != eb.0);
                            lemma_lex_total(ents[m].0, eb.0);
                        };
                    }
                },
            }
        }
        proof {
            let ov = listed_view(out@);
            assert forall|x: (Seq<u8>, BookmarkKind, ChangesetId)|
                #[trigger] ents.contains(x) && selected(x, pre, ks, after) && !ov.contains(x) implies ov.len() == limit
                    && (ov.len() == 0 || lex_lt(ov.last().0, x.0)) by {
            };
        }
        out
    }
}

/// A transaction that only creates the scratch bookmark `name` at `to`,
/// once committed, leaves it at `to` as a scratch bookmark and the
/// repository's log as it was.
pub proof fn law_scratch_create_not_logged(
    before: Bookmarks,
    after: Bookmarks,
    repo: RepositoryId,
    name: Seq<u8>,
    to: ChangesetId,
    ts: i64,
)
    requires
        committed(
            before,
            after,
            seq![StagedRecord { name, op: BookmarkOp::CreateScratch { to }, reason: BookmarkUpdateReason::Push, replay: None }],
            repo,
            ts,
        ),
    ensures
        after.current(repo, name) == Some((BookmarkKind::Scratch, to)),
        after.log(repo) == before.log(repo),
{
    let rec = StagedRecord { name, op: BookmarkOp::CreateScratch { to }, reason: BookmarkUpdateReason::Push, replay: None };
    let ops = seq![rec];
    lemma_staged_on_at(ops, 0);
    reveal_with_fuel(logged_records, 2);
    assert(after.current(repo, name) == state_after(before.current(repo, name), ops, name));
    assert(ops.drop_last() =~= Seq::<StagedRecord>::empty());
    assert(before.log(repo) + Seq::<LogRecord>::empty() =~= before.log(repo));
}

/// A committed transaction on one repository changes no other
/// repository's bookmarks or log.
pub proof fn law_commit_isolates_repositories(
    before: Bookmarks,
    after: Bookmarks,
    ops: Seq<StagedRecord>,
    repo: RepositoryId,
    ts: i64,
    other: RepositoryId,
    n: Seq<u8>,
)
    requires
        committed(before, after, ops, repo, ts),
        other != repo,
    ensures
        after.current(other, n) == before.current(other, n),
        after.log(other) == before.log(other),
{
}

} // verus!
