//! Policy checks on a requested bookmark move: which kinds of bookmark it
//! may touch, and whether the user may move the bookmark.
use crate::bookmarks::BookmarkName;
use vstd::prelude::*;
use vstd::string::StringSliceAdditionalSpecFns;
use vstd::utf8::encode_utf8;

verus! {

/// The scratch (infinitepush) namespace: bookmark names starting with
/// `pattern`.
pub struct InfinitepushNamespace {
    pub pattern: String,
}

pub open spec fn starts_with(s: Seq<u8>, p: Seq<u8>) -> bool {
    p.len() <= s.len() && s.take(p.len() as int) == p
}

impl InfinitepushNamespace {
    pub open spec fn prefix(self) -> Seq<u8> {
        encode_utf8(self.pattern@)
    }

    pub fn new(pattern: &str) -> (r: InfinitepushNamespace)
        ensures
            r.pattern@ == pattern@,
    {
        InfinitepushNamespace { pattern: pattern.to_owned() }
    }

    /// Whether `name` lies in the namespace.
    pub fn matches_bookmark(&self, name: &BookmarkName) -> (r: bool)
        ensures
            r == starts_with(name@, self.prefix()),
    {
        let n = name.as_bytes();
        let ps = self.pattern.as_str();
        let p = ps.as_bytes();
        assert(p@ == self.prefix());
        if p.len() > n.len() {
            return false;
        }
        let mut i: usize = 0;
        while i < p.len()
            invariant
                i <= p@.len(),
                p@ == self.prefix(),
                n@ == name@,
                p@.len() <= n@.len(),
                forall|j: int| 0 <= j < i ==> n@[j] == p@[j],
            decreases p@.len() - i,
        {
            if n[i] != p[i] {
                assert(n@.take(p@.len() as int)[i as int] != p@[i as int]);
                return false;
            }
            i = i + 1;
        }
        assert(n@.take(p@.len() as int) =~= p@);
        true
    }

    /// The pattern, as text.
    pub fn pattern(&self) -> (r: String)
        ensures
            r@ == self.pattern@,
    {
        self.pattern.clone()
    }
}

pub struct InfinitepushParams {
    pub namespace: Option<InfinitepushNamespace>,
}

/// The kind a requested move turned out to be.
#[derive(PartialEq, Eq, Structural, Clone, Copy, Debug)]
pub enum BookmarkKind {
    Scratch,
    Public,
}

#[derive(PartialEq, Eq, Structural, Clone, Copy, Debug)]
pub enum BookmarkKindRestrictions {
    AnyKind,
    OnlyScratch,
    OnlyPublic,
}

pub enum BookmarkMovementError {
    ScratchBookmarksDisabled { bookmark: BookmarkName },
    InvalidScratchBookmark { bookmark: BookmarkName, pattern: String },
    InvalidPublicBookmark { bookmark: BookmarkName, pattern: String },
    PermissionDeniedUser { user: String, bookmark: BookmarkName },
}

impl BookmarkKindRestrictions {
    /// Classifies a move of `name`: scratch when the repository has a
    /// namespace and the name lies in it, public otherwise; refused when
    /// that kind is not the one required.
    pub fn check_kind(&self, params: &InfinitepushParams, name: &BookmarkName) -> (r: Result<
        BookmarkKind,
        BookmarkMovementError,
    >)
        ensures
            ({
                let in_ns = match params.namespace {
                    Some(ns) => starts_with(name@, ns.prefix()),
                    None => false,
                };
                match r {
                    Ok(k) => k == (if in_ns { BookmarkKind::Scratch } else { BookmarkKind::Public })
                        && (*self == BookmarkKindRestrictions::OnlyScratch ==> in_ns)
                        && (*self == BookmarkKindRestrictions::OnlyPublic ==> !in_ns),
                    Err(BookmarkMovementError::ScratchBookmarksDisabled { bookmark }) => *self
                        == BookmarkKindRestrictions::OnlyScratch && params.namespace is None && bookmark@
                        == name@,
                    Err(BookmarkMovementError::InvalidScratchBookmark { bookmark, pattern }) => *self
                        == BookmarkKindRestrictions::OnlyScratch && params.namespace is Some && !in_ns
                        && bookmark@ == name@ && pattern@ == params.namespace->Some_0.pattern@,
                    Err(BookmarkMovementError::InvalidPublicBookmark { bookmark, pattern }) => *self
                        == BookmarkKindRestrictions::OnlyPublic && in_ns && bookmark@ == name@ && pattern@
                        == params.namespace->Some_0.pattern@,
                    Err(BookmarkMovementError::PermissionDeniedUser { .. }) => false,
                }
            }),
    {
        match &params.namespace {
            None => {
                if *self == BookmarkKindRestrictions::OnlyScratch {
                    Err(BookmarkMovementError::ScratchBookmarksDisabled { bookmark: name.duplicate() })
                } else {
                    Ok(BookmarkKind::Public)
                }
            },
            Some(ns) => {
                let in_ns = ns.matches_bookmark(name);
                if *self == BookmarkKindRestrictions::OnlyScratch && !in_ns {
                    Err(BookmarkMovementError::InvalidScratchBookmark {
                        bookmark: name.duplicate(),
                        pattern: ns.pattern(),
                    })
                } else if *self == BookmarkKindRestrictions::OnlyPublic && in_ns {
                    Err(BookmarkMovementError::InvalidPublicBookmark {
                        bookmark: name.duplicate(),
                        pattern: ns.pattern(),
                    })
                } else if in_ns {
                    Ok(BookmarkKind::Scratch)
                } else {
                    Ok(BookmarkKind::Public)
                }
            },
        }
    }
}

/// Per-bookmark settings: the users allowed to move the bookmark named
/// `bookmark`, or everyone when `allowed_users` is `None`.
pub struct BookmarkParams {
    pub bookmark: BookmarkName,
    pub allowed_users: Option<Vec<String>>,
}

pub struct BookmarkAttrs {
    pub params: Vec<BookmarkParams>,
}

pub open spec fn user_listed(users: Seq<String>, user: Seq<char>) -> bool {
    exists|i: int| 0 <= i < users.len() && users[i]@ == user
}

/// Every setting for `name` that restricts users lists `user`.
pub open spec fn allowed(attrs: Seq<BookmarkParams>, user: Seq<char>, name: Seq<u8>) -> bool {
    forall|i: int|
        0 <= i < attrs.len() && (#[trigger] attrs[i]).bookmark@ == name && attrs[i].allowed_users is Some
            ==> user_listed(attrs[i].allowed_users->Some_0@, user)
}

impl BookmarkAttrs {
    pub fn is_allowed_user(&self, user: &String, bookmark: &BookmarkName) -> (r: bool)
        ensures
            r == allowed(self.params@, user@, bookmark@),
    {
        let mut i: usize = 0;
        while i < self.params.len()
            invariant
                i <= self.params@.len(),
                forall|j: int|
                    0 <= j < i && (#[trigger] self.params@[j]).bookmark@ == bookmark@ && self.params@[j].allowed_users
                        is Some ==> user_listed(self.params@[j].allowed_users->Some_0@, user@),
            decreases self.params@.len() - i,
        {
            let p = &self.params[i];
            if p.bookmark.same_as(bookmark) {
                match &p.allowed_users {
                    None => {},
                    Some(users) => {
                        let mut k: usize = 0;
                        let mut found = false;
                        while k < users.len()
                            invariant
                                k <= users@.len(),
                                found == exists|m: int| 0 <= m < k && users@[m]@ == user@,
                            decreases users@.len() - k,
                        {
                            if users[k] == *user {
                                found = true;
                            }
                            k = k + 1;
                        }
                        if !found {
                            return false;
                        }
                    },
                }
            }
            i = i + 1;
        }
        true
    }
}

/// How a bookmark move is authorised.
#[derive(PartialEq, Eq, Structural, Clone, Copy, Debug)]
pub enum BookmarkMoveAuthorization {
    /// Initiated by a user, whose identity is checked against the bookmark's
    /// settings.
    User,
}

impl BookmarkMoveAuthorization {
    /// Refuses the move when a user is known and the settings do not allow
    /// them; an unknown user is not refused here.
    pub fn check_authorized(&self, user: Option<&String>, attrs: &BookmarkAttrs, bookmark: &BookmarkName) -> (r:
        Result<(), BookmarkMovementError>)
        ensures
            match user {
                None => r is Ok,
                Some(u) => match r {
                    Ok(()) => allowed(attrs.params@, u@, bookmark@),
                    Err(BookmarkMovementError::PermissionDeniedUser { user: who, bookmark: b }) => !allowed(
                        attrs.params@,
                        u@,
                        bookmark@,
                    ) && who@ == u@ && b@ == bookmark@,
                    Err(_) => false,
                },
            },
    {
        match user {
            None => Ok(()),
            Some(u) => {
                if attrs.is_allowed_user(u, bookmark) {
                    Ok(())
                } else {
                    Err(BookmarkMovementError::PermissionDeniedUser { user: u.clone(), bookmark: bookmark.duplicate() })
                }
            },
        }
    }
}

} // verus!
