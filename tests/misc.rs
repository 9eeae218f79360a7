use mononoke_core::api::{DataParams, Mononoke, QueryError, QueryKind, RepoEntry};
use mononoke_core::bookmarks::BookmarkName;
use mononoke_core::key::{Key, Node};
use mononoke_core::restrictions::{
    BookmarkAttrs, BookmarkKind, BookmarkKindRestrictions, BookmarkMoveAuthorization, BookmarkMovementError,
    BookmarkParams, InfinitepushNamespace, InfinitepushParams,
};

fn bm(s: &str) -> BookmarkName {
    BookmarkName::new(s).unwrap()
}

fn with_ns(p: &str) -> InfinitepushParams {
    InfinitepushParams { namespace: Some(InfinitepushNamespace::new(p)) }
}

#[test]
fn kind_restrictions() {
    let none = InfinitepushParams { namespace: None };
    let ns = with_ns("scratch/");
    assert!(matches!(
        BookmarkKindRestrictions::OnlyScratch.check_kind(&none, &bm("scratch/x")),
        Err(BookmarkMovementError::ScratchBookmarksDisabled { .. })
    ));
    match BookmarkKindRestrictions::OnlyScratch.check_kind(&ns, &bm("main")) {
        Err(BookmarkMovementError::InvalidScratchBookmark { pattern, .. }) => assert_eq!(pattern, "scratch/"),
        _ => panic!("expected an invalid scratch bookmark"),
    }
    assert!(matches!(
        BookmarkKindRestrictions::OnlyPublic.check_kind(&ns, &bm("scratch/x")),
        Err(BookmarkMovementError::InvalidPublicBookmark { .. })
    ));
    assert!(matches!(BookmarkKindRestrictions::AnyKind.check_kind(&ns, &bm("scratch/x")), Ok(BookmarkKind::Scratch)));
    assert!(matches!(BookmarkKindRestrictions::AnyKind.check_kind(&ns, &bm("main")), Ok(BookmarkKind::Public)));
    assert!(matches!(BookmarkKindRestrictions::AnyKind.check_kind(&none, &bm("scratch/x")), Ok(BookmarkKind::Public)));
    assert!(matches!(BookmarkKindRestrictions::OnlyScratch.check_kind(&ns, &bm("scratch/x")), Ok(BookmarkKind::Scratch)));
    assert!(matches!(BookmarkKindRestrictions::OnlyPublic.check_kind(&ns, &bm("scratch")), Ok(BookmarkKind::Public)));
}

#[test]
fn authorization_by_bookmark_settings() {
    let attrs = BookmarkAttrs {
        params: vec![
            BookmarkParams { bookmark: bm("main"), allowed_users: Some(vec!["alice".to_string()]) },
            BookmarkParams { bookmark: bm("dev"), allowed_users: None },
        ],
    };
    let alice = "alice".to_string();
    let bob = "bob".to_string();
    let auth = BookmarkMoveAuthorization::User;
    assert!(auth.check_authorized(Some(&alice), &attrs, &bm("main")).is_ok());
    match auth.check_authorized(Some(&bob), &attrs, &bm("main")) {
        Err(BookmarkMovementError::PermissionDeniedUser { user, bookmark }) => {
            assert_eq!(user, "bob");
            assert_eq!(bookmark.as_bytes(), b"main");
        }
        _ => panic!("expected permission denied"),
    }
    assert!(auth.check_authorized(Some(&bob), &attrs, &bm("dev")).is_ok());
    assert!(auth.check_authorized(Some(&bob), &attrs, &bm("other")).is_ok());
    assert!(auth.check_authorized(None, &attrs, &bm("main")).is_ok());
}

#[test]
fn key_accessors() {
    let node = Node { bytes: [7u8; 20] };
    let key = Key::new(b"path/to/file".to_vec(), node);
    assert_eq!(key.name(), b"path/to/file");
    assert_eq!(key.node().bytes, [7u8; 20]);
}

#[test]
fn repository_registry() {
    let m = Mononoke::new(vec![
        RepoEntry { name: "a".to_string(), enabled: true, repo: 1u32 },
        RepoEntry { name: "b".to_string(), enabled: false, repo: 2u32 },
        RepoEntry { name: "c".to_string(), enabled: true, repo: 3u32 },
    ]);
    assert_eq!(m.repo_names(), vec!["a".to_string(), "c".to_string()]);
    assert_eq!(m.repo(&"c".to_string()), Some(&3));
    assert_eq!(m.repo(&"b".to_string()), None);
    let params = DataParams { repo: "a".to_string() };
    assert!(matches!(m.send_query(&params.repo, QueryKind::Other), Ok(&1)));
    assert!(matches!(m.send_query(&"b".to_string(), QueryKind::LfsBatch), Err(QueryError::LfsNotFound { .. })));
    assert!(matches!(m.send_query(&"b".to_string(), QueryKind::Other), Err(QueryError::NotFound { .. })));
}

use mononoke_core::request::{make_key, node_hex, parse_node, parse_path, KeyError};

#[test]
fn keys_from_text() {
    let k = make_key("path/to/file_1", "48f43af456d770b6a78e1ace628319847e05cc24").unwrap();
    assert_eq!(k.name(), b"path/to/file_1");
    assert_eq!(k.node().bytes[0], 0x48);
    assert_eq!(k.node().bytes[19], 0x24);
    assert_eq!(String::from_utf8(node_hex(k.node())).unwrap(), "48f43af456d770b6a78e1ace628319847e05cc24");
    let upper = parse_node("48F43AF456D770B6A78E1ACE628319847E05CC24").unwrap();
    assert_eq!(upper.bytes, k.node().bytes);
    assert_eq!(make_key("", "48f43af456d770b6a78e1ace628319847e05cc24").unwrap().name(), b"");
}

#[test]
fn bad_keys_are_refused() {
    let h = "48f43af456d770b6a78e1ace628319847e05cc24";
    assert_eq!(make_key("a//b", h).err(), Some(KeyError::InvalidPath));
    assert_eq!(make_key("/a", h).err(), Some(KeyError::InvalidPath));
    assert_eq!(make_key("a/", h).err(), Some(KeyError::InvalidPath));
    assert_eq!(make_key("a/../b", h).err(), Some(KeyError::InvalidPath));
    assert_eq!(make_key("./b", h).err(), Some(KeyError::InvalidPath));
    assert!(make_key("a/.hidden/..b", h).is_ok());
    assert_eq!(make_key("a", "48f4").err(), Some(KeyError::InvalidHash));
    assert_eq!(make_key("a", "zzf43af456d770b6a78e1ace628319847e05cc24").err(), Some(KeyError::InvalidHash));
    assert_eq!(parse_path("x/y").unwrap(), b"x/y".to_vec());
}
