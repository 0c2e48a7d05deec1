use rowd::app::{pairing_fingerprint, App};
use rowd::collections::{StringMap, StringSet};
use rowd::config::{ShareRequest, SyncMode};
use rowd::ignore::Ignore;
use rowd::invitation::InvitationError;
use rowd::journal::{JournalError, TrackedStore};
use rowd::model::{
    conflict_path, is_hash, validate_hash, validate_manifest, validate_path, Entry, ModelError,
    PathFault, MAX_FILE, MAX_FILES,
};
use rowd::phone::{
    add_scan, check_cancelled, keeps_connection, key, poll, preview, session_wishes, wake,
    BaseTokens, Buffered, Line, LocalRequest, PhoneError, Poll,
};
use rowd::primitives::{push_be16, push_be32, random_id, read_be16, read_be32};
use rowd::protocol::{Message, StoreMetrics};
use rowd::storage::{
    check_component, hash_reader, Component, ContentDigest, RecoveryRecord, StoreError,
};
use rowd::text::{
    byte_len, compare, is_control, is_white, join, lines, number, same, split, strip_prefix,
    strip_suffix, trim, Side,
};
use rowd::trace::file_id;

#[test]
fn white_space_and_control_characters_are_those_of_unicode() {
    for c in (0..=0x10_FFFF).filter_map(char::from_u32) {
        assert_eq!(is_white(c), c.is_whitespace(), "{c:?}");
        assert_eq!(is_control(c), c.is_control(), "{c:?}");
    }
}

#[test]
fn texts_are_cut_and_joined() {
    for text in ["", " a ", "\u{3000}x\t", "  ", "á b"] {
        assert_eq!(trim(text), text.trim());
    }
    for text in ["", "a", "a\n", "a\r\nb", "\n\n", "a\nb\r"] {
        let found: Vec<&str> = text.lines().collect();
        assert_eq!(lines(text), found, "{text:?}");
    }
    for text in ["", "a/b", "/a//"] {
        let found: Vec<&str> = text.split('/').collect();
        assert_eq!(split(text, '/'), found);
    }
    assert_eq!(join(&vec!["a".into(), "b".into()], ", "), "a, b");
    for n in [0, 9, 10, 12345, u64::MAX] {
        assert_eq!(number(n), n.to_string());
    }
    assert_eq!(strip_prefix("rowd1:x", "rowd1:").as_deref(), Some("x"));
    assert_eq!(strip_suffix("a.json", ".json").as_deref(), Some("a"));
    assert_eq!(strip_suffix("a", ".json"), None);
    assert_eq!(byte_len("ação"), 6);
    assert!(same("a", "a") && !same("a", "b"));
}

#[test]
fn texts_are_ordered_by_their_bytes() {
    let texts = ["", "A", "a", "a/b", "ab", "b", "é", "漢", "\u{10FFFF}"];
    for a in texts {
        for b in texts {
            let side = compare(a, b);
            assert!(match side {
                Side::Less => a < b,
                Side::Same => a == b,
                Side::Greater => a > b,
            });
        }
    }
}

#[test]
fn maps_and_sets_keep_their_keys_in_order() {
    let mut map = StringMap::new();
    for (i, k) in ["b", "a", "c", "a"].iter().enumerate() {
        map.insert(k.to_string(), i as u64);
    }
    assert_eq!(map.len(), 3);
    assert_eq!(map.get("a"), Some(&3));
    assert_eq!(map.key_at(2), "c");
    assert!(map.remove("b") && !map.remove("b"));
    let mut set = StringSet::new();
    assert!(set.insert("z".into()) && !set.insert("z".into()));
    set.absorb(&map.keys());
    assert_eq!(set.to_list(), vec!["a", "c", "z"]);
    assert_eq!(set.at(1), "c");
}

#[test]
fn numbers_are_written_with_the_highest_byte_first() {
    let mut bytes = vec![];
    push_be32(&mut bytes, 0x0102_0304);
    push_be16(&mut bytes, 0xfffe);
    assert_eq!(bytes, vec![1, 2, 3, 4, 0xff, 0xfe]);
    assert_eq!(read_be32(&bytes, 0), 0x0102_0304);
    assert_eq!(read_be16(&bytes, 4), 0xfffe);
    let a = random_id().unwrap();
    assert!(is_hash(&a));
    assert_ne!(a, random_id().unwrap());
}

#[test]
fn content_has_its_known_digest() {
    let (hash, size) = hash_reader(b"abc");
    assert_eq!(hash, "ba7816bf8f01cfea414140de5dae2223b00361a396177a9cb410ff61f20015ad");
    assert_eq!(size, 3);
    let mut digest = ContentDigest::new();
    digest.feed(b"a");
    digest.feed(b"bc");
    assert_eq!(digest.finish(), (hash, 3));
    let mut bytes = b"share".to_vec();
    bytes.push(0);
    bytes.extend(b"a/b");
    assert_eq!(file_id("share", "a/b"), hash_reader(&bytes).0[..16]);
}

#[test]
fn paths_are_refused_with_their_reason() {
    let fault = |path: &str| match validate_path(path) {
        Err(ModelError::Path(fault)) => Some(fault),
        Err(_) => panic!("another error"),
        Ok(()) => None,
    };
    assert_eq!(fault(""), Some(PathFault::Length));
    assert_eq!(fault(&"a".repeat(5000)), Some(PathFault::Length));
    assert_eq!(fault("/a"), Some(PathFault::Unsafe));
    assert_eq!(fault("a/../b"), Some(PathFault::Unsafe));
    assert_eq!(fault("con"), Some(PathFault::ReservedName));
    assert_eq!(fault(".rowd/x"), Some(PathFault::ReservedPath));
    assert_eq!(fault("fotos/verão.jpg"), None);
    assert!(validate_hash(&"a".repeat(64)).is_ok());
    assert!(validate_hash(&"A".repeat(64)).is_err());
    assert!(validate_hash("a").is_err());
    let copy = conflict_path("a/b.txt", &"ab".repeat(32));
    assert!(copy.starts_with("Rowd Conflicts/"));
    assert!(validate_path(&copy).is_ok());
}

#[test]
fn manifests_are_bounded() {
    let entry = |size: u64| Entry { hash: "a".repeat(64), size };
    let one = |path: &str, size: u64| {
        let mut files = StringMap::new();
        files.insert(path.to_string(), entry(size));
        files
    };
    assert!(validate_manifest(&one("a", MAX_FILE)).is_ok());
    assert!(matches!(
        validate_manifest(&one("a", MAX_FILE + 1)),
        Err(ModelError::TooLarge(_))
    ));
    assert!(matches!(validate_manifest(&one("../a", 1)), Err(ModelError::Path(_))));
    let mut files = one("a", 1);
    files.insert("A".into(), entry(1));
    assert!(matches!(validate_manifest(&files), Err(ModelError::CaseCollision(_))));
    let mut files = one("a", 1);
    files.insert("a/b".into(), entry(1));
    assert!(matches!(validate_manifest(&files), Err(ModelError::FileDirectory(_))));
    assert_eq!(MAX_FILES, 50_000);
}

#[test]
fn ignore_rules_follow_their_wildcards() {
    let rules = Ignore::parse("a*c\nfoto?.jpg\ndir/\n/top/*.log\n");
    for path in ["abc", "ac", "x/abbbc", "foto?.jpg", "top/x.log", "dir/x"] {
        assert!(rules.matches(path, false), "{path}");
    }
    for path in ["ab", "foto1.jpg", "dir", "x/top/x.log"] {
        assert!(!rules.matches(path, false), "{path}");
    }
    assert!(rules.matches("dir", true));
    assert!(!Ignore::new().matches("a", false));
}

#[test]
fn a_tracked_store_keeps_what_was_not_confirmed() {
    let mut store = TrackedStore::new((), None, "share").unwrap();
    assert_eq!((store.state.share_id.as_str(), store.state.sequence), ("share", 0));
    assert_eq!(store.state.manifest.len() + store.state.acknowledged.len(), 0);
    assert_eq!(store.state.pending_count(), 0);
    let foreign = TrackedStore::new((), None, "other").unwrap().state;
    assert!(matches!(
        TrackedStore::new((), Some(foreign), "share"),
        Err(JournalError::OtherShare)
    ));
    let mut damaged = TrackedStore::new((), None, "share").unwrap().state;
    damaged.manifest.insert("a".to_string(), Entry { hash: "x".into(), size: 1 });
    assert!(matches!(
        TrackedStore::new((), Some(damaged), "share"),
        Err(JournalError::Manifest(ModelError::Hash))
    ));
    let mut files = StringMap::new();
    let (hash, size) = hash_reader(b"x");
    files.insert("a".to_string(), Entry { hash: hash.clone(), size });
    files.insert("skip.tmp".to_string(), Entry { hash: hash.clone(), size });
    store.scan(&files, &Ignore::parse("*.tmp\n"));
    assert!(store.state.pending_count() >= 1);
    let entry = Entry { hash, size };
    assert!(store.acknowledge("a", &entry));
    assert!(!store.acknowledge("a", &entry));
    store.install("b", &entry);
    assert!(store.state.manifest.contains("b"));
}

#[test]
fn refuses_symlink_escape() {
    assert!(matches!(
        check_component("escape/a", Component::Symlink, false, true),
        Err(StoreError::Symlink(_))
    ));
    assert!(matches!(
        check_component("a", Component::Directory, true, true),
        Err(StoreError::Unsupported(_))
    ));
    assert!(matches!(
        check_component("a/b", Component::File, false, true),
        Err(StoreError::Unsupported(_))
    ));
    assert_eq!(check_component("a/b", Component::Missing, false, true).ok(), Some(true));
    assert_eq!(check_component("a/b", Component::Missing, false, false).ok(), Some(false));
    assert_eq!(check_component("a/b", Component::Missing, true, true).ok(), Some(false));
    let record =
        RecoveryRecord::begin("b".repeat(64), "a", &Entry { hash: "h".into(), size: 1 }, None);
    assert!(!record.finished);
    assert_eq!(record.old_hash, None);
    assert!(RecoveryRecord::displaced_as_expected("h", Some("h")));
    assert!(!RecoveryRecord::displaced_as_expected("h", None));
}

#[test]
fn wishes_are_sorted_by_their_state() {
    let wish = |state: Option<&str>, id: &str| LocalRequest {
        state: state.map(str::to_string),
        request_id: Some(id.into()),
        request: Some(ShareRequest {
            request_id: id.into(),
            name: "x".into(),
            mode: SyncMode::ToPc,
        }),
    };
    let all = vec![wish(None, "1"), wish(Some("cancelled"), "2"), wish(Some("pending"), "3")];
    let wishes = session_wishes(&all).unwrap();
    let ids: Vec<&str> = wishes.share_requests.iter().map(|r| r.request_id.as_str()).collect();
    assert_eq!(ids, vec!["1", "3"]);
    assert_eq!(wishes.cancel_intents, vec!["2"]);
    assert_eq!(
        session_wishes(&vec![wish(Some("odd"), "1")]).err(),
        Some(PhoneError::UnknownState)
    );
    let mut broken = wish(None, "1");
    broken.request = None;
    assert_eq!(
        session_wishes(&vec![broken]).err(),
        Some(PhoneError::UnreadableRequest)
    );
    let mut broken = wish(Some("cancelled"), "1");
    broken.request_id = None;
    assert_eq!(session_wishes(&vec![broken]).err(), Some(PhoneError::CancelWithoutId));
    assert_eq!(check_cancelled(true), Err(PhoneError::Cancelled));
    assert_eq!(check_cancelled(false), Ok(()));
}

#[test]
fn the_phone_remembers_between_rounds() {
    let mut tokens = BaseTokens::new();
    let k = key("share", "folder");
    assert_eq!(k, "share|folder");
    tokens.set_base_token(Some(&k), Some("t".into()));
    assert_eq!(tokens.base_token(Some(&k)).as_deref(), Some("t"));
    assert_eq!(tokens.base_token(None), None);
    tokens.set_base_token(None, Some("u".into()));
    tokens.set_base_token(Some(&k), None);
    assert_eq!(tokens.base_token(Some(&k)), None);
    assert!(keeps_connection(Some("a"), "a"));
    assert!(!keeps_connection(Some("a"), "b"));
    assert!(!keeps_connection(None, "a"));
    let mut metrics = StoreMetrics::default();
    add_scan(&mut metrics, 3, 2, 100, true);
    add_scan(&mut metrics, 1, 1, 10, false);
    assert_eq!((metrics.files_enumerated, metrics.files_hashed), (4, 3));
    assert_eq!((metrics.bytes_hashed, metrics.full_scans), (110, 1));
}

#[test]
fn a_call_to_wake_up_is_told_from_the_end_of_a_line() {
    assert_eq!(poll(Buffered::Byte, Line::Closed), Poll::Read(true));
    assert_eq!(poll(Buffered::Nothing, Line::Ready), Poll::Read(false));
    assert_eq!(poll(Buffered::Nothing, Line::Quiet), Poll::Wait);
    assert_eq!(poll(Buffered::Nothing, Line::Closed), Poll::Close);
    assert_eq!(poll(Buffered::Broken, Line::Ready), Poll::Close);
    let call = Message::WakeShare { share_id: "s".into() };
    assert_eq!(wake(Some(call)).as_deref(), Some("s"));
    assert_eq!(wake(Some(Message::Scan)), None);
    assert_eq!(wake(None), None);
}

#[test]
fn the_phone_shows_the_fingerprint_that_the_pc_shows() {
    let app = App::new("/home".into());
    let config = app.pair(None, "10.0.0.1:43821".into()).unwrap();
    let text = app.export_invitation(&config).unwrap();
    let shown = preview(&text, None, "").unwrap();
    assert_eq!(shown.fingerprint, pairing_fingerprint(&config).unwrap());
    assert_eq!(shown.address, "10.0.0.1:43821");
    let moved = preview(&text, None, "10.0.0.9:1").unwrap();
    assert_eq!(moved.address, "10.0.0.9:1");
    assert_ne!(moved.invitation, shown.invitation);
    assert_eq!(
        preview("rowd1:!!", None, "").err(),
        Some(InvitationError::Encoding)
    );
    assert_eq!(
        preview(&text, None, &"a".repeat(3000)).err(),
        Some(InvitationError::Address)
    );
}
