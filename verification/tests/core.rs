use rowd::collections::{Duplicate, StringMap, StringSet};
use rowd::config::{ShareDefinition, SyncMode};
use rowd::ignore::Ignore;
use rowd::invitation::{Invitation, InvitationError, LegacyInvitation};
use rowd::journal::ShareState;
use rowd::managed::{share_queue, LocalDevice, ManagedClient};
use rowd::model::{
    conflict_path, reconcile, validate_cross_peer_namespace, validate_path, Action, Entry,
    INVITATION_VERSION, VERSION,
};
use rowd::protocol::{
    accept, auth_proof, auth_verify, copy_exact, receive, receive_for, receive_manifest, send_for,
    send_manifest, server_auth, Greeting, Message, ProtocolError, StoreMetrics,
};
use rowd::storage::{check_root, hash_reader, RootFault, RootFound, VerifiedStaged};
use rowd::sync::State;
use rowd::trace::{Happening, Trace};

fn entry() -> Entry {
    Entry { hash: "a".repeat(64), size: 1 }
}

fn manifest(paths: &[&str]) -> StringMap<Entry> {
    let mut files = StringMap::new();
    for path in paths {
        files.insert(path.to_string(), entry());
    }
    files
}

fn same_files(a: &StringMap<Entry>, b: &StringMap<Entry>) -> bool {
    a.len() == b.len()
        && (0..a.len()).all(|i| {
            a.key_at(i) == b.key_at(i)
                && a.value_at(i).hash == b.value_at(i).hash
                && a.value_at(i).size == b.value_at(i).size
        })
}

#[test]
fn patterns() {
    let i = Ignore::parse("# comment\n\nnode_modules/\n*.tmp\ndocs/private/\n.git/\n");
    for p in [
        "x/node_modules/a",
        "a.tmp",
        "x/a.tmp",
        "docs/private/a",
        ".git/config",
        ".rowdignore",
    ] {
        assert!(i.matches(p, false), "{p}");
    }
    for p in ["node_modules", "docs/public/a", "a.tmp.txt"] {
        assert!(!i.matches(p, false), "{p}");
    }
}

#[test]
fn exhaustive_reconciliation() {
    let states = [None, Some("a"), Some("b"), Some("c")];
    for base in states {
        for pc in states {
            for android in states {
                let action = reconcile(base, pc, android);
                if pc == android {
                    assert_eq!(action, Action::Nothing);
                } else if pc.is_none() {
                    assert_eq!(action, Action::ToPc);
                } else if android.is_none() {
                    assert_eq!(action, Action::ToAndroid);
                } else if pc == base {
                    assert_eq!(action, Action::ToPc);
                } else if android == base {
                    assert_eq!(action, Action::ToAndroid);
                } else {
                    assert_eq!(action, Action::Conflict);
                }
            }
        }
    }
}

#[test]
fn paths_and_conflict_identity() {
    for path in ["../a", "/a", "a//b", "a/../b", "a\\b", "a\0", "CON", ".rowd/x"] {
        assert!(validate_path(path).is_err(), "{path}");
    }
    validate_path("documentos/ação.txt").unwrap();
    let h = "a".repeat(64);
    assert_eq!(conflict_path("a", &h), conflict_path("a", &h));
    assert_ne!(conflict_path("a", &h), conflict_path("b", &h));
}

#[test]
fn cross_peer_namespace_rejects_file_directory_and_case_collisions() {
    let pc = manifest(&["a"]);
    assert!(validate_cross_peer_namespace(&pc, &manifest(&["a/b.txt"])).is_err());
    assert!(validate_cross_peer_namespace(&pc, &manifest(&["A"])).is_err());
    validate_cross_peer_namespace(&pc, &manifest(&["b/c.txt"])).unwrap();
}

#[test]
fn invitation_round_trip_and_legacy_json_migration() {
    let invitation = Invitation {
        version: INVITATION_VERSION,
        address: "127.0.0.1:43821".into(),
        pair_id: "a".repeat(64),
        cert_der: "bb".repeat(80),
        secret: "c".repeat(64),
    };
    let encoded = invitation.encode().unwrap();
    assert_eq!(Invitation::decode(&encoded, None).unwrap().pair_id, invitation.pair_id);
    assert_eq!(
        Invitation::decode(&encoded, None).unwrap().fingerprint().unwrap().len(),
        64
    );
    let legacy = LegacyInvitation {
        version: VERSION,
        address: invitation.address.clone(),
        pair_id: invitation.pair_id.clone(),
        folder_id: "d".repeat(64),
        cert_der: invitation.cert_der.clone(),
        secret: invitation.secret.clone(),
    };
    assert_eq!(
        Invitation::decode("{\"version\":1}", Some(legacy)).unwrap().version,
        INVITATION_VERSION
    );
    assert!(Invitation::decode(&format!("{encoded}AA"), None).is_err());
    assert!(Invitation::decode("rowd1:!!", None).is_err());
    assert!(Invitation::decode("{}", None).is_err());
}

#[test]
fn bounds_and_truncation() {
    assert!(receive(&u32::MAX.to_be_bytes()).is_err());
    assert!(copy_exact(b"abc", 4).is_err());
}

#[test]
fn proof_is_bound_to_nonce_and_device() {
    let h = "a".repeat(64);
    let other = "b".repeat(64);
    let proof = auth_proof(&h, &h, &h, &h).unwrap();
    assert!(auth_verify(&h, &h, &h, &h, &proof).is_ok());
    assert!(auth_verify(&h, &other, &h, &h, &proof).is_err());
    assert!(auth_verify(&h, &h, &h, &other, &proof).is_err());
}

#[test]
fn chunked_manifest_round_trips_and_rejects_invalid_sequences() {
    let mut files = StringMap::new();
    for index in 0..2050 {
        files.insert(format!("file-{index:05}"), entry());
    }
    let messages = send_manifest("share", &files).unwrap();
    assert!(same_files(&receive_manifest(messages, "share").unwrap(), &files));

    let missing = vec![
        send_for("share", Message::ManifestBegin { count: 1 }),
        send_for("share", Message::ManifestEnd { metrics: StoreMetrics::default() }),
    ];
    assert!(matches!(receive_manifest(missing, "share"), Err(ProtocolError::ExpectedChunk)));

    let mut duplicate = vec![send_for("share", Message::ManifestBegin { count: 2 })];
    for _ in 0..2 {
        duplicate.push(send_for("share", Message::ManifestChunk { files: manifest(&["a"]) }));
    }
    assert!(matches!(
        receive_manifest(duplicate, "share"),
        Err(ProtocolError::DuplicatePath(_))
    ));
    let begin = |count: usize| send_for("share", Message::ManifestBegin { count });
    assert!(matches!(receive_manifest(vec![], "share"), Err(ProtocolError::Ended)));
    assert!(matches!(receive_manifest(vec![begin(1)], "share"), Err(ProtocolError::Ended)));
    assert!(matches!(receive_manifest(vec![begin(1)], "other"), Err(ProtocolError::WrongContext)));
    assert!(matches!(
        receive_manifest(vec![begin(0), begin(0)], "share"),
        Err(ProtocolError::ExpectedEnd)
    ));
    assert!(matches!(
        receive_manifest(vec![Message::Error { message: "no".into() }], "share"),
        Err(ProtocolError::Peer(text)) if text == "no"
    ));
}

#[test]
fn rejects_incompatible_protocol_and_cross_share_messages() {
    let h = "a".repeat(64);
    let hello = Message::Hello { version: 4, pair_id: h.clone(), device_id: h.clone() };
    let Some(Greeting::Refused { reply, error }) = server_auth(hello, &h) else {
        panic!("an old version was welcomed");
    };
    assert!(matches!(error, ProtocolError::Incompatible(4)));
    let Err(ProtocolError::Peer(text)) = accept(reply.unwrap()) else {
        panic!("the peer was not told");
    };
    assert!(text.contains("incompatible protocol"));
    let data = send_for("first", Message::Scan);
    assert!(receive_for(data, "second").is_err());
}

#[test]
fn offline_compaction_and_versioned_ack_survive_restart() {
    let mut s = ShareState::load(None, "share").unwrap();
    for value in ["A", "B", "C", "D"] {
        let (hash, size) = hash_reader(value.as_bytes());
        let mut files = StringMap::new();
        files.insert("a".to_string(), Entry { hash, size });
        s.observe(files);
    }
    let mut s = ShareState::load(Some(s), "share").unwrap();
    assert_eq!(s.pending.len(), 1);
    assert_eq!(s.pending.get("a").unwrap().sequence, 4);
    let last = s.manifest.get("a").unwrap().duplicate();
    let (hash, size) = hash_reader(b"A");
    s.ack("a", &Entry { hash, size });
    assert_eq!(s.pending.len(), 1);
    s.ack("a", &last);
    s.ack("a", &last);
    assert_eq!(s.pending.len(), 0);
    assert!(ShareState::load(Some(s), "different").is_err());
}

#[test]
fn state_is_bound_to_pair_and_folder() {
    let state = State::load(None, "pair", "folder").unwrap();
    assert!(State::load(Some(state), "other", "folder").is_none());
    let state = State::load(None, "pair", "folder").unwrap();
    assert!(State::load(Some(state), "pair", "other").is_none());
}

#[test]
fn verified_staging_carries_the_checked_entry_and_cleans_up() {
    let (hash, size) = hash_reader(b"content");
    let entry = Entry { hash: hash.clone(), size };
    assert!(VerifiedStaged::from_digest("/tmp/a".into(), &entry, &hash, size + 1).is_err());
    let staged = VerifiedStaged::from_digest("/tmp/a".into(), &entry, &hash, size).unwrap();
    assert!(staged.entry().agrees(&entry));
    assert_eq!(staged.path(), "/tmp/a");
}

#[test]
fn existing_share_open_never_creates_a_missing_root() {
    let missing = RootFound { folder: false, canonical: false, private_is_link: false };
    assert_eq!(check_root(false, missing), Err(RootFault::Unavailable));
    assert_eq!(check_root(true, missing), Ok(true));
}

#[test]
fn existing_share_open_rejects_root_redirect() {
    let redirected = RootFound { folder: true, canonical: false, private_is_link: false };
    assert_eq!(check_root(false, redirected), Err(RootFault::Changed));
    let private = RootFound { folder: true, canonical: true, private_is_link: true };
    assert_eq!(check_root(false, private), Err(RootFault::PrivateIsLink));
    let sound = RootFound { folder: true, canonical: true, private_is_link: false };
    assert_eq!(check_root(false, sound), Ok(false));
}

fn share(path: &str) -> ShareDefinition {
    ShareDefinition {
        share_id: "a".repeat(64),
        name: path.into(),
        mode: SyncMode::Bidirectional,
        enabled: true,
        binding_revision: 0,
        ignore_rules: String::new(),
        request_id: None,
        remap_policy: None,
    }
}

fn set(ids: &[&String]) -> StringSet {
    let mut s = StringSet::new();
    for id in ids {
        s.insert(id.to_string());
    }
    s
}

#[test]
fn focused_round_only_selects_dirty_enabled_shares() {
    let first = share("first");
    let mut second = share("second");
    second.share_id = "b".repeat(64);
    let available = vec![first.share_id.clone(), second.share_id.clone()];
    let focus = Some(set(&[&second.share_id]));
    assert_eq!(
        share_queue(&vec![first.clone(), second.clone()], &available, &focus),
        vec![second.share_id.clone()]
    );
    assert_eq!(
        share_queue(&vec![first.clone(), second.clone()], &available, &None).len(),
        2
    );
    second.enabled = false;
    assert!(share_queue(&vec![first, second], &available, &focus).is_empty());

    let shares: Vec<_> = (0..50)
        .map(|index| {
            let mut item = share(&format!("share-{index}"));
            item.share_id = format!("{index:064x}");
            item
        })
        .collect();
    let available: Vec<_> = shares.iter().map(|share| share.share_id.clone()).collect();
    let focus = Some(set(&[&shares[37].share_id]));
    assert_eq!(share_queue(&shares, &available, &focus).len(), 1);
}

#[test]
fn local_device_accepts_remap_without_removing_old_content() {
    let mut device = LocalDevice::open(vec![], StringMap::new(), vec![]);
    device.bind(&"a".repeat(64), "old").unwrap();
    device.configure(&vec![share("old")]).unwrap();
    device.bind(&"a".repeat(64), "new").unwrap();
    device.configure(&vec![share("new")]).unwrap();
    assert_eq!(device.shares()[0].name, "new");
    device.select(&"a".repeat(64)).unwrap();
    assert_eq!(device.active().unwrap().folder, vec!["new".to_string()]);
}

#[test]
fn jsonl_order_and_disabled() {
    let mut trace = Trace::new();
    let what = |name: &'static str, share: Option<&'static str>, bytes: Option<u64>| Happening {
        component: "sync",
        name,
        share_id: share,
        path: share.map(|_| "a"),
        bytes,
        began_us: None,
        detail: None,
    };
    assert!(trace.event(&what("before", None, None), 1, 1).is_none());
    trace.enable("pc", 10);
    let first = trace.event(&what("first", Some("share"), Some(1)), 2, 20).unwrap();
    let second = trace.event(&what("second", Some("share"), None), 3, 30).unwrap();
    assert!(trace.disable());
    assert_eq!(first.event, "first");
    assert_eq!(second.event, "second");
    assert_eq!(first.file_id, second.file_id);
    assert_eq!(first.file_id.as_deref().map(str::len), Some(16));
    assert!(first.elapsed_us <= second.elapsed_us);
    assert_eq!((first.elapsed_us, second.elapsed_us), (10, 20));
    assert_eq!(first.side, "pc");
    assert!(trace.event(&what("after", None, None), 4, 40).is_none());
    assert!(!trace.disable());
}

#[test]
fn a_damaged_invitation_is_refused() {
    let invitation = |address: &str, cert: &str, pair: &str, version: u32| Invitation {
        version,
        address: address.into(),
        pair_id: pair.into(),
        cert_der: cert.into(),
        secret: "c".repeat(64),
    };
    let h = "a".repeat(64);
    let fault = |i: Invitation| i.validate().err();
    assert_eq!(fault(invitation("x", "bb", &h, 1)), Some(InvitationError::Version));
    assert_eq!(fault(invitation("x", "bb", "a", 2)), Some(InvitationError::Hash));
    assert_eq!(fault(invitation("", "bb", &h, 2)), Some(InvitationError::Address));
    assert_eq!(fault(invitation("x", "b", &h, 2)), Some(InvitationError::CertificateText));
    assert_eq!(fault(invitation("x", "", &h, 2)), Some(InvitationError::CertificateEmpty));
    assert_eq!(
        fault(invitation("x", &"b".repeat(16_386), &h, 2)),
        Some(InvitationError::CertificateTooLarge)
    );
    assert_eq!(
        Invitation::parse(&vec![]).err(),
        Some(InvitationError::Truncated)
    );
    assert_eq!(Invitation::parse(&vec![1]).err(), Some(InvitationError::Layout));
    assert_eq!(
        Invitation::decode("rowd1:!!", None).err(),
        Some(InvitationError::Encoding)
    );
    assert_eq!(
        Invitation::decode("{}", None).err(),
        Some(InvitationError::Unreadable)
    );
}
