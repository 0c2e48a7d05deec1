use base64::Engine;
use rowd::app::{
    archive_derived_state, blank, can_show_device, fresh_identity, identity_of, journal_path,
    pairing_fingerprint, pending_share_requests,
    published_address, read_ignore, runtime_path, state_path, App, FoundVersion, Identity,
    LegacyConfig, PolicyFile, RecoveryError, RecoveryItem, ShareFacts, ShareRuntime,
};
use rowd::backup::{
    check_state, crypt_key, decrypt_backup, encrypt_backup, invitation, is_tls_identity,
    plan_import_given, safe_state_path, seal_with, state_text, BackupError, FullBackup,
    PublicProfile, Target, MAX_STATE_FILE,
};
use rowd::collections::{Duplicate, StringMap, StringSet};
use rowd::config::{RemapPolicy, ShareRequest, SyncMode};
use rowd::device::{
    fresh_share, is_sound_name, DeviceConfig, DeviceError, Root, CURRENT_DEVICE_VERSION,
};
use rowd::ignore::Ignore;
use rowd::migration::{
    backup_config, ignore_backup_name, migrate_legacy_ignore, recover_import, sort_requests,
    ImportStep, Place, StateField, StoredRequest,
};
use rowd::model::{Entry, INVITATION_VERSION};
use rowd::paths::{child, is_within, last_part, overlaps, path_parts, relative};
use rowd::primitives::{id_of, random_id};
use rowd::storage::{
    recovery_entries, Hint, InstallPlan, LocalStore, RecoveryAction, RecoveryEntry,
    RecoveryRecord, StoreError, VerifiedStaged,
};
use serde_json::Value;

fn config() -> DeviceConfig {
    let id = Identity {
        pair_id: String::new(),
        cert: String::new(),
        key: String::new(),
        secret: String::new(),
    };
    blank(String::new(), String::new(), id)
}

fn folder(path: &str) -> Root {
    Root::Folder(path.into())
}

fn configured() -> (App, DeviceConfig) {
    let app = App::new("/home/config".into());
    let config = app.pair(None, "127.0.0.1:43821".into()).unwrap();
    (app, config)
}

#[test]
fn shares_keep_identity_and_reject_overlaps() {
    let home = "/home/config";
    let mut config = config();
    let id = config
        .add_share(home, "Fotos".into(), folder("/home/Pictures"), SyncMode::default())
        .unwrap();
    assert!(config
        .add_share(home, "Camera".into(), folder("/home/Pictures/Camera"), SyncMode::default())
        .is_err());
    config
        .add_share(home, "Docs".into(), folder("/home/Documents"), SyncMode::default())
        .unwrap();
    config.save().unwrap();
    let reloaded = DeviceConfig::load(config, &vec![], &vec![true, true]).unwrap().config;
    assert_eq!(reloaded.shares.len(), 2);
    assert_eq!(reloaded.shares[0].share_id, id);
}

#[test]
fn a_folder_is_refused_with_its_reason() {
    let home = "/home/config";
    let mut c = config();
    let fault = |c: &mut DeviceConfig, name: &str, root: Root| {
        c.add_share(home, name.into(), root, SyncMode::ToPc).err().unwrap()
    };
    assert!(matches!(fault(&mut c, "x", Root::Missing), DeviceError::MissingRoot));
    assert!(matches!(fault(&mut c, "x", Root::Other), DeviceError::NotADirectory));
    assert!(matches!(fault(&mut c, "", folder("/a")), DeviceError::InvalidName));
    assert!(matches!(fault(&mut c, "x", folder("/a/.rowd")), DeviceError::InternalDirectory));
    assert!(matches!(fault(&mut c, "x", folder("/home")), DeviceError::OverlapsHome));
    assert!(matches!(
        fault(&mut c, "x", folder("/home/config/a")),
        DeviceError::OverlapsHome
    ));
    c.add_share(home, "first".into(), folder("/a"), SyncMode::ToPc).unwrap();
    let DeviceError::OverlapsShare(name) = fault(&mut c, "x", folder("/a/b")) else {
        panic!("an overlap went unnoticed");
    };
    assert_eq!(name, "first");
    assert!(matches!(c.remove_share("nothing"), Err(DeviceError::UnknownShare)));
    assert!(is_sound_name("Fotos de família"));
    assert!(!is_sound_name("a\nb"));
}

#[test]
fn v2_configuration_migrates_and_is_backed_up() {
    let mut config = config();
    config.version = 2;
    let loaded = DeviceConfig::load(config, &vec![], &vec![]).unwrap();
    assert_eq!(loaded.config.version, CURRENT_DEVICE_VERSION);
    assert!(loaded.label.is_some());
    let plan = backup_config(&loaded.label.unwrap(), 17, &StringSet::new()).unwrap();
    assert!(plan.file.starts_with("17-"));
    assert!(plan.file.ends_with(".json"));
    assert!(plan.remove.is_empty());
}

#[test]
fn an_unknown_version_is_refused() {
    let mut newer = config();
    newer.version = CURRENT_DEVICE_VERSION + 1;
    assert!(matches!(
        DeviceConfig::load(newer, &vec![], &vec![]),
        Err(DeviceError::UnsupportedVersion(_))
    ));
}

#[test]
fn legacy_ignore_migrates_once_and_waits_for_an_offline_root() {
    let home = "/home/config";
    let mut config = config();
    config.version = 6;
    config.add_share(home, "Docs".into(), folder("/share"), SyncMode::Bidirectional).unwrap();
    config.shares[0].legacy_ignore = "secret/\n*.tmp\n".into();
    config.save().unwrap();
    let waiting = DeviceConfig::load(config.duplicate(), &vec![], &vec![false]).unwrap();
    assert_eq!(waiting.config.version, 6);
    assert!(!waiting.config.shares[0].legacy_ignore.is_empty());
    assert!(waiting.moves.is_empty());
    let migrated = DeviceConfig::load(waiting.config, &vec![], &vec![true]).unwrap();
    assert_eq!(migrated.config.version, CURRENT_DEVICE_VERSION);
    assert!(migrated.config.shares[0].legacy_ignore.is_empty());
    assert_eq!(migrated.moves.len(), 1);
    assert_eq!(migrated.moves[0].root, "/share");
    let policy = migrate_legacy_ignore("existing/\n", &migrated.moves[0].rules);
    assert_eq!(policy, "existing/\nsecret/\n*.tmp\n");
    assert_eq!(migrate_legacy_ignore(&policy, &migrated.moves[0].rules), policy);
    assert_eq!(
        ignore_backup_name("existing/\n"),
        "before-migration-9bd1c55ccaaa65ec7d3a13bba6c9cd3ce3e3ad86d7ed39dd30e9b0f7f3ad52d3.txt"
            .replace(
                "9bd1c55ccaaa65ec7d3a13bba6c9cd3ce3e3ad86d7ed39dd30e9b0f7f3ad52d3",
                &rowd::storage::hash_reader(b"existing/\n").0
            )
    );
}

#[test]
fn ignore_migration_rejects_symlinked_policy_and_backup_directory() {
    assert!(matches!(read_ignore(PolicyFile::Link), Err(DeviceError::PolicyIsLink)));
    assert!(matches!(read_ignore(PolicyFile::NoFolder), Err(DeviceError::RootUnavailable)));
    assert!(matches!(read_ignore(PolicyFile::Moved), Err(DeviceError::RootChanged)));
    assert_eq!(read_ignore(PolicyFile::Missing).unwrap(), "");
    assert_eq!(read_ignore(PolicyFile::Text("private/\n".into())).unwrap(), "private/\n");
}

#[test]
fn local_store_rejects_symlinked_ignore_policy() {
    assert!(read_ignore(PolicyFile::Link).is_err());
}

#[test]
fn rejected_request_migrates_to_temporary_payload_tombstone() {
    let request = ShareRequest {
        request_id: random_id().unwrap(),
        name: "Camera".into(),
        mode: SyncMode::ToPc,
    };
    let stored = |state: &str| {
        vec![StoredRequest { request: request.clone(), state: StateField::Text(state.into()) }]
    };
    let mut old = config();
    old.version = 7;
    let migrated = DeviceConfig::load(old.duplicate(), &stored("rejected"), &vec![]).unwrap();
    assert_eq!(migrated.config.version, CURRENT_DEVICE_VERSION);
    assert!(migrated.config.share_requests.is_empty());
    assert_eq!(migrated.config.rejected_requests[0].name, "Camera");
    assert!(matches!(
        DeviceConfig::load(old, &stored("accepted"), &vec![]),
        Err(DeviceError::AmbiguousRequest)
    ));
    let plain = vec![StoredRequest { request: request.clone(), state: StateField::Absent }];
    let (open, refused, changed) = sort_requests(&plain, &vec![]).unwrap();
    assert_eq!((open.len(), refused.len(), changed), (1, 0, false));
}

#[test]
fn old_copies_of_the_configuration_go_away() {
    let mut present = StringSet::new();
    for n in 10..20 {
        present.insert(format!("{n}-before-change.json"));
    }
    present.insert("notes.txt".into());
    let plan = backup_config("before-change", 20, &present).unwrap();
    assert_eq!(plan.file, "20-before-change.json");
    assert_eq!(
        plan.remove,
        vec!["10-before-change.json", "11-before-change.json", "12-before-change.json"]
    );
    assert!(matches!(
        backup_config("a b", 1, &StringSet::new()),
        Err(DeviceError::InvalidLabel)
    ));
}

#[test]
fn interrupted_backup_import_recovers_the_matching_generation() {
    let generation = "a".repeat(64);
    for (boundary, archived, state, committed, expected) in [
        ("before_rename", false, Place::Folder, false, ImportStep::Keep),
        ("after_archive", true, Place::Empty, false, ImportStep::Restore),
        ("after_stage", true, Place::Folder, false, ImportStep::AbortAndRestore),
        ("after_config", true, Place::Folder, true, ImportStep::Keep),
    ] {
        let configured = if committed { Some(generation.clone()) } else { None };
        assert_eq!(
            recover_import(&generation, true, &configured, archived, state).unwrap(),
            expected,
            "{boundary}"
        );
    }
    assert!(matches!(
        recover_import("short", true, &None, false, Place::Folder),
        Err(DeviceError::InvalidIdentity)
    ));
    assert!(matches!(
        recover_import(&generation, true, &None, false, Place::Empty),
        Err(DeviceError::PreviousStateMissing)
    ));
    let named = Some(generation.clone());
    assert!(matches!(
        recover_import(&generation, true, &named, true, Place::Other),
        Err(DeviceError::ImportedStateMissing)
    ));
    assert_eq!(
        recover_import(&generation, false, &None, false, Place::Folder).unwrap(),
        ImportStep::Abort
    );
}

#[test]
fn snapshots_and_pairing_are_derived() {
    let empty = App::new("/home/empty".into());
    let snapshot = empty.snapshot(None, None, &vec![], vec![]).unwrap();
    assert!(!snapshot.device.configured);
    assert!(snapshot.shares.is_empty());
    let (app, config) = configured();
    let snapshot = app.snapshot(Some(&config), None, &vec![], vec![]).unwrap();
    assert!(snapshot.device.configured);
    let (pairing, svg) = app.pairing_info(&config, None).unwrap();
    assert_eq!(pairing.device.fingerprint, snapshot.device.fingerprint);
    assert_eq!(pairing.device.fingerprint.len(), 95);
    assert!(!pairing.qr.is_empty());
    assert!(pairing.qr.lines().count() > 20);
    assert!(svg.contains("<svg"));
    assert_eq!(pairing.qr_image, "/home/config/.rowd/pairing.svg");
}

#[test]
fn compact_pairing_payload_keeps_every_credential() {
    let (app, config) = configured();
    let payload = app.export_invitation(&config).unwrap();
    let encoded = payload.trim().strip_prefix("rowd1:").unwrap();
    let bytes = base64::engine::general_purpose::URL_SAFE_NO_PAD.decode(encoded).unwrap();
    assert_eq!(bytes[0], 2);
    assert_eq!(u32::from_be_bytes(bytes[1..5].try_into().unwrap()), INVITATION_VERSION);
    let invite = invitation(&config);
    let json = invite.address.len()
        + invite.pair_id.len()
        + invite.cert_der.len()
        + invite.secret.len();
    assert!(payload.len() < json);
    for credential in [&config.pair_id, &config.secret] {
        let credential = hex::decode(credential).unwrap();
        assert!(bytes
            .windows(credential.len())
            .any(|window| window == credential.as_slice()));
    }
}

#[test]
fn an_identity_keeps_its_parts_apart() {
    let id = identity_of(&vec![0xAB, 1], &vec![0xCD], "pair".into(), "secret".into()).unwrap();
    assert_eq!((id.cert.as_str(), id.key.as_str()), ("ab01", "cd"));
    assert_eq!((id.pair_id.as_str(), id.secret.as_str()), ("pair", "secret"));
    assert_eq!(id_of(&[0x0F; 32]), "0f".repeat(32));
    let drawn = fresh_identity().unwrap();
    assert_ne!(drawn.pair_id, drawn.secret);
    assert_eq!(drawn.cert, drawn.cert.to_lowercase());
    assert!(is_tls_identity(&drawn.cert, &drawn.key));
    assert!(!is_tls_identity(&drawn.key, &drawn.cert));
}

#[test]
fn a_report_tells_nothing_of_the_credentials() {
    let (app, mut config) = configured();
    app.add_share(&mut config, "Docs".into(), folder("/share"), SyncMode::ToPc).unwrap();
    let facts = || {
        let mut conflicts = StringSet::new();
        conflicts.insert("b".to_string());
        conflicts.insert("a".to_string());
        vec![ShareFacts { root_available: true, state: Ok((conflicts, Some(3))), runtime: None }]
    };
    let report = |config: &DeviceConfig| {
        let report = app.export_diagnostic(config, app.status(config, &facts()), &vec![]);
        let shares = format!("{:?}", report.shares);
        (shares, report.protocol_version, report.paired, report.sync_paused)
    };
    let mut other = config.duplicate();
    other.secret = "0".repeat(64);
    other.key = "00".into();
    other.cert = "11".into();
    assert_eq!(report(&config), report(&other));
    let shares = report(&config).0;
    assert!(shares.contains("Docs"));
    for part in [&config.secret, &config.key, &config.cert] {
        assert!(!shares.contains(part.as_str()));
    }
}

#[test]
fn a_fresh_identity_can_be_used_for_tls() {
    let id = fresh_identity().unwrap();
    assert!(is_tls_identity(&id.cert, &id.key));
    assert!(!is_tls_identity(&id.cert, &id.cert));
    assert!(!is_tls_identity("zz", &id.key));
    let other = fresh_identity().unwrap();
    assert!(!is_tls_identity(&id.cert, &other.key));
    assert_ne!(id.pair_id, other.pair_id);
    assert_eq!(id.pair_id.len(), 64);
    let (_, config) = configured();
    let colons = pairing_fingerprint(&config).unwrap();
    let der = hex::decode(&config.cert).unwrap();
    assert_eq!(colons.replace(':', ""), rowd::storage::hash_reader(&der).0);
}

fn target(policy: &str) -> Target {
    Target { root: folder("/share"), policy: Some(policy.into()) }
}

#[test]
fn encrypted_backup_round_trip_restores_administrative_state() {
    let (app, mut config) = configured();
    app.add_share(&mut config, "Docs".into(), folder("/share"), SyncMode::Bidirectional)
        .unwrap();
    app.set_sync_paused(&mut config, true).unwrap();
    let backup =
        app.export_backup(&config, StringMap::new(), &vec![Some("*.tmp\n".into())]).unwrap();
    let plain = b"the backup as it is written".to_vec();
    let sealed = encrypt_backup(&plain, "correct horse").unwrap();
    assert_ne!(sealed.ciphertext, hex::encode(&plain));
    assert!(matches!(
        decrypt_backup(&sealed, "wrong passphrase"),
        Err(BackupError::CannotOpen)
    ));
    assert_eq!(decrypt_backup(&sealed, "correct horse").unwrap(), plain);

    let error = app.import_backup(&backup, 100, &vec![target("changed/\n")]).err().unwrap();
    assert!(matches!(error, BackupError::DifferentPolicy));
    let restored = app.import_backup(&backup, 100, &vec![target("*.tmp\n")]).unwrap().config;
    assert!(restored.sync_paused);
    assert!(restored.shares[0].enabled);
}

#[test]
fn the_key_of_a_backup_is_the_known_one() {
    let key = crypt_key("password", b"0123456789abcdef").unwrap();
    assert_eq!(key.len(), 32);
    assert_eq!(key, crypt_key("password", b"0123456789abcdef").unwrap());
    assert_ne!(key, crypt_key("password", b"fedcba9876543210").unwrap());
    assert_ne!(key, crypt_key("passwore", b"0123456789abcdef").unwrap());
    assert!(matches!(crypt_key("short", b"0123"), Err(BackupError::ShortPassphrase)));
    let a = seal_with(&b"x".to_vec(), "password", &vec![1; 16], &vec![2; 12]).unwrap();
    let b = seal_with(&b"x".to_vec(), "password", &vec![1; 16], &vec![2; 12]).unwrap();
    assert_eq!(a.ciphertext, b.ciphertext);
    assert_eq!(a.salt, "01".repeat(16));
    assert_eq!(a.nonce, "02".repeat(12));
    let mut damaged = b;
    damaged.ciphertext.replace_range(0..2, "zz");
    assert!(matches!(
        decrypt_backup(&damaged, "password"),
        Err(BackupError::InvalidText)
    ));
    damaged.salt = "01".into();
    damaged.ciphertext = a.ciphertext.clone();
    assert!(matches!(
        decrypt_backup(&damaged, "password"),
        Err(BackupError::InvalidSalt)
    ));
    damaged.salt = a.salt.clone();
    damaged.nonce = "01".into();
    assert!(matches!(
        decrypt_backup(&damaged, "password"),
        Err(BackupError::InvalidNonce)
    ));
    damaged.format = 9;
    assert!(matches!(
        decrypt_backup(&damaged, "password"),
        Err(BackupError::UnsupportedFormat)
    ));
}

#[test]
fn failed_backup_materialization_preserves_active_state() {
    let (app, mut config) = configured();
    let id = app
        .add_share(&mut config, "Docs".into(), folder("/share"), SyncMode::Bidirectional)
        .unwrap();
    let mut state = StringMap::new();
    state.insert("../outside".to_string(), hex::encode(b"file"));
    let mut ignore_policies = StringMap::new();
    ignore_policies.insert(id.clone(), String::new());
    let backup =
        FullBackup { version: 2, config: config.duplicate(), state, ignore_policies };
    assert!(matches!(
        app.import_backup(&backup, 100, &vec![target("")]),
        Err(BackupError::InvalidPath)
    ));
    assert_eq!(config.shares[0].share_id, id);
}

#[test]
fn stored_state_is_bounded() {
    assert!(safe_state_path("a/base.json").is_ok());
    for path in ["", "/a", "../a", "a/../b"] {
        assert!(safe_state_path(path).is_err(), "{path}");
    }
    let mut state = StringMap::new();
    state.insert("a".to_string(), hex::encode(b"x"));
    assert!(check_state(&state).is_ok());
    for n in 0..4096 {
        state.insert(format!("{n}"), String::new());
    }
    assert!(matches!(check_state(&state), Err(BackupError::TooManyFiles)));
    assert!(state_text(&vec![0; MAX_STATE_FILE + 1]).is_err());
    assert_eq!(state_text(&b"x".to_vec()).unwrap(), "78");
}

#[test]
fn profile_import_invalidates_state_when_share_root_changes() {
    let (app, mut config) = configured();
    let id = app
        .add_share(&mut config, "Docs".into(), folder("/share"), SyncMode::Bidirectional)
        .unwrap();
    let mut profile = app.export_profile(&config, &vec![Some(String::new())]).unwrap();
    profile.shares[0].root = "/new-root".into();
    let targets = vec![Target { root: folder("/new-root"), policy: Some(String::new()) }];
    let moved = app.import_profile(&mut config, &profile, &targets).unwrap();
    assert_eq!(moved, vec![id.clone()]);
    assert_eq!(config.shares[0].root, "/new-root");
    let renames =
        archive_derived_state(app.home(), &id, "profile-import", 5).unwrap();
    assert!(renames.iter().any(|(from, to)| from.ends_with("/base.json")
        && to.contains("base.json.profile-import-")));
}

#[test]
fn old_ui_fields_are_accepted_without_touching_local_preferences() {
    let (app, mut config) = configured();
    let before = config.duplicate();
    let profile = app.export_profile(&config, &vec![]).unwrap();
    let mut written = serde_json::Map::new();
    written.insert("version".into(), profile.version.into());
    written.insert("shares".into(), Value::Array(vec![]));
    written.insert("sync_paused".into(), profile.sync_paused.into());
    assert!(!written.contains_key("ui"));
    let read = with_old_ui(written);
    let profile = PublicProfile {
        version: read["version"].as_u64().unwrap() as u32,
        shares: vec![],
        sync_paused: read["sync_paused"].as_bool().unwrap(),
    };
    assert!(app.import_profile(&mut config, &profile, &vec![]).unwrap().is_empty());
    assert_same(&config, &before);

    let backup = app.export_backup(&config, StringMap::new(), &vec![]).unwrap();
    let mut inner = serde_json::Map::new();
    inner.insert("version".into(), backup.config.version.into());
    for (name, text) in [
        ("address", &backup.config.address),
        ("listen", &backup.config.listen),
        ("pair_id", &backup.config.pair_id),
        ("cert", &backup.config.cert),
        ("key", &backup.config.key),
        ("secret", &backup.config.secret),
    ] {
        inner.insert(name.into(), text.clone().into());
    }
    let mut written = serde_json::Map::new();
    written.insert("version".into(), backup.version.into());
    written.insert("config".into(), Value::Object(inner));
    let plain = serde_json::to_vec(&Value::Object(written)).unwrap();
    let sealed = encrypt_backup(&plain, "passphrase").unwrap();
    let opened = decrypt_backup(&sealed, "passphrase").unwrap();
    assert_eq!(opened, plain);
    let legacy: Value = serde_json::from_slice(&opened).unwrap();
    assert!(legacy.get("ui").is_none());
    let legacy = with_old_ui(legacy.as_object().unwrap().clone());
    let sealed = encrypt_backup(&serde_json::to_vec(&legacy).unwrap(), "passphrase").unwrap();
    let opened = decrypt_backup(&sealed, "passphrase").unwrap();
    let read: Value = serde_json::from_slice(&opened).unwrap();
    assert_eq!(read["ui"]["legacy"], Value::Bool(true));
    let text = |name: &str| read["config"][name].as_str().unwrap().to_string();
    let id = Identity {
        pair_id: text("pair_id"),
        cert: text("cert"),
        key: text("key"),
        secret: text("secret"),
    };
    let mut stored = blank(text("address"), text("listen"), id);
    stored.version = read["config"]["version"].as_u64().unwrap() as u32;
    let backup = FullBackup {
        version: read["version"].as_u64().unwrap() as u32,
        config: stored,
        state: StringMap::new(),
        ignore_policies: StringMap::new(),
    };
    let plan = app.import_backup(&backup, opened.len() as u64, &vec![]).unwrap();
    assert!(plan.files.is_empty());
    assert!(plan.config.import_generation.is_some());
    assert_same(&plan.config, &before);
}

/// What an older version wrote: the settings of its user interface with it.
fn with_old_ui(mut written: serde_json::Map<String, Value>) -> Value {
    let mut ui = serde_json::Map::new();
    ui.insert("legacy".into(), true.into());
    written.insert("ui".into(), Value::Object(ui));
    let bytes = serde_json::to_vec(&Value::Object(written)).unwrap();
    serde_json::from_slice(&bytes).unwrap()
}

fn assert_same(config: &DeviceConfig, before: &DeviceConfig) {
    assert_eq!(config.version, before.version);
    assert_eq!(config.address, before.address);
    assert_eq!(config.listen, before.listen);
    assert_eq!(config.pair_id, before.pair_id);
    assert_eq!(config.cert, before.cert);
    assert_eq!(config.key, before.key);
    assert_eq!(config.secret, before.secret);
    assert_eq!(config.peer_device, before.peer_device);
    assert_eq!(config.shares.len(), before.shares.len());
    assert_eq!(config.share_requests.len(), before.share_requests.len());
    assert_eq!(config.rejected_requests.len(), before.rejected_requests.len());
    assert_eq!(config.sync_paused, before.sync_paused);
    assert_eq!(config.pending_unlink, before.pending_unlink);
}

#[test]
fn an_identity_that_is_not_taken_is_no_identity() {
    let (app, mut config) = configured();
    app.add_share(&mut config, "Docs".into(), folder("/share"), SyncMode::ToPc).unwrap();
    let backup = app.export_backup(&config, StringMap::new(), &vec![Some(String::new())]).unwrap();
    assert!(matches!(
        plan_import_given(&backup, app.home(), &vec![target("")], false),
        Err(BackupError::InvalidIdentity)
    ));
    assert!(matches!(
        app.import_backup_given(&backup, &vec![target("")], false),
        Err(BackupError::InvalidIdentity)
    ));
    let plan = plan_import_given(&backup, app.home(), &vec![target("")], true).unwrap();
    assert_same(&plan.config, &config);
    assert!(plan.config.import_generation.is_none());
    let plan = app.import_backup_given(&backup, &vec![target("")], true).unwrap();
    assert_same(&plan.config, &config);
    assert_eq!(plan.config.import_generation.unwrap().len(), 64);
    let mut other = FullBackup {
        version: backup.version,
        config: backup.config.duplicate(),
        state: StringMap::new(),
        ignore_policies: backup.ignore_policies.duplicate(),
    };
    other.config.cert = "00".into();
    assert!(matches!(
        app.import_backup(&other, 100, &vec![target("")]),
        Err(BackupError::InvalidIdentity)
    ));
    assert!(matches!(
        app.import_backup(&backup, u64::MAX, &vec![target("")]),
        Err(BackupError::FileTooLarge)
    ));
    for tls_ok in [true, false] {
        let test = app.connection_test_given(&config, true, true, tls_ok, &vec![true]);
        assert_eq!(test.checks[2].ok, tls_ok);
        let said = if tls_ok { "certificado e chave válidos" } else { "identidade TLS inválida" };
        assert_eq!(test.checks[2].detail, said);
    }
}

#[test]
fn a_phone_is_shown_by_twelve_bytes_of_its_identity() {
    let (app, mut config) = configured();
    let shown = |config: &DeviceConfig| {
        assert!(can_show_device(config));
        app.connection_test_given(config, true, true, true, &vec![]).checks[4].detail.clone()
    };
    assert_eq!(shown(&config), "nenhum");
    for (id, expected) in [
        ("0123456789abcdef", "0123456789ab…"),
        ("short", "short…"),
        ("", "…"),
        ("ééééééé", "éééééé…"),
    ] {
        config.peer_device = Some(id.into());
        assert_eq!(shown(&config), expected);
    }
    config.peer_device = Some("01234567890é".into());
    assert!(!can_show_device(&config));
}

#[test]
fn an_address_that_no_invitation_takes_is_refused() {
    let app = App::new("/home/config".into());
    assert!(matches!(
        app.pair(None, String::new()),
        Err(DeviceError::InvalidInvitation)
    ));
    assert!(matches!(
        app.pair(None, "a".repeat(2049)),
        Err(DeviceError::InvalidInvitation)
    ));
}

#[test]
fn a_decision_settles_a_version() {
    let id = "c".repeat(64);
    for (action, settled) in [
        (RecoveryAction::Keep, true),
        (RecoveryAction::Restore, true),
        (RecoveryAction::Export, false),
    ] {
        let mut r = record(&id, false);
        r.resolved(action);
        assert_eq!(r.finished, settled);
        assert_eq!(r.cleanup_recovery(&id).is_ok(), settled);
        assert_eq!((r.path.as_str(), r.backup.as_str()), ("a", id.as_str()));
        assert_eq!((r.new_hash, r.old_hash), (Some("d".repeat(64)), None));
        let mut r = record(&id, true);
        r.resolved(action);
        assert!(r.finished);
    }
    let (hash, size) = rowd::storage::hash_reader(b"now");
    let now = Entry { hash: hash.clone(), size };
    assert_eq!(RecoveryRecord::replaced_by_restore(Some(&now)), Some(hash));
    assert_eq!(RecoveryRecord::replaced_by_restore(None), None);
}

#[test]
fn restored_version_replaces_the_present_one() {
    let entry = |bytes: &[u8]| {
        let (hash, size) = rowd::storage::hash_reader(bytes);
        Entry { hash, size }
    };
    let (now, back) = (entry(b"now"), entry(b"back"));
    let store = LocalStore::open(None, String::new(), None, Hint::Absent);
    let staged =
        VerifiedStaged::from_digest("staged".into(), &back, &back.hash, back.size).unwrap();
    let plan = |current: Option<&Entry>| {
        let expected = RecoveryRecord::replaced_by_restore(current);
        store.plan_install("a", expected.as_deref(), &back, &staged, back.size, current).unwrap()
    };
    assert!(matches!(plan(Some(&now)), InstallPlan::Replace));
    assert!(matches!(plan(None), InstallPlan::Create));
    assert!(matches!(plan(Some(&back)), InstallPlan::AlreadyThere));
}

#[test]
fn merged_rules_leave_alone_what_either_left_alone() {
    let merged = migrate_legacy_ignore("build/\n*.log", "# old\n\ntmp/\n*.log\n");
    assert_eq!(merged, "build/\n*.log\ntmp/\n");
    let both = Ignore::parse(&merged);
    for path in ["build/a", "x.log", "tmp/b"] {
        assert!(both.matches(path, false), "{path}");
    }
    assert!(!both.matches("kept", false));
}

#[test]
fn remap_invalidates_binding_without_a_fake_android_path() {
    let (app, mut config) = configured();
    let id = app
        .add_share(&mut config, "Docs".into(), folder("/share"), SyncMode::Bidirectional)
        .unwrap();
    let before = config.duplicate();
    assert_eq!(before.shares[0].binding_revision, 0);
    app.remap_share(&mut config, &id, RemapPolicy::Compare, folder("/share")).unwrap();
    assert_eq!(config.shares[0].binding_revision, 1);
    assert_eq!(config.shares[0].remap_policy, Some(RemapPolicy::Compare));
    assert_eq!(config.shares[0].root, before.shares[0].root);
}

#[test]
fn rejected_request_remains_a_tombstone_until_acknowledged() {
    let (app, mut config) = configured();
    let request_id = random_id().unwrap();
    config.share_requests.push(ShareRequest {
        request_id: request_id.clone(),
        name: "Camera".into(),
        mode: SyncMode::ToPc,
    });
    assert_eq!(pending_share_requests(&config)[0].request_id, request_id);
    app.reject_share_request(&mut config, &request_id).unwrap();
    assert!(app.share_requests(&config).is_empty());
    assert!(pending_share_requests(&config).is_empty());
    assert_eq!(config.rejected_requests[0].request_id, request_id);
    assert!(matches!(
        app.reject_share_request(&mut config, &request_id),
        Err(DeviceError::RequestNotFound)
    ));
}

#[test]
fn an_accepted_request_becomes_a_share() {
    let (app, mut config) = configured();
    let request_id = random_id().unwrap();
    config.share_requests.push(ShareRequest {
        request_id: request_id.clone(),
        name: "Camera".into(),
        mode: SyncMode::ToPc,
    });
    assert!(app.accept_share_request(&mut config, &request_id, Root::Missing).is_err());
    assert_eq!(config.share_requests.len(), 1);
    app.accept_share_request(&mut config, &request_id, folder("/camera")).unwrap();
    assert!(config.share_requests.is_empty());
    assert_eq!(config.shares[0].name, "Camera");
    assert_eq!(config.shares[0].mode, SyncMode::ToPc);
    assert_eq!(config.shares[0].request_id, Some(request_id));
}

#[test]
fn a_revoked_phone_is_forgotten() {
    let (app, mut config) = configured();
    let secret = config.secret.clone();
    assert!(matches!(
        app.unlink_device(&mut config),
        Err(DeviceError::NothingPaired)
    ));
    config.peer_device = Some("b".repeat(64));
    app.unlink_device(&mut config).unwrap();
    assert!(config.pending_unlink);
    app.revoke_device(&mut config).unwrap();
    assert!(config.peer_device.is_none());
    assert!(!config.pending_unlink);
    assert_ne!(config.secret, secret);
}

#[test]
fn a_configuration_of_the_first_version_is_taken_over() {
    let (app, config) = configured();
    let old = LegacyConfig {
        version: 1,
        root: "/legacy".into(),
        pair_id: config.pair_id.clone(),
        folder_id: "d".repeat(64),
        cert: config.cert.clone(),
        key: config.key.clone(),
        secret: config.secret.clone(),
    };
    let c = app
        .migrate(&old, false, "/legacy", folder("/legacy"), None, "127.0.0.1:43821".into())
        .unwrap();
    assert_eq!(c.shares[0].name, "legacy");
    assert_eq!(c.shares[0].share_id, "d".repeat(64));
    assert_eq!(c.pair_id, config.pair_id);
    assert!(matches!(
        app.migrate(&old, true, "/legacy", folder("/legacy"), None, "x".into()),
        Err(DeviceError::AlreadyConfigured)
    ));
    assert!(matches!(
        app.migrate(&old, false, "/other", folder("/other"), None, "x".into()),
        Err(DeviceError::LegacyMoved)
    ));
}

#[test]
fn addresses_are_published() {
    let local = Some("192.168.0.7".to_string());
    assert_eq!(published_address("10.0.0.1:1", false, &local, 1).unwrap(), "10.0.0.1:1");
    assert_eq!(
        published_address("0.0.0.0:43821", true, &local, 43821).unwrap(),
        "192.168.0.7:43821"
    );
    assert!(matches!(
        published_address("0.0.0.0:43821", true, &None, 43821),
        Err(DeviceError::NoLocalAddress)
    ));
}

#[test]
fn what_is_shown_of_a_share_is_what_was_found() {
    let (app, mut config) = configured();
    app.add_share(&mut config, "Docs".into(), folder("/share"), SyncMode::ToPc).unwrap();
    let mut runtime = ShareRuntime { last_error: None, last_sync: None };
    runtime.record(5, "sync", "no route");
    runtime.resolve(9);
    let mut conflicts = StringSet::new();
    conflicts.insert("b".into());
    conflicts.insert("a".into());
    let facts = vec![ShareFacts {
        root_available: true,
        state: Ok((conflicts, Some(3))),
        runtime: Some(runtime),
    }];
    let status = app.status(&config, &facts);
    assert_eq!(status[0].conflicts, vec!["a", "b"]);
    assert_eq!(status[0].last_sync, Some(9));
    let error = status[0].last_error.as_ref().unwrap();
    assert_eq!((error.at, error.resolved_at), (5, Some(9)));
    assert!(status[0].error.is_none());
    let share = &config.shares[0];
    let base = state_path(app.home(), share);
    assert!(base.ends_with(&format!(".rowd/shares/{}/base.json", share.share_id)));
    assert!(journal_path(app.home(), share).contains(&share.share_id));
    assert!(runtime_path(app.home(), &share.share_id).contains(&share.share_id));
}

#[test]
fn a_test_of_the_connection_lists_its_steps() {
    let (app, mut config) = configured();
    app.add_share(&mut config, "Docs".into(), folder("/share"), SyncMode::ToPc).unwrap();
    let test = app.connection_test(&config, true, false, &vec![true]);
    let labels: Vec<&str> = test.checks.iter().map(|c| c.label.as_str()).collect();
    assert_eq!(
        labels,
        vec!["PC alcançável", "TCP", "TLS", "Autenticação", "Dispositivo reconhecido"]
    );
    let ok: Vec<bool> = test.checks.iter().map(|c| c.ok).collect();
    assert_eq!(ok, vec![true, false, true, false, false]);
    assert_eq!((test.available_shares, test.total_shares), (1, 1));
}

fn record(id: &str, finished: bool) -> RecoveryRecord {
    RecoveryRecord {
        path: "a".into(),
        backup: id.into(),
        finished,
        new_hash: Some("d".repeat(64)),
        old_hash: None,
    }
}

#[test]
fn crash_after_displacing_target_restores_backup() {
    let id = "b".repeat(64);
    let mut r = RecoveryRecord {
        path: "a".into(),
        backup: id,
        finished: false,
        new_hash: None,
        old_hash: None,
    };
    assert!(r.needs_restore(false, true));
    let hash = rowd::storage::hash_reader(b"recover me").0;
    r.settle(Some(&hash), Some(&hash), true).unwrap();
    assert!(r.finished);
}

#[test]
fn recovery_recognizes_each_publish_boundary() {
    let old = rowd::storage::hash_reader(b"old").0;
    let new = rowd::storage::hash_reader(b"new").0;
    for boundary in ["before_rename", "after_rename", "after_publish"] {
        let mut r = RecoveryRecord {
            path: "a".into(),
            backup: "e".repeat(64),
            finished: false,
            new_hash: Some(new.clone()),
            old_hash: Some(old.clone()),
        };
        let displaced = boundary != "before_rename";
        let mut target = if displaced { None } else { Some(old.clone()) };
        if boundary == "after_publish" {
            target = Some(new.clone());
        }
        if r.needs_restore(target.is_some(), displaced) {
            target = Some(old.clone());
        }
        let backup = if displaced { Some(old.as_str()) } else { None };
        r.settle(target.as_deref(), backup, displaced).unwrap();
        let expected = if boundary == "after_publish" { &new } else { &old };
        assert_eq!(target.as_ref(), Some(expected), "{boundary}");
        assert!(r.finished);
    }
}

#[test]
fn ambiguous_recovery_blocks_scan_but_can_be_resolved() {
    let id = "c".repeat(64);
    let mut r = record(&id, false);
    let previous = rowd::storage::hash_reader(b"previous").0;
    let unknown = rowd::storage::hash_reader(b"unknown edit").0;
    assert!(!r.needs_restore(true, true));
    assert!(matches!(
        r.settle(Some(&unknown), Some(&previous), true),
        Err(StoreError::RecoveryRequired(_))
    ));
    assert!(!r.finished);
    assert_eq!(r.resolve(&id, "restore", false).unwrap(), RecoveryAction::Restore);
    assert!(matches!(r.resolve(&id, "export", false), Err(StoreError::ExportDestination)));
    assert!(matches!(r.resolve(&id, "burn", false), Err(StoreError::RecoveryAction)));
    assert!(matches!(
        r.resolve(&"d".repeat(64), "keep", false),
        Err(StoreError::RecoveryIdentity)
    ));
    assert!(matches!(r.cleanup_recovery(&id), Err(StoreError::RecoveryPending)));
    r.finished = true;
    assert!(r.cleanup_recovery(&id).is_ok());
    assert!(r.listed(true).unwrap().is_some());
    assert!(r.listed(false).unwrap().is_none());
}

#[test]
fn versions_are_listed_in_order_of_their_paths() {
    let entry = |id: &str, path: &str| RecoveryEntry {
        id: id.into(),
        path: path.into(),
        backup_available: true,
        finished: false,
    };
    let sorted = recovery_entries(&vec![entry("1", "b"), entry("2", "a"), entry("3", "b")]);
    let ids: Vec<&str> = sorted.iter().map(|e| e.id.as_str()).collect();
    assert_eq!(ids, vec!["2", "1", "3"]);
}

#[test]
fn decisions_about_versions_name_a_known_share() {
    let (app, mut config) = configured();
    let id = app
        .add_share(&mut config, "Docs".into(), folder("/share"), SyncMode::ToPc)
        .unwrap();
    let version = "c".repeat(64);
    let r = record(&version, true);
    assert_eq!(
        app.restore_recovery(&config, &id, &r, &version).ok(),
        Some(RecoveryAction::Restore)
    );
    assert_eq!(
        app.keep_recovery(&config, &id, &r, &version).ok(),
        Some(RecoveryAction::Keep)
    );
    assert_eq!(
        app.export_recovery(&config, &id, &r, &version).ok(),
        Some(RecoveryAction::Export)
    );
    assert!(app.cleanup_recovery(&config, &id, &r, &version).is_ok());
    assert!(matches!(
        app.keep_recovery(&config, "x", &r, &version),
        Err(RecoveryError::UnknownShare)
    ));
    let found = vec![vec![FoundVersion {
        entry: r.listed(true).unwrap().unwrap(),
        bytes: 12,
    }]];
    let items: Vec<RecoveryItem> = app.recovery(&config, &found);
    assert_eq!((items[0].share_name.as_str(), items[0].bytes), ("Docs", 12));
    let report = app.export_diagnostic(&config, vec![], &items);
    assert_eq!((report.recovery_versions, report.recovery_bytes), (1, 12));
}

#[test]
fn shares_are_edited_paused_and_removed() {
    let (app, mut config) = configured();
    let id = app
        .add_share(&mut config, "Docs".into(), folder("/share"), SyncMode::ToPc)
        .unwrap();
    app.edit_share(&mut config, &id, "Notas".into(), folder("/share"), SyncMode::ToAndroid)
        .unwrap();
    assert_eq!(config.shares[0].name, "Notas");
    app.patch_share(&mut config, &id, None, folder("/share"), Some(SyncMode::Bidirectional))
        .unwrap();
    assert_eq!(config.shares[0].name, "Notas");
    assert_eq!(config.shares[0].mode, SyncMode::Bidirectional);
    app.set_share_enabled(&mut config, &id, false).unwrap();
    assert!(matches!(
        app.request_share_sync(&config, &id),
        Err(DeviceError::SharePaused)
    ));
    app.set_share_enabled(&mut config, &id, true).unwrap();
    app.request_share_sync(&config, &id).unwrap();
    assert_eq!(app.reindex_share(&config, &id).unwrap().share_id, id);
    assert_eq!(
        app.ignore_text(&config, &id, PolicyFile::Text("a\n".into())).unwrap(),
        "a\n"
    );
    assert_eq!(app.set_ignore_text(&config, &id).unwrap().0.share_id, id);
    app.remove_share(&mut config, &id).unwrap();
    assert!(config.shares.is_empty());
    app.reset_device_configuration(&mut config).unwrap();
    assert!(config.peer_device.is_none());
    let share = fresh_share("a".repeat(64), "x".into(), SyncMode::ToPc);
    assert!(share.enabled);
}

#[test]
fn a_scan_and_a_server_start_from_the_configuration() {
    let (app, config) = configured();
    let mut store = LocalStore::open(None, String::new(), None, Hint::Absent);
    app.scan(&mut store, true, &None);
    assert!(store.delta_paths("").is_none());
    let (listen, watch) = app.serve(&config, None, false, 1);
    assert_eq!(listen, "0.0.0.0:43821");
    assert!(watch.trusted());
    assert_eq!(app.serve(&config, Some("x".into()), true, 1).0, "x");
    let (from, to) = app.archive_all_application_data(7);
    assert_eq!(from, "/home/config/.rowd");
    assert!(to.starts_with("/home/config/"));
}

#[test]
fn paths_are_told_apart() {
    assert_eq!(path_parts("/a//b/"), vec!["a", "b"]);
    assert!(is_within("/a/b", "/a"));
    assert!(!is_within("/ab", "/a"));
    assert!(overlaps("/a", "/a/b"));
    assert!(!overlaps("/a", "/b"));
    assert_eq!(relative("/a/b/c", "/a").as_deref(), Some("b/c"));
    assert_eq!(last_part("/a/b").as_deref(), Some("b"));
    assert_eq!(child("/a", "b"), "/a/b");
}

#[test]
fn a_pair_without_shares_has_no_legacy_rules() {
    let (_, config) = configured();
    assert!(config.save().is_ok());
    assert_eq!(config.find("x"), None);
}

#[test]
fn a_profile_and_a_backup_give_back_what_went_in() {
    let (app, mut config) = configured();
    let docs = app
        .add_share(&mut config, "Docs".into(), folder("/docs"), SyncMode::Bidirectional)
        .unwrap();
    let fotos = app
        .add_share(&mut config, "Fotos".into(), folder("/fotos"), SyncMode::ToPc)
        .unwrap();
    app.set_share_enabled(&mut config, &fotos, false).unwrap();
    let policies = vec![Some("*.tmp\n".to_string()), Some(String::new())];
    let targets = || {
        vec![
            Target { root: folder("/docs"), policy: Some("*.tmp\n".into()) },
            Target { root: folder("/fotos"), policy: Some(String::new()) },
        ]
    };

    let profile = app.export_profile(&config, &policies).unwrap();
    let mut other = config.duplicate();
    other.secret = "0".repeat(64);
    other.key = "00".into();
    let same = app.export_profile(&other, &policies).unwrap();
    assert_eq!(format!("{profile:?}"), format!("{same:?}"));
    let mut again = config.duplicate();
    assert!(app.import_profile(&mut again, &profile, &targets()).unwrap().is_empty());
    assert_eq!(again.secret, config.secret);
    assert_eq!(again.shares.len(), 2);
    assert_eq!(again.shares[0].share_id, docs);
    assert_eq!(again.shares[1].root, "/fotos");
    assert_eq!(again.shares[1].mode, SyncMode::ToPc);
    assert!(!again.shares[1].enabled);

    let mut state = StringMap::new();
    state.insert(format!("{docs}/base.json"), state_text(&b"{}".to_vec()).unwrap());
    state.insert(format!("{fotos}/base.json"), state_text(&b"[1]".to_vec()).unwrap());
    let backup = app.export_backup(&config, state, &policies).unwrap();
    let plan = app.import_backup(&backup, 100, &targets()).unwrap();
    assert_eq!(plan.config.shares[0].share_id, docs);
    assert_eq!(plan.config.shares[1].share_id, fotos);
    assert_eq!(plan.config.key, config.key);
    let mut files = plan.files.clone();
    files.sort();
    let mut expected = vec![
        (format!("{docs}/base.json"), b"{}".to_vec()),
        (format!("{fotos}/base.json"), b"[1]".to_vec()),
    ];
    expected.sort();
    assert_eq!(files, expected);
}
