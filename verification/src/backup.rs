//! Copies of the configuration for a person to keep: a profile that names the
//! Shares, and a sealed backup of everything but the files themselves.

use crate::collections::{lists, Duplicate, StringMap};
use crate::config::{owned_text, seen, ShareView, SyncMode};
use crate::device::{
    legacy_left, new_share, position, put, put_fault, ConfigView, DeviceConfig, DeviceError,
    DeviceFault, Root, RootView, CURRENT_DEVICE_VERSION,
};
use crate::invitation::{invitation_fault, Invitation, InvitationView};
use crate::model::INVITATION_VERSION;
use crate::primitives::{
    derived_key, gcm_open, gcm_opened, gcm_seal, gcm_sealed, hex_bytes, hex_decode, hex_encode,
    hex_text, is_hex, lemma_hex_round_trip, pbkdf2, secure_random, tls_accepts, tls_pair,
};
use crate::text::{byte_len, lemma_views_push, pieces, same, split, views, Chars};
use vstd::prelude::*;

verus! {

/// How many rounds turn a passphrase into a key.
pub const KEY_ROUNDS: u32 = 150_000;

/// The fewest characters of a passphrase.
pub const MIN_PASSPHRASE: usize = 8;

/// The largest file of the application's state, in bytes.
pub const MAX_STATE_FILE: usize = 16 * 1024 * 1024;

/// The largest state that is exported or imported, in bytes.
pub const MAX_STATE: usize = 256 * 1024 * 1024;

/// How many files the application's state may have.
pub const MAX_STATE_FILES: usize = 4096;

/// Why a profile or a backup is refused.
#[derive(Clone, Debug)]
pub enum BackupError {
    ShortPassphrase,
    NoRandom,
    EncryptionFailed,
    UnsupportedFormat,
    /// A field is not the text of some bytes.
    InvalidText,
    InvalidSalt,
    InvalidNonce,
    /// The passphrase is wrong, or the backup is damaged.
    CannotOpen,
    FileTooLarge,
    UnsupportedVersion,
    OldConfiguration,
    LegacyIgnore,
    InvalidInvitation,
    InvalidIdentity,
    MissingPolicy,
    /// A folder's policy cannot be read.
    UnreadablePolicy,
    DifferentPolicy,
    Device(DeviceError),
    DuplicateShare,
    TooManyFiles,
    InvalidPath,
    StateFileTooLarge,
    StateTooLarge,
    RevisionExhausted,
}

/// A [`BackupError`] as a mathematical value.
pub enum BackupFault {
    ShortPassphrase,
    NoRandom,
    EncryptionFailed,
    UnsupportedFormat,
    InvalidText,
    InvalidSalt,
    InvalidNonce,
    CannotOpen,
    FileTooLarge,
    UnsupportedVersion,
    OldConfiguration,
    LegacyIgnore,
    InvalidInvitation,
    InvalidIdentity,
    MissingPolicy,
    UnreadablePolicy,
    DifferentPolicy,
    Device(DeviceFault),
    DuplicateShare,
    TooManyFiles,
    InvalidPath,
    StateFileTooLarge,
    StateTooLarge,
    RevisionExhausted,
}

impl View for BackupError {
    type V = BackupFault;

    open spec fn view(&self) -> BackupFault {
        match self {
            BackupError::ShortPassphrase => BackupFault::ShortPassphrase,
            BackupError::NoRandom => BackupFault::NoRandom,
            BackupError::EncryptionFailed => BackupFault::EncryptionFailed,
            BackupError::UnsupportedFormat => BackupFault::UnsupportedFormat,
            BackupError::InvalidText => BackupFault::InvalidText,
            BackupError::InvalidSalt => BackupFault::InvalidSalt,
            BackupError::InvalidNonce => BackupFault::InvalidNonce,
            BackupError::CannotOpen => BackupFault::CannotOpen,
            BackupError::FileTooLarge => BackupFault::FileTooLarge,
            BackupError::UnsupportedVersion => BackupFault::UnsupportedVersion,
            BackupError::OldConfiguration => BackupFault::OldConfiguration,
            BackupError::LegacyIgnore => BackupFault::LegacyIgnore,
            BackupError::InvalidInvitation => BackupFault::InvalidInvitation,
            BackupError::InvalidIdentity => BackupFault::InvalidIdentity,
            BackupError::MissingPolicy => BackupFault::MissingPolicy,
            BackupError::UnreadablePolicy => BackupFault::UnreadablePolicy,
            BackupError::DifferentPolicy => BackupFault::DifferentPolicy,
            BackupError::Device(e) => BackupFault::Device(e@),
            BackupError::DuplicateShare => BackupFault::DuplicateShare,
            BackupError::TooManyFiles => BackupFault::TooManyFiles,
            BackupError::InvalidPath => BackupFault::InvalidPath,
            BackupError::StateFileTooLarge => BackupFault::StateFileTooLarge,
            BackupError::StateTooLarge => BackupFault::StateTooLarge,
            BackupError::RevisionExhausted => BackupFault::RevisionExhausted,
        }
    }
}

/// A sealed backup.
#[derive(Clone, Debug)]
pub struct EncryptedBackup {
    pub format: u32,
    pub salt: String,
    pub nonce: String,
    pub ciphertext: String,
}

/// An [`EncryptedBackup`] as a mathematical value.
#[verifier::ext_equal]
pub struct EncryptedView {
    pub format: u32,
    pub salt: Chars,
    pub nonce: Chars,
    pub ciphertext: Chars,
}

impl View for EncryptedBackup {
    type V = EncryptedView;

    open spec fn view(&self) -> EncryptedView {
        EncryptedView {
            format: self.format,
            salt: self.salt@,
            nonce: self.nonce@,
            ciphertext: self.ciphertext@,
        }
    }
}

/// The bytes `rowd-backup-v1`, which a backup is sealed with.
pub open spec fn backup_label() -> Seq<u8> {
    seq![114u8, 111, 119, 100, 45, 98, 97, 99, 107, 117, 112, 45, 118, 49]
}

fn label_bytes() -> (r: Vec<u8>)
    ensures
        r@ == backup_label(),
{
    let r: Vec<u8> = vec![114u8, 111, 119, 100, 45, 98, 97, 99, 107, 117, 112, 45, 118, 49];
    assert(r@ =~= backup_label());
    r
}

/// The key that a passphrase stands for.
pub open spec fn passphrase_key(passphrase: Chars, salt: Seq<u8>) -> Seq<u8> {
    derived_key(KEY_ROUNDS, salt, vstd::utf8::encode_utf8(passphrase), 32)
}

/// The key that a passphrase stands for; a short one is refused.
pub fn crypt_key(passphrase: &str, salt: &[u8]) -> (r: Result<Vec<u8>, BackupError>)
    ensures
        r is Ok <==> passphrase@.len() >= MIN_PASSPHRASE,
        r is Ok ==> r->Ok_0@ == passphrase_key(passphrase@, salt@) && r->Ok_0@.len() == 32,
        r is Err ==> r->Err_0@ == BackupFault::ShortPassphrase,
{
    if passphrase.unicode_len() < MIN_PASSPHRASE {
        return Err(BackupError::ShortPassphrase);
    }
    Ok(pbkdf2(KEY_ROUNDS, salt, passphrase.as_bytes(), 32))
}

/// A sealed backup, given what was drawn for it.
pub open spec fn sealed_backup(plain: Seq<u8>, passphrase: Chars, salt: Seq<u8>, nonce: Seq<u8>) -> Option<
    EncryptedView,
> {
    match gcm_sealed(passphrase_key(passphrase, salt), nonce, backup_label(), plain) {
        None => None,
        Some(sealed) => Some(
            EncryptedView {
                format: 1,
                salt: hex_text(salt),
                nonce: hex_text(nonce),
                ciphertext: hex_text(sealed),
            },
        ),
    }
}

/// What a sealed backup holds.
pub open spec fn opened_backup(v: EncryptedView, passphrase: Chars) -> Result<
    Seq<u8>,
    BackupFault,
> {
    if v.format != 1 {
        Err(BackupFault::UnsupportedFormat)
    } else if !is_hex(v.salt) {
        Err(BackupFault::InvalidText)
    } else if hex_bytes(v.salt).len() != 16 {
        Err(BackupFault::InvalidSalt)
    } else if !is_hex(v.nonce) {
        Err(BackupFault::InvalidText)
    } else if hex_bytes(v.nonce).len() != 12 {
        Err(BackupFault::InvalidNonce)
    } else if passphrase.len() < MIN_PASSPHRASE {
        Err(BackupFault::ShortPassphrase)
    } else if !is_hex(v.ciphertext) {
        Err(BackupFault::InvalidText)
    } else {
        match gcm_opened(
            passphrase_key(passphrase, hex_bytes(v.salt)),
            hex_bytes(v.nonce),
            backup_label(),
            hex_bytes(v.ciphertext),
        ) {
            Some(plain) => Ok(plain),
            None => Err(BackupFault::CannotOpen),
        }
    }
}

/// Seals a backup with a salt and a nonce that were drawn for it. What is
/// sealed can be opened with the same passphrase.
pub fn seal_with(plain: &Vec<u8>, passphrase: &str, salt: &Vec<u8>, nonce: &Vec<u8>) -> (r: Result<
    EncryptedBackup,
    BackupError,
>)
    requires
        salt@.len() == 16,
        nonce@.len() == 12,
        2 * (plain@.len() + 16) <= isize::MAX,
    ensures
        match r {
            Ok(sealed) => passphrase@.len() >= MIN_PASSPHRASE && sealed_backup(
                plain@,
                passphrase@,
                salt@,
                nonce@,
            ) == Some(sealed@) && opened_backup(sealed@, passphrase@) == Ok::<
                Seq<u8>,
                BackupFault,
            >(plain@),
            Err(e) => if passphrase@.len() < MIN_PASSPHRASE {
                e@ == BackupFault::ShortPassphrase
            } else {
                plain@.len() > 0xf_ffff_ffe0 && e@ == BackupFault::EncryptionFailed
            },
        },
{
    let key = match crypt_key(passphrase, salt.as_slice()) {
        Ok(key) => key,
        Err(e) => {
            return Err(e);
        },
    };
    let label = label_bytes();
    match gcm_seal(key.as_slice(), nonce.as_slice(), label.as_slice(), plain.as_slice()) {
        None => Err(BackupError::EncryptionFailed),
        Some(sealed) => {
            let r = EncryptedBackup {
                format: 1,
                salt: hex_encode(salt.as_slice()),
                nonce: hex_encode(nonce.as_slice()),
                ciphertext: hex_encode(sealed.as_slice()),
            };
            proof {
                lemma_hex_round_trip(salt@);
                lemma_hex_round_trip(nonce@);
                lemma_hex_round_trip(sealed@);
            }
            Ok(r)
        },
    }
}

/// Seals a backup. What is sealed can be opened with the same passphrase; the
/// salt and the nonce are drawn anew each time.
pub fn encrypt_backup(plain: &Vec<u8>, passphrase: &str) -> (r: Result<EncryptedBackup, BackupError>)
    requires
        2 * (plain@.len() + 16) <= isize::MAX,
    ensures
        match r {
            Ok(sealed) => passphrase@.len() >= MIN_PASSPHRASE && opened_backup(sealed@, passphrase@)
                == Ok::<Seq<u8>, BackupFault>(plain@) && sealed_backup(
                plain@,
                passphrase@,
                hex_bytes(sealed@.salt),
                hex_bytes(sealed@.nonce),
            ) == Some(sealed@),
            Err(e) => e@ == BackupFault::NoRandom || if passphrase@.len() < MIN_PASSPHRASE {
                e@ == BackupFault::ShortPassphrase
            } else {
                plain@.len() > 0xf_ffff_ffe0 && e@ == BackupFault::EncryptionFailed
            },
        },
{
    let salt = match secure_random(16) {
        Some(salt) => salt,
        None => {
            return Err(BackupError::NoRandom);
        },
    };
    let nonce = match secure_random(12) {
        Some(nonce) => nonce,
        None => {
            return Err(BackupError::NoRandom);
        },
    };
    proof {
        lemma_hex_round_trip(salt@);
        lemma_hex_round_trip(nonce@);
    }
    seal_with(plain, passphrase, &salt, &nonce)
}

/// Opens a backup. Where the passphrase's key does not fit the text, it cannot
/// be opened; two passphrases may have one key, such as a short one and the same
/// with a zero behind it.
pub fn decrypt_backup(value: &EncryptedBackup, passphrase: &str) -> (r: Result<Vec<u8>, BackupError>)
    ensures
        match opened_backup(value@, passphrase@) {
            Ok(plain) => r is Ok && r->Ok_0@ == plain,
            Err(e) => r is Err && r->Err_0@ == e,
        },
{
    if value.format != 1 {
        return Err(BackupError::UnsupportedFormat);
    }
    let salt = match hex_decode(value.salt.as_str()) {
        Some(salt) => salt,
        None => {
            return Err(BackupError::InvalidText);
        },
    };
    if salt.len() != 16 {
        return Err(BackupError::InvalidSalt);
    }
    let nonce = match hex_decode(value.nonce.as_str()) {
        Some(nonce) => nonce,
        None => {
            return Err(BackupError::InvalidText);
        },
    };
    if nonce.len() != 12 {
        return Err(BackupError::InvalidNonce);
    }
    let key = match crypt_key(passphrase, salt.as_slice()) {
        Ok(key) => key,
        Err(e) => {
            return Err(e);
        },
    };
    let sealed = match hex_decode(value.ciphertext.as_str()) {
        Some(sealed) => sealed,
        None => {
            return Err(BackupError::InvalidText);
        },
    };
    let label = label_bytes();
    match gcm_open(key.as_slice(), nonce.as_slice(), label.as_slice(), sealed.as_slice()) {
        Some(plain) => Ok(plain),
        None => Err(BackupError::CannotOpen),
    }
}

/// The text of a file of the application's state; a large one is refused.
pub fn state_text(bytes: &Vec<u8>) -> (r: Result<String, BackupError>)
    ensures
        r is Ok <==> bytes@.len() <= MAX_STATE_FILE,
        r is Ok ==> r->Ok_0@ == hex_text(bytes@),
        r is Err ==> r->Err_0@ == BackupFault::StateFileTooLarge,
{
    if bytes.len() > MAX_STATE_FILE {
        return Err(BackupError::StateFileTooLarge);
    }
    Ok(hex_encode(bytes.as_slice()))
}

/// How many bytes the texts of some files stand for.
pub open spec fn state_size(order: Seq<Chars>, state: Map<Chars, Chars>) -> int
    decreases order.len(),
{
    if order.len() == 0 {
        0
    } else {
        state_size(order.drop_last(), state) + vstd::utf8::encode_utf8(
            state[order.last()],
        ).len() as int / 2
    }
}

pub(crate) proof fn lemma_state_size_grows(order: Seq<Chars>, state: Map<Chars, Chars>, i: int)
    requires
        0 <= i <= order.len(),
    ensures
        state_size(order.take(i), state) <= state_size(order, state),
    decreases order.len() - i,
{
    if i < order.len() {
        assert(order.take(i + 1).drop_last() =~= order.take(i));
        lemma_state_size_grows(order, state, i + 1);
    } else {
        assert(order.take(i) =~= order);
    }
}

/// Refuses to export a state of too many files or bytes.
pub fn check_state(state: &StringMap<String>) -> (r: Result<(), BackupError>)
    ensures
        forall|order: Seq<Chars>|
            #[trigger] lists(order, state@.dom()) ==> (r is Ok <==> order.len() <= MAX_STATE_FILES
                && state_size(order, state@) <= MAX_STATE) && (r is Err ==> r->Err_0@
                == if order.len() > MAX_STATE_FILES {
                BackupFault::TooManyFiles
            } else {
                BackupFault::StateTooLarge
            }),
{
    let n: usize = state.len();
    let ghost order = state.order();
    proof {
        assert forall|o: Seq<Chars>| #[trigger] lists(o, state@.dom()) implies o == order by {
            crate::collections::lemma_listing_unique(o, order, state@.dom());
        }
    }
    if n > MAX_STATE_FILES {
        return Err(BackupError::TooManyFiles);
    }
    let mut total: usize = 0;
    let mut i: usize = 0;
    assert(order.take(0) =~= Seq::<Chars>::empty());
    while i < n
        invariant
            i <= n == order.len(),
            n <= MAX_STATE_FILES,
            order == state.order(),
            forall|o: Seq<Chars>| #[trigger] lists(o, state@.dom()) ==> o == order,
            total == state_size(order.take(i as int), state@),
            total <= MAX_STATE,
        decreases n - i,
    {
        let size: usize = byte_len(state.value_at(i).as_str());
        proof {
            assert(order.take(i + 1).drop_last() =~= order.take(i as int));
            assert(order.take(i + 1).last() == order[i as int]);
            lemma_state_size_grows(order, state@, i + 1);
        }
        if size / 2 > MAX_STATE - total {
            return Err(BackupError::StateTooLarge);
        }
        total = total + size / 2;
        i = i + 1;
    }
    assert(order.take(i as int) =~= order);
    Ok(())
}

/// A path that leads below the folder it is relative to: some text that does
/// not begin at the root or with the folder itself, and never climbs.
pub open spec fn safe_path(relative: Chars) -> bool {
    &&& pieces(relative, '/')[0].len() > 0
    &&& pieces(relative, '/')[0] != "."@
    &&& forall|i: int|
        0 <= i < pieces(relative, '/').len() ==> (#[trigger] pieces(relative, '/')[i]) != ".."@
}

/// Refuses a path that may lead out of the folder it is relative to.
pub fn safe_state_path(relative: &str) -> (r: Result<(), BackupError>)
    ensures
        r is Ok <==> safe_path(relative@),
        r is Err ==> r->Err_0@ == BackupFault::InvalidPath,
{
    let parts = split(relative, '/');
    proof {
        crate::text::lemma_pieces_shape(relative@, '/');
        assert(parts@.len() == pieces(relative@, '/').len());
        assert(parts@[0]@ == pieces(relative@, '/')[0]);
    }
    if parts[0].as_str().unicode_len() == 0 || same(parts[0].as_str(), ".") {
        return Err(BackupError::InvalidPath);
    }
    let mut i: usize = 0;
    while i < parts.len()
        invariant
            i <= parts@.len(),
            views(parts@) == pieces(relative@, '/'),
            forall|k: int| 0 <= k < i ==> (#[trigger] pieces(relative@, '/')[k]) != ".."@,
        decreases parts@.len() - i,
    {
        assert(pieces(relative@, '/')[i as int] == parts@[i as int]@);
        if same(parts[i].as_str(), "..") {
            return Err(BackupError::InvalidPath);
        }
        i = i + 1;
    }
    Ok(())
}

/// Everything that a backup holds.
pub struct FullBackup {
    pub version: u32,
    pub config: DeviceConfig,
    /// The application's state: for each file the text of its bytes.
    pub state: StringMap<String>,
    /// Each Share's policy, by identity.
    pub ignore_policies: StringMap<String>,
}

/// A [`FullBackup`] as a mathematical value.
#[verifier::ext_equal]
pub struct BackupView {
    pub version: u32,
    pub config: ConfigView,
    pub state: Map<Chars, Chars>,
    pub policies: Map<Chars, Chars>,
}

impl View for FullBackup {
    type V = BackupView;

    open spec fn view(&self) -> BackupView {
        BackupView {
            version: self.version,
            config: self.config@,
            state: self.state@,
            policies: self.ignore_policies@,
        }
    }
}

/// What stands where a Share of a backup or a profile is to go: its folder, and
/// the policy in it if it can be read.
pub struct Target {
    pub root: Root,
    pub policy: Option<String>,
}

/// A [`Target`] as a mathematical value.
pub struct TargetView {
    pub root: RootView,
    pub policy: Option<Chars>,
}

impl View for Target {
    type V = TargetView;

    open spec fn view(&self) -> TargetView {
        TargetView { root: self.root@, policy: owned_text(self.policy) }
    }
}

/// What a configuration tells a phone that is to be paired.
pub open spec fn invitation_of(c: ConfigView) -> InvitationView {
    InvitationView {
        version: INVITATION_VERSION,
        address: c.address,
        pair_id: c.pair_id,
        cert_der: c.cert,
        secret: c.secret,
    }
}

/// What a configuration tells a phone that is to be paired.
pub fn invitation(config: &DeviceConfig) -> (r: Invitation)
    ensures
        r@ == invitation_of(config@),
{
    Invitation {
        version: INVITATION_VERSION,
        address: config.address.clone(),
        pair_id: config.pair_id.clone(),
        cert_der: config.cert.clone(),
        secret: config.secret.clone(),
    }
}

/// The texts of a certificate and its key can be taken for a server's identity.
pub open spec fn tls_identity(cert: Chars, key: Chars) -> bool {
    is_hex(cert) && is_hex(key) && tls_pair(hex_bytes(cert), hex_bytes(key))
}

/// Whether the texts of a certificate and its key are taken for a server's
/// identity. Only those that belong together are; where the system has no
/// random bytes, they may be refused as well.
pub fn is_tls_identity(cert: &str, key: &str) -> (r: bool)
    ensures
        r ==> tls_identity(cert@, key@),
{
    match (hex_decode(cert), hex_decode(key)) {
        (Some(c), Some(k)) => tls_accepts(c, k),
        _ => false,
    }
}

/// The Shares of a backup, put into their folders one after another, from the
/// `i`th on. Each folder must already hold the policy that the backup has.
pub open spec fn restored(
    done: Seq<ShareView>,
    shares: Seq<ShareView>,
    targets: Seq<TargetView>,
    policies: Map<Chars, Chars>,
    home: Chars,
    i: int,
) -> Result<Seq<ShareView>, BackupFault>
    decreases shares.len() - i,
{
    if i < 0 || i >= shares.len() {
        Ok(done)
    } else {
        let s = shares[i];
        let t = targets[i];
        if !policies.dom().contains(s.share_id) {
            Err(BackupFault::MissingPolicy)
        } else if t.policy is None {
            Err(BackupFault::UnreadablePolicy)
        } else if t.policy->0 != policies[s.share_id] {
            Err(BackupFault::DifferentPolicy)
        } else {
            match put_fault(done, home, s, t.root) {
                Some(e) => Err(BackupFault::Device(e)),
                None => restored(put(done, s, t.root), shares, targets, policies, home, i + 1),
            }
        }
    }
}

/// The files of a backup's state, and how many bytes they have.
pub open spec fn state_files(order: Seq<Chars>, state: Map<Chars, Chars>) -> Result<
    (Seq<(Chars, Seq<u8>)>, int),
    BackupFault,
>
    decreases order.len(),
{
    if order.len() == 0 {
        Ok((Seq::empty(), 0))
    } else {
        match state_files(order.drop_last(), state) {
            Err(e) => Err(e),
            Ok((files, total)) => {
                let path = order.last();
                let text = state[path];
                if !safe_path(path) {
                    Err(BackupFault::InvalidPath)
                } else if !is_hex(text) {
                    Err(BackupFault::InvalidText)
                } else if hex_bytes(text).len() > MAX_STATE_FILE {
                    Err(BackupFault::StateFileTooLarge)
                } else if total + hex_bytes(text).len() > MAX_STATE {
                    Err(BackupFault::StateTooLarge)
                } else {
                    Ok((files.push((path, hex_bytes(text))), total + hex_bytes(text).len()))
                }
            },
        }
    }
}

/// What importing a backup comes to: the configuration and the files, or the
/// first thing that is wrong. `tls_ok` says whether its certificate and key are
/// taken for an identity.
pub open spec fn import_of(
    b: BackupView,
    home: Chars,
    targets: Seq<TargetView>,
    order: Seq<Chars>,
    tls_ok: bool,
) -> Result<(ConfigView, Seq<(Chars, Seq<u8>)>), BackupFault> {
    if b.version != 2 {
        Err(BackupFault::UnsupportedVersion)
    } else if b.config.version != CURRENT_DEVICE_VERSION {
        Err(BackupFault::OldConfiguration)
    } else if legacy_left(b.config.shares) {
        Err(BackupFault::LegacyIgnore)
    } else if invitation_fault(invitation_of(b.config)) is Some {
        Err(BackupFault::InvalidInvitation)
    } else if !tls_ok {
        Err(BackupFault::InvalidIdentity)
    } else {
        match restored(Seq::empty(), b.config.shares, targets, b.policies, home, 0) {
            Err(e) => Err(e),
            Ok(shares) => if shares.len() != b.config.shares.len() || b.policies.dom().len()
                != b.config.shares.len() {
                Err(BackupFault::DuplicateShare)
            } else if order.len() > MAX_STATE_FILES {
                Err(BackupFault::TooManyFiles)
            } else {
                match state_files(order, b.state) {
                    Err(e) => Err(e),
                    Ok((files, total)) => Ok((ConfigView { shares, ..b.config }, files)),
                }
            },
        }
    }
}

/// What importing a backup comes to.
pub struct ImportPlan {
    pub config: DeviceConfig,
    pub files: Vec<(String, Vec<u8>)>,
}

/// Files as a mathematical value.
pub open spec fn files_seen(v: Seq<(String, Vec<u8>)>) -> Seq<(Chars, Seq<u8>)> {
    v.map_values(|p: (String, Vec<u8>)| (p.0@, p.1@))
}

/// The Shares of a backup in their folders.
fn restore_shares(backup: &FullBackup, home: &str, targets: &Vec<Target>) -> (r: Result<
    DeviceConfig,
    BackupError,
>)
    requires
        targets@.len() == backup.config.shares@.len(),
    ensures
        match restored(
            Seq::empty(),
            backup@.config.shares,
            seen(targets@),
            backup@.policies,
            home@,
            0,
        ) {
            Ok(shares) => r is Ok && r->Ok_0@ == (ConfigView { shares, ..backup@.config }),
            Err(e) => r is Err && r->Err_0@ == e,
        },
{
    let mut config = backup.config.duplicate();
    config.shares = Vec::new();
    let ghost all = backup@.config.shares;
    let ghost places = seen(targets@);
    let ghost whole = restored(Seq::empty(), all, places, backup@.policies, home@, 0);
    assert(seen(config.shares@) =~= Seq::<ShareView>::empty());
    let mut i: usize = 0;
    while i < backup.config.shares.len()
        invariant
            i <= backup.config.shares@.len() == targets@.len(),
            all == backup@.config.shares,
            places == seen(targets@),
            whole == restored(Seq::empty(), all, places, backup@.policies, home@, 0),
            whole == restored(config@.shares, all, places, backup@.policies, home@, i as int),
            config@ == (ConfigView { shares: config@.shares, ..backup@.config }),
        decreases backup.config.shares@.len() - i,
    {
        let share = backup.config.shares[i].duplicate();
        let target = &targets[i];
        proof {
            assert(all[i as int] == share@);
            assert(places[i as int] == target@);
        }
        match backup.ignore_policies.get(share.share_id.as_str()) {
            None => {
                return Err(BackupError::MissingPolicy);
            },
            Some(expected) => match &target.policy {
                None => {
                    return Err(BackupError::UnreadablePolicy);
                },
                Some(text) => {
                    if !same(text.as_str(), expected.as_str()) {
                        return Err(BackupError::DifferentPolicy);
                    }
                },
            },
        }
        let root = copy_root(&target.root);
        if let Err(e) = config.put_share(home, share, root) {
            return Err(BackupError::Device(e));
        }
        i = i + 1;
    }
    Ok(config)
}

/// Copies what stands at a place.
pub fn copy_root(root: &Root) -> (r: Root)
    ensures
        r@ == root@,
{
    match root {
        Root::Missing => Root::Missing,
        Root::Other => Root::Other,
        Root::Folder(path) => Root::Folder(path.clone()),
    }
}

fn decode_state(state: &StringMap<String>) -> (r: Result<Vec<(String, Vec<u8>)>, BackupError>)
    ensures
        match state_files(state.order(), state@) {
            Ok((files, total)) => r is Ok && files_seen(r->Ok_0@) == files,
            Err(e) => r is Err && r->Err_0@ == e,
        },
{
    let n: usize = state.len();
    let ghost order = state.order();
    let mut files: Vec<(String, Vec<u8>)> = Vec::new();
    let mut total: usize = 0;
    let mut i: usize = 0;
    assert(order.take(0) =~= Seq::<Chars>::empty());
    assert(files_seen(files@) =~= Seq::<(Chars, Seq<u8>)>::empty());
    while i < n
        invariant
            i <= n == order.len(),
            order == state.order(),
            state_files(order.take(i as int), state@) == Ok::<
                (Seq<(Chars, Seq<u8>)>, int),
                BackupFault,
            >((files_seen(files@), total as int)),
            total <= MAX_STATE,
        decreases n - i,
    {
        let path = state.key_at(i);
        let text = state.value_at(i);
        let ghost more = order.take(i + 1);
        proof {
            assert(more.drop_last() =~= order.take(i as int));
            assert(more.last() == path@);
        }
        if let Err(e) = safe_state_path(path.as_str()) {
            proof {
                lemma_state_fails(order, state@, i + 1);
            }
            return Err(e);
        }
        let bytes = match hex_decode(text.as_str()) {
            Some(bytes) => bytes,
            None => {
                proof {
                    lemma_state_fails(order, state@, i + 1);
                }
                return Err(BackupError::InvalidText);
            },
        };
        let size: usize = bytes.len();
        if size > MAX_STATE_FILE {
            proof {
                lemma_state_fails(order, state@, i + 1);
            }
            return Err(BackupError::StateFileTooLarge);
        }
        if size > MAX_STATE - total {
            proof {
                lemma_state_fails(order, state@, i + 1);
            }
            return Err(BackupError::StateTooLarge);
        }
        total = total + size;
        let ghost was = files@;
        let ghost content = bytes@;
        files.push((path.clone(), bytes));
        assert(files_seen(files@) =~= files_seen(was).push((path@, content)));
        i = i + 1;
    }
    assert(order.take(i as int) =~= order);
    Ok(files)
}

proof fn lemma_state_fails(order: Seq<Chars>, state: Map<Chars, Chars>, n: int)
    requires
        0 <= n <= order.len(),
        state_files(order.take(n), state) is Err,
    ensures
        state_files(order, state) == state_files(order.take(n), state),
    decreases order.len() - n,
{
    if n == order.len() {
        assert(order.take(n) =~= order);
    } else {
        assert(order.take(n + 1).drop_last() =~= order.take(n));
        lemma_state_fails(order, state, n + 1);
    }
}

/// A plan is what importing a backup comes to, or says what is wrong with it.
pub open spec fn planned(
    r: Result<ImportPlan, BackupError>,
    b: BackupView,
    home: Chars,
    targets: Seq<TargetView>,
    tls_ok: bool,
) -> bool {
    forall|order: Seq<Chars>|
        #[trigger] lists(order, b.state.dom()) ==> match import_of(
            b,
            home,
            targets,
            order,
            tls_ok,
        ) {
            Ok((config, files)) => r is Ok && r->Ok_0.config@ == config && files_seen(
                r->Ok_0.files@,
            ) == files,
            Err(e) => r is Err && r->Err_0@ == e,
        }
}

/// What importing a backup comes to; `targets` says what stands where each of
/// its Shares is to go, and `tls_ok` whether its certificate and key are taken
/// for an identity.
pub fn plan_import_given(backup: &FullBackup, home: &str, targets: &Vec<Target>, tls_ok: bool) -> (r:
    Result<ImportPlan, BackupError>)
    requires
        targets@.len() == backup.config.shares@.len(),
    ensures
        planned(r, backup@, home@, seen(targets@), tls_ok),
{
    let ghost order = backup.state.order();
    let size: usize = backup.state.len();
    proof {
        assert forall|o: Seq<Chars>| #[trigger] lists(o, backup@.state.dom()) implies o == order by {
            crate::collections::lemma_listing_unique(o, order, backup@.state.dom());
        }
    }
    if backup.version != 2 {
        return Err(BackupError::UnsupportedVersion);
    }
    if backup.config.version != CURRENT_DEVICE_VERSION {
        return Err(BackupError::OldConfiguration);
    }
    if backup.config.save().is_err() {
        return Err(BackupError::LegacyIgnore);
    }
    let invite = invitation(&backup.config);
    if invite.validate().is_err() {
        return Err(BackupError::InvalidInvitation);
    }
    if !tls_ok {
        return Err(BackupError::InvalidIdentity);
    }
    let config = match restore_shares(backup, home, targets) {
        Ok(config) => config,
        Err(e) => {
            return Err(e);
        },
    };
    if config.shares.len() != backup.config.shares.len() || backup.ignore_policies.len()
        != backup.config.shares.len() {
        return Err(BackupError::DuplicateShare);
    }
    if size > MAX_STATE_FILES {
        return Err(BackupError::TooManyFiles);
    }
    match decode_state(&backup.state) {
        Ok(files) => Ok(ImportPlan { config, files }),
        Err(e) => Err(e),
    }
}

/// Files that are written below the state's folder stay below it, whatever a
/// backup names them.
pub proof fn law_import_stays_inside(order: Seq<Chars>, state: Map<Chars, Chars>, i: int)
    requires
        state_files(order, state) is Ok,
        0 <= i < order.len(),
    ensures
        safe_path(order[i]),
        state_files(order, state)->Ok_0.0.len() == order.len(),
        state_files(order, state)->Ok_0.0[i] == (order[i], hex_bytes(state[order[i]])),
    decreases order.len(),
{
    let less = order.drop_last();
    lemma_state_files_len(less, state);
    if i < less.len() {
        law_import_stays_inside(less, state, i);
        assert(less[i] == order[i]);
    }
}

proof fn lemma_state_files_len(order: Seq<Chars>, state: Map<Chars, Chars>)
    ensures
        state_files(order, state) is Ok ==> state_files(order, state)->Ok_0.0.len() == order.len(),
    decreases order.len(),
{
    if order.len() > 0 {
        lemma_state_files_len(order.drop_last(), state);
    }
}

/// A Share as a profile names it.
#[derive(Clone, Debug)]
pub struct ProfileShare {
    pub share_id: String,
    pub name: String,
    pub root: String,
    pub mode: SyncMode,
    pub enabled: bool,
    pub ignore: String,
}

/// A [`ProfileShare`] as a mathematical value.
#[verifier::ext_equal]
pub struct ProfileShareView {
    pub share_id: Chars,
    pub name: Chars,
    pub root: Chars,
    pub mode: SyncMode,
    pub enabled: bool,
    pub ignore: Chars,
}

impl View for ProfileShare {
    type V = ProfileShareView;

    open spec fn view(&self) -> ProfileShareView {
        ProfileShareView {
            share_id: self.share_id@,
            name: self.name@,
            root: self.root@,
            mode: self.mode,
            enabled: self.enabled,
            ignore: self.ignore@,
        }
    }
}

/// A profile: the Shares and their policies, without secrets.
#[derive(Clone, Debug)]
pub struct PublicProfile {
    pub version: u32,
    pub shares: Vec<ProfileShare>,
    pub sync_paused: bool,
}

/// How a profile names a Share.
pub open spec fn profiled(s: ShareView, policy: Chars) -> ProfileShareView {
    ProfileShareView {
        share_id: s.share_id,
        name: s.name,
        root: s.root,
        mode: s.mode,
        enabled: s.enabled,
        ignore: policy,
    }
}

/// A [`PublicProfile`] as a mathematical value.
#[verifier::ext_equal]
pub struct ProfileView {
    pub version: u32,
    pub shares: Seq<ProfileShareView>,
    pub sync_paused: bool,
}

impl View for PublicProfile {
    type V = ProfileView;

    open spec fn view(&self) -> ProfileView {
        ProfileView {
            version: self.version,
            shares: seen(self.shares@),
            sync_paused: self.sync_paused,
        }
    }
}

/// Policies that could be read, as mathematical values.
pub open spec fn policy_texts(policies: Seq<Option<String>>) -> Seq<Chars> {
    policies.map_values(|p: Option<String>| p->0@)
}

/// The profile of a configuration whose Shares have these policies.
pub open spec fn profile_view(c: ConfigView, policies: Seq<Chars>) -> ProfileView {
    ProfileView {
        version: 2,
        shares: Seq::new(c.shares.len(), |i: int| profiled(c.shares[i], policies[i])),
        sync_paused: c.sync_paused,
    }
}

/// A profile of the configuration; `policies` holds each Share's policy, if it
/// can be read.
pub fn profile_of(config: &DeviceConfig, policies: &Vec<Option<String>>) -> (r: Result<
    PublicProfile,
    BackupError,
>)
    requires
        policies@.len() == config.shares@.len(),
    ensures
        r is Ok <==> forall|i: int| 0 <= i < policies@.len() ==> #[trigger] policies@[i] is Some,
        r is Err ==> r->Err_0@ == BackupFault::UnreadablePolicy,
        r matches Ok(p) ==> p@ == profile_view(config@, policy_texts(policies@)),
{
    let mut shares: Vec<ProfileShare> = Vec::new();
    let mut i: usize = 0;
    while i < config.shares.len()
        invariant
            i <= config.shares@.len() == policies@.len(),
            shares@.len() == i,
            forall|k: int| 0 <= k < i ==> #[trigger] policies@[k] is Some,
            forall|k: int| 0 <= k < i ==> (#[trigger] shares@[k])@ == profiled(
                config@.shares[k],
                policies@[k]->0@,
            ),
        decreases config.shares@.len() - i,
    {
        let share = &config.shares[i];
        assert(config@.shares[i as int] == share@);
        match &policies[i] {
            None => {
                return Err(BackupError::UnreadablePolicy);
            },
            Some(text) => {
                shares.push(
                    ProfileShare {
                        share_id: share.share_id.clone(),
                        name: share.name.clone(),
                        root: share.root.clone(),
                        mode: share.mode,
                        enabled: share.enabled,
                        ignore: text.clone(),
                    },
                );
            },
        }
        i = i + 1;
    }
    let profile = PublicProfile { version: 2, shares, sync_paused: config.sync_paused };
    assert(profile@ =~= profile_view(config@, policy_texts(policies@)));
    Ok(profile)
}

/// How often the phone's folder for a Share was chosen anew, once a profile
/// names it: a profile of the first version has it chosen once more.
pub open spec fn profile_revision(shares: Seq<ShareView>, id: Chars, version: u32) -> Result<
    u64,
    BackupFault,
> {
    match position(shares, id) {
        None => Ok(0),
        Some(i) => if version != 1 {
            Ok(shares[i].binding_revision)
        } else if shares[i].binding_revision == u64::MAX {
            Err(BackupFault::RevisionExhausted)
        } else {
            Ok((shares[i].binding_revision + 1) as u64)
        },
    }
}

/// The Shares of a profile, put into their folders one after another, from the
/// `i`th on.
pub open spec fn profile_restored(
    done: Seq<ShareView>,
    was: Seq<ShareView>,
    shares: Seq<ProfileShareView>,
    targets: Seq<TargetView>,
    version: u32,
    home: Chars,
    i: int,
) -> Result<Seq<ShareView>, BackupFault>
    decreases shares.len() - i,
{
    if i < 0 || i >= shares.len() {
        Ok(done)
    } else {
        match profile_revision(was, shares[i].share_id, version) {
            Err(e) => Err(e),
            Ok(binding_revision) => {
                let s = ShareView {
                    binding_revision,
                    enabled: shares[i].enabled,
                    ..new_share(shares[i].share_id, shares[i].name, shares[i].mode)
                };
                match put_fault(done, home, s, targets[i].root) {
                    Some(e) => Err(BackupFault::Device(e)),
                    None => profile_restored(
                        put(done, s, targets[i].root),
                        was,
                        shares,
                        targets,
                        version,
                        home,
                        i + 1,
                    ),
                }
            },
        }
    }
}

/// The first Share of a profile whose folder has another policy, from the
/// `i`th on.
pub open spec fn policy_fault(shares: Seq<ProfileShareView>, targets: Seq<TargetView>, i: int) -> Option<
    BackupFault,
>
    decreases shares.len() - i,
{
    if i < 0 || i >= shares.len() {
        None
    } else if targets[i].policy is None {
        Some(BackupFault::UnreadablePolicy)
    } else if targets[i].policy->0 != shares[i].ignore {
        Some(BackupFault::DifferentPolicy)
    } else {
        policy_fault(shares, targets, i + 1)
    }
}

/// A Share keeps what was derived from its folders.
pub open spec fn keeps_state(old_share: ShareView, now: Seq<ShareView>) -> bool {
    match position(now, old_share.share_id) {
        None => false,
        Some(i) => now[i].root == old_share.root && now[i].binding_revision
            == old_share.binding_revision,
    }
}

/// The Shares whose derived state no longer holds.
pub open spec fn stale(was: Seq<ShareView>, now: Seq<ShareView>) -> Seq<Chars>
    decreases was.len(),
{
    if was.len() == 0 {
        Seq::empty()
    } else {
        let rest = stale(was.drop_last(), now);
        if keeps_state(was.last(), now) {
            rest
        } else {
            rest.push(was.last().share_id)
        }
    }
}

/// What importing a profile comes to: the configuration, and the Shares whose
/// derived state no longer holds.
pub open spec fn profile_import_of(
    c: ConfigView,
    p: ProfileView,
    home: Chars,
    targets: Seq<TargetView>,
) -> Result<(ConfigView, Seq<Chars>), BackupFault> {
    if p.version != 1 && p.version != 2 {
        Err(BackupFault::UnsupportedVersion)
    } else if policy_fault(p.shares, targets, 0) is Some {
        Err(policy_fault(p.shares, targets, 0)->0)
    } else {
        match profile_restored(Seq::empty(), c.shares, p.shares, targets, p.version, home, 0) {
            Err(e) => Err(e),
            Ok(now) => Ok(
                (
                    ConfigView { shares: now, sync_paused: p.sync_paused, ..c },
                    stale(c.shares, now),
                ),
            ),
        }
    }
}

fn stale_ids(was: &DeviceConfig, now: &DeviceConfig) -> (r: Vec<String>)
    ensures
        views(r@) == stale(was@.shares, now@.shares),
{
    let ghost all = was@.shares;
    let mut r: Vec<String> = Vec::new();
    let mut i: usize = 0;
    assert(views(r@) =~= Seq::<Chars>::empty());
    assert(all.take(0) =~= Seq::<ShareView>::empty());
    while i < was.shares.len()
        invariant
            i <= was.shares@.len(),
            all == was@.shares,
            views(r@) == stale(all.take(i as int), now@.shares),
        decreases was.shares@.len() - i,
    {
        let share = &was.shares[i];
        proof {
            assert(all.take(i + 1).drop_last() =~= all.take(i as int));
            assert(all.take(i + 1).last() == share@);
        }
        let kept = match now.find(share.share_id.as_str()) {
            None => false,
            Some(k) => {
                assert(now@.shares[k as int] == now.shares@[k as int]@);
                same(now.shares[k].root.as_str(), share.root.as_str())
                    && now.shares[k].binding_revision == share.binding_revision
            },
        };
        if !kept {
            proof {
                lemma_views_push(r@, share.share_id);
            }
            r.push(share.share_id.clone());
        }
        i = i + 1;
    }
    assert(all.take(i as int) =~= all);
    r
}

fn check_policies(shares: &Vec<ProfileShare>, targets: &Vec<Target>) -> (r: Option<BackupError>)
    requires
        targets@.len() == shares@.len(),
    ensures
        match policy_fault(seen(shares@), seen(targets@), 0) {
            Some(e) => r is Some && r->0@ == e,
            None => r is None,
        },
{
    let mut i: usize = 0;
    while i < shares.len()
        invariant
            i <= shares@.len() == targets@.len(),
            policy_fault(seen(shares@), seen(targets@), 0) == policy_fault(
                seen(shares@),
                seen(targets@),
                i as int,
            ),
        decreases shares@.len() - i,
    {
        proof {
            assert(seen(shares@)[i as int] == shares@[i as int]@);
            assert(seen(targets@)[i as int] == targets@[i as int]@);
        }
        match &targets[i].policy {
            None => {
                return Some(BackupError::UnreadablePolicy);
            },
            Some(text) => {
                if !same(text.as_str(), shares[i].ignore.as_str()) {
                    return Some(BackupError::DifferentPolicy);
                }
            },
        }
        i = i + 1;
    }
    None
}

fn next_revision(config: &DeviceConfig, id: &str, version: u32) -> (r: Result<u64, BackupError>)
    ensures
        match profile_revision(config@.shares, id@, version) {
            Ok(n) => r == Ok::<u64, BackupError>(n),
            Err(e) => r is Err && r->Err_0@ == e,
        },
{
    match config.find(id) {
        None => Ok(0),
        Some(i) => {
            assert(config@.shares[i as int] == config.shares@[i as int]@);
            let n = config.shares[i].binding_revision;
            if version != 1 {
                Ok(n)
            } else if n == u64::MAX {
                Err(BackupError::RevisionExhausted)
            } else {
                Ok(n + 1)
            }
        },
    }
}

/// Puts the Shares of a profile in place of the present ones. The identities
/// of the Shares whose derived state no longer holds are returned.
pub fn apply_profile(
    config: &mut DeviceConfig,
    home: &str,
    profile: &PublicProfile,
    targets: &Vec<Target>,
) -> (r: Result<Vec<String>, BackupError>)
    requires
        targets@.len() == profile.shares@.len(),
    ensures
        match profile_import_of(
            old(config)@,
            profile@,
            home@,
            seen(targets@),
        ) {
            Ok((c, ids)) => r is Ok && views(r->Ok_0@) == ids && final(config)@ == c,
            Err(e) => r is Err && r->Err_0@ == e && *final(config) == *old(config),
        },
{
    if profile.version != 1 && profile.version != 2 {
        return Err(BackupError::UnsupportedVersion);
    }
    if let Some(e) = check_policies(&profile.shares, targets) {
        return Err(e);
    }
    let ghost was = config@.shares;
    let ghost all = seen(profile.shares@);
    let ghost places = seen(targets@);
    let ghost whole = profile_restored(
        Seq::empty(),
        was,
        all,
        places,
        profile.version,
        home@,
        0,
    );
    let mut candidate = config.duplicate();
    candidate.shares = Vec::new();
    assert(seen(candidate.shares@) =~= Seq::<ShareView>::empty());
    let mut i: usize = 0;
    while i < profile.shares.len()
        invariant
            i <= profile.shares@.len() == targets@.len(),
            *config == *old(config),
            was == config@.shares,
            all == seen(profile.shares@),
            places == seen(targets@),
            profile.version == 1 || profile.version == 2,
            policy_fault(all, places, 0) is None,
            whole == profile_restored(Seq::empty(), was, all, places, profile.version, home@, 0),
            whole == profile_restored(
                candidate@.shares,
                was,
                all,
                places,
                profile.version,
                home@,
                i as int,
            ),
            candidate@ == (ConfigView { shares: candidate@.shares, ..config@ }),
        decreases profile.shares@.len() - i,
    {
        let item = &profile.shares[i];
        proof {
            assert(all[i as int] == item@);
            assert(places[i as int] == targets@[i as int]@);
        }
        let revision = match next_revision(config, item.share_id.as_str(), profile.version) {
            Ok(n) => n,
            Err(e) => {
                return Err(e);
            },
        };
        let mut share = crate::device::fresh_share(
            item.share_id.clone(),
            item.name.clone(),
            item.mode,
        );
        share.binding_revision = revision;
        share.enabled = item.enabled;
        let root = copy_root(&targets[i].root);
        if let Err(e) = candidate.put_share(home, share, root) {
            return Err(BackupError::Device(e));
        }
        i = i + 1;
    }
    candidate.sync_paused = profile.sync_paused;
    let ids = stale_ids(config, &candidate);
    *config = candidate;
    Ok(ids)
}

/// What was derived from a Share's folders is kept only while both folders
/// are the same: a Share that a profile moves, or has chosen anew on the phone,
/// starts over.
pub proof fn law_moved_share_starts_over(was: Seq<ShareView>, now: Seq<ShareView>, i: int)
    requires
        0 <= i < was.len(),
        !keeps_state(was[i], now),
    ensures
        stale(was, now).contains(was[i].share_id),
    decreases was.len(),
{
    let less = was.drop_last();
    if i < less.len() {
        assert(less[i] == was[i]);
        law_moved_share_starts_over(less, now, i);
        let rest = stale(less, now);
        let k = choose|k: int| 0 <= k < rest.len() && rest[k] == was[i].share_id;
        assert(stale(was, now)[k] == was[i].share_id);
    } else {
        assert(stale(was, now)[stale(less, now).len() as int] == was[i].share_id);
    }
}

proof fn lemma_restored(
    done: Seq<ShareView>,
    shares: Seq<ShareView>,
    targets: Seq<TargetView>,
    policies: Map<Chars, Chars>,
    home: Chars,
    i: int,
    k: int,
)
    requires
        0 <= i <= k < shares.len(),
        restored(done, shares, targets, policies, home, i) is Ok,
    ensures
        policies.dom().contains(shares[k].share_id),
        targets[k].policy == Some(policies[shares[k].share_id]),
        targets[k].root is Folder,
    decreases k - i,
{
    if i < k {
        lemma_restored(
            put(done, shares[i], targets[i].root),
            shares,
            targets,
            policies,
            home,
            i + 1,
            k,
        );
    }
}

/// A backup is restored only into folders that are there and have the policy
/// that the backup was made with, by a PC that can be who it says; it is of a
/// known form, with no more than it may hold.
pub proof fn law_import_is_checked(
    b: BackupView,
    home: Chars,
    targets: Seq<TargetView>,
    order: Seq<Chars>,
    tls_ok: bool,
    k: int,
)
    requires
        import_of(b, home, targets, order, tls_ok) is Ok,
        0 <= k < b.config.shares.len(),
    ensures
        tls_ok,
        b.version == 2 && b.config.version == 8,
        b.policies.dom().contains(b.config.shares[k].share_id),
        targets[k].policy == Some(b.policies[b.config.shares[k].share_id]),
        targets[k].root is Folder,
        order.len() <= 4096,
        ({
            let c = import_of(b, home, targets, order, tls_ok)->Ok_0.0;
            c.pair_id == b.config.pair_id && c.secret == b.config.secret && c.cert == b.config.cert
                && c.key == b.config.key && c.peer_device == b.config.peer_device && c.address
                == b.config.address && c.shares.len() == b.config.shares.len()
        }),
{
    lemma_restored(Seq::empty(), b.config.shares, targets, b.policies, home, 0, k);
}

proof fn lemma_policies_match(shares: Seq<ProfileShareView>, targets: Seq<TargetView>, i: int, k: int)
    requires
        0 <= i <= k < shares.len(),
        policy_fault(shares, targets, i) is None,
    ensures
        targets[k].policy == Some(shares[k].ignore),
    decreases k - i,
{
    if i < k {
        lemma_policies_match(shares, targets, i + 1, k);
    }
}

proof fn lemma_profile_shares(
    done: Seq<ShareView>,
    was: Seq<ShareView>,
    shares: Seq<ProfileShareView>,
    targets: Seq<TargetView>,
    version: u32,
    home: Chars,
    i: int,
    k: int,
)
    requires
        0 <= i <= k < shares.len(),
        profile_restored(done, was, shares, targets, version, home, i) is Ok,
    ensures
        targets[k].root is Folder,
    decreases k - i,
{
    if i < k {
        let s = ShareView {
            binding_revision: profile_revision(was, shares[i].share_id, version)->Ok_0,
            enabled: shares[i].enabled,
            ..new_share(shares[i].share_id, shares[i].name, shares[i].mode)
        };
        lemma_profile_shares(
            put(done, s, targets[i].root),
            was,
            shares,
            targets,
            version,
            home,
            i + 1,
            k,
        );
    }
}

/// A profile is taken over only into folders that are there and have its
/// policies; it leaves the PC's identity and the phone as they are.
pub proof fn law_profile_is_checked(
    c: ConfigView,
    p: ProfileView,
    home: Chars,
    targets: Seq<TargetView>,
    k: int,
)
    requires
        profile_import_of(c, p, home, targets) is Ok,
        0 <= k < p.shares.len(),
    ensures
        targets[k].policy == Some(p.shares[k].ignore),
        targets[k].root is Folder,
        ({
            let now = profile_import_of(c, p, home, targets)->Ok_0.0;
            now.pair_id == c.pair_id && now.secret == c.secret && now.cert == c.cert && now.key
                == c.key && now.peer_device == c.peer_device && now.address == c.address
                && now.sync_paused == p.sync_paused && now.share_requests == c.share_requests
        }),
{
    lemma_policies_match(p.shares, targets, 0, k);
    lemma_profile_shares(Seq::empty(), c.shares, p.shares, targets, p.version, home, 0, k);
}

/// A short passphrase opens nothing.
pub proof fn law_short_passphrase_opens_nothing(v: EncryptedView, passphrase: Chars)
    requires
        passphrase.len() < 8,
    ensures
        opened_backup(v, passphrase) is Err,
{
}

/// What was agreed on for a Share is dropped exactly where the Share is gone,
/// or is now in another folder, or has another revision.
pub proof fn law_only_unmoved_shares_keep_their_state(
    was: Seq<ShareView>,
    now: Seq<ShareView>,
    s: ShareView,
)
    requires
        forall|a: int, b: int| #![trigger now[a], now[b]]
            0 <= a < b < now.len() ==> now[a].share_id != now[b].share_id,
    ensures
        stale(was.push(s), now) == if exists|k: int|
            0 <= k < now.len() && (#[trigger] now[k]).share_id == s.share_id && now[k].root == s.root
                && now[k].binding_revision == s.binding_revision {
            stale(was, now)
        } else {
            stale(was, now).push(s.share_id)
        },
{
    assert(was.push(s).drop_last() =~= was);
    crate::device::lemma_position(now, s.share_id);
    let kept = exists|k: int|
        0 <= k < now.len() && (#[trigger] now[k]).share_id == s.share_id && now[k].root == s.root
            && now[k].binding_revision == s.binding_revision;
    if kept {
        let k = choose|k: int|
            0 <= k < now.len() && (#[trigger] now[k]).share_id == s.share_id && now[k].root == s.root
                && now[k].binding_revision == s.binding_revision;
        let at = position(now, s.share_id)->0;
        assert(now[at].share_id == now[k].share_id);
        assert(at == k);
    }
    if keeps_state(s, now) {
        let at = position(now, s.share_id)->0;
        assert(now[at].share_id == s.share_id);
    }
}

/// A Share of a profile keeps its revision; one of an old profile gets the next
/// one, so that it starts over; a Share that was not there begins at the first.
pub proof fn law_profile_revisions(shares: Seq<ShareView>, id: Chars, i: int)
    requires
        forall|k: int| 0 <= k < i ==> (#[trigger] shares[k]).share_id != id,
        0 <= i <= shares.len(),
    ensures
        i == shares.len() ==> profile_revision(shares, id, 1) == Ok::<u64, BackupFault>(0)
            && profile_revision(shares, id, 2) == Ok::<u64, BackupFault>(0),
        i < shares.len() && shares[i].share_id == id ==> {
            &&& profile_revision(shares, id, 2) == Ok::<u64, BackupFault>(shares[i].binding_revision)
            &&& shares[i].binding_revision < u64::MAX ==> profile_revision(shares, id, 1) is Ok
                && profile_revision(shares, id, 1)->Ok_0 == shares[i].binding_revision + 1
            &&& shares[i].binding_revision == u64::MAX ==> profile_revision(shares, id, 1) is Err
        },
{
    crate::device::lemma_position(shares, id);
    if i < shares.len() && shares[i].share_id == id {
        let at = position(shares, id)->0;
        assert(shares[at].share_id == id);
        assert(at == i);
    }
}

/// The key of a backup comes from its passphrase and its salt by a hundred and
/// fifty thousand rounds, and the file says what it is by its label.
pub proof fn law_backup_key_and_label(passphrase: Chars, salt: Seq<u8>)
    ensures
        passphrase_key(passphrase, salt) == derived_key(
            150_000,
            salt,
            vstd::utf8::encode_utf8(passphrase),
            32,
        ),
        backup_label() == vstd::utf8::encode_utf8("rowd-backup-v1"@),
{
    reveal_strlit("rowd-backup-v1");
    let s = "rowd-backup-v1"@;
    assert(vstd::utf8::is_ascii_chars(s));
    vstd::utf8::is_ascii_chars_encode_utf8(s);
    assert forall|i: int| 0 <= i < 14 implies vstd::utf8::encode_utf8(s)[i] == backup_label()[i] by {
        assert(s[i] as u8 == vstd::utf8::encode_utf8(s)[i]);
        assert(i == 0 || i == 1 || i == 2 || i == 3 || i == 4 || i == 5 || i == 6 || i == 7 || i == 8
            || i == 9 || i == 10 || i == 11 || i == 12 || i == 13);
    }
    assert(backup_label() =~= vstd::utf8::encode_utf8(s));
}

} // verus!
