//! What a person does with the application on the PC: pairing, Shares,
//! requests, policies, recovery, backups and diagnosis. The files themselves
//! are read and written elsewhere; what is found is handed in, and what is to
//! be stored is handed out.

use crate::backup::{
    apply_profile, check_state, files_seen, import_of, invitation, invitation_of, is_tls_identity,
    plan_import_given, policy_texts, profile_import_of, profile_of, profile_view, state_size,
    tls_identity, BackupError, BackupFault, BackupView, FullBackup, ImportPlan, PublicProfile, Target,
    TargetView, MAX_STATE, MAX_STATE_FILES,
};
use crate::collections::{lemma_listing_unique, lists, Duplicate, StringMap, StringSet};
use crate::config::{
    copy_list, lemma_seen_push, owned_text, seen, RemapPolicy, RequestView, ShareConfig,
    ShareRequest, ShareView, SyncMode,
};
use crate::device::{
    dropped, fresh_share, law_stored_share_is_as_given, new_share, position, put, put_fault, savable, ConfigView, DeviceConfig,
    DeviceError, DeviceFault, Root, RootView, CURRENT_DEVICE_VERSION,
};
use crate::invitation::{encoded, invitation_fault};
use crate::model::{is_hash, valid_hash, VERSION};
use crate::paths::{below, child, last_part, overlap, parts_of};
use crate::primitives::{
    copy_bytes, draw_blocks, draw_svg, hex_bytes, hex_decode, hex_encode, hex_text, is_hex,
    lemma_hex_round_trip, qr_blocks, qr_svg, random_id, self_signed, sha256, sha256_of, utf8_text,
};
use crate::protocol::PROTOCOL_VERSION;
use crate::storage::{
    all_reported, path_reported, LocalStore, RecoveryAction, RecoveryEntry, RecoveryRecord,
    StoreError, StoreView,
};
use crate::text::{
    before, compare, decimal, join, joined, lemma_before_asymmetric,
    lemma_before_irreflexive, lemma_before_total, lemma_before_transitive, lemma_views_push, number,
    same, views, Chars, Side,
};
use crate::watch::{Watch, WatchView};
use vstd::prelude::*;
use vstd::utf8::{
    decode_utf8, encode_utf8, encode_utf8_decode_utf8, encode_utf8_valid_utf8, is_ascii_chars,
    is_ascii_chars_encode_utf8, valid_utf8,
};

verus! {

/// The application of one person, in one folder.
#[derive(Clone, Debug)]
pub struct App {
    home: String,
}

/// What a PC proves itself with.
#[derive(Clone, Debug)]
pub struct Identity {
    pub pair_id: String,
    pub cert: String,
    pub key: String,
    pub secret: String,
}

/// An [`Identity`] as a mathematical value.
#[verifier::ext_equal]
pub struct IdentityView {
    pub pair_id: Chars,
    pub cert: Chars,
    pub key: Chars,
    pub secret: Chars,
}

impl View for Identity {
    type V = IdentityView;

    open spec fn view(&self) -> IdentityView {
        IdentityView {
            pair_id: self.pair_id@,
            cert: self.cert@,
            key: self.key@,
            secret: self.secret@,
        }
    }
}

/// An identity that is drawn anew: two digests, and the lower-case text of the
/// bytes of a certificate and of its key.
pub open spec fn drawn(v: IdentityView) -> bool {
    &&& valid_hash(v.pair_id) && valid_hash(v.secret)
    &&& is_hex(v.cert) && v.cert == hex_text(hex_bytes(v.cert))
    &&& is_hex(v.key) && v.key == hex_text(hex_bytes(v.key))
}

/// The name that every PC's certificate bears.
pub fn certificate_name() -> (r: String)
    ensures
        r@ == "rowd.local"@,
{
    "rowd.local".to_string()
}

fn draw_hash() -> (r: Result<String, DeviceError>)
    ensures
        r is Ok ==> valid_hash(r->Ok_0@),
        r is Err ==> r->Err_0@ == DeviceFault::NoRandom,
{
    match random_id() {
        Some(id) => {
            proof {
                crate::model::lemma_hex_is_hash(hex_bytes(id@));
            }
            Ok(id)
        },
        None => Err(DeviceError::NoRandom),
    }
}

/// No certificate and no key is longer than this.
pub const MAX_IDENTITY: usize = 0x1000_0000;

/// An identity of what was drawn for it: a certificate, its private key, the
/// name of the pairing, which is public, and the secret.
pub fn identity_of(cert: &Vec<u8>, key: &Vec<u8>, pair_id: String, secret: String) -> (r: Result<
    Identity,
    DeviceError,
>)
    ensures
        cert@.len() <= MAX_IDENTITY && key@.len() <= MAX_IDENTITY ==> r is Ok && r->Ok_0@ == (
        IdentityView {
            pair_id: pair_id@,
            cert: hex_text(cert@),
            key: hex_text(key@),
            secret: secret@,
        }),
        cert@.len() > MAX_IDENTITY || key@.len() > MAX_IDENTITY ==> r is Err && r->Err_0@
            == DeviceFault::NoIdentity,
{
    if cert.len() > MAX_IDENTITY || key.len() > MAX_IDENTITY {
        return Err(DeviceError::NoIdentity);
    }
    Ok(
        Identity {
            pair_id,
            cert: hex_encode(cert.as_slice()),
            key: hex_encode(key.as_slice()),
            secret,
        },
    )
}

/// Draws an identity: a certificate with its key, then the name of the pairing,
/// then the secret. What becomes of them says [`identity_of`].
pub fn fresh_identity() -> (r: Result<Identity, DeviceError>)
    ensures
        r is Ok ==> drawn(r->Ok_0@),
        r is Err ==> r->Err_0@ == DeviceFault::NoRandom || r->Err_0@ == DeviceFault::NoIdentity,
{
    let name = certificate_name();
    match self_signed(name.as_str()) {
        None => Err(DeviceError::NoIdentity),
        Some((cert, key)) => {
            proof {
                lemma_hex_round_trip(cert@);
                lemma_hex_round_trip(key@);
            }
            let pair_id = match draw_hash() {
                Ok(id) => id,
                Err(e) => {
                    return Err(e);
                },
            };
            let secret = match draw_hash() {
                Ok(id) => id,
                Err(e) => {
                    return Err(e);
                },
            };
            identity_of(&cert, &key, pair_id, secret)
        },
    }
}

/// A configuration without Shares.
pub open spec fn blank_config(address: Chars, listen: Chars, id: IdentityView) -> ConfigView {
    ConfigView {
        version: CURRENT_DEVICE_VERSION,
        address,
        listen,
        pair_id: id.pair_id,
        cert: id.cert,
        key: id.key,
        secret: id.secret,
        peer_device: None,
        shares: Seq::empty(),
        share_requests: Seq::empty(),
        rejected_requests: Seq::empty(),
        sync_paused: false,
        pending_unlink: false,
        import_generation: None,
    }
}

/// A configuration without Shares.
pub fn blank(address: String, listen: String, id: Identity) -> (r: DeviceConfig)
    ensures
        r@ == blank_config(address@, listen@, id@),
{
    let r = DeviceConfig {
        version: CURRENT_DEVICE_VERSION,
        address,
        listen,
        pair_id: id.pair_id,
        cert: id.cert,
        key: id.key,
        secret: id.secret,
        peer_device: None,
        shares: Vec::new(),
        share_requests: Vec::new(),
        rejected_requests: Vec::new(),
        sync_paused: false,
        pending_unlink: false,
        import_generation: None,
    };
    assert(r@ =~= blank_config(address@, listen@, id@));
    r
}

/// The outcome of a change: the new configuration takes effect if it may be
/// written, and nothing changes otherwise.
pub open spec fn changes(
    was: DeviceConfig,
    now: DeviceConfig,
    r: Result<(), DeviceError>,
    to: ConfigView,
) -> bool {
    if savable(to) {
        r is Ok && now@ == to
    } else {
        r is Err && r->Err_0@ == DeviceFault::LegacyIgnore && now == was
    }
}

/// The outcome of a change that is refused: nothing changes.
pub open spec fn refuses(
    was: DeviceConfig,
    now: DeviceConfig,
    r: Result<(), DeviceError>,
    e: DeviceFault,
) -> bool {
    r is Err && r->Err_0@ == e && now == was
}

/// Lets a changed configuration take effect, if it may be written.
pub fn update(config: &mut DeviceConfig, candidate: DeviceConfig) -> (r: Result<(), DeviceError>)
    ensures
        changes(*old(config), *final(config), r, candidate@),
{
    if let Err(e) = candidate.save() {
        return Err(e);
    }
    *config = candidate;
    Ok(())
}

/// The address that the phone is told. `unspecified` says that the given one
/// stands for all of the PC's addresses; then the one that leads to the local
/// network is told, with the same port.
pub fn published_address(
    address: &str,
    unspecified: bool,
    local: &Option<String>,
    port: u16,
) -> (r: Result<String, DeviceError>)
    ensures
        !unspecified ==> r is Ok && r->Ok_0@ == address@,
        unspecified && *local is Some ==> r is Ok && r->Ok_0@ == (*local)->0@ + ":"@ + decimal(
            port as nat,
        ),
        unspecified && *local is None ==> r is Err && r->Err_0@ == DeviceFault::NoLocalAddress,
{
    if !unspecified {
        return Ok(address.to_string());
    }
    match local {
        None => Err(DeviceError::NoLocalAddress),
        Some(ip) => {
            let mut r = ip.clone();
            r.append(":");
            let n = number(port as u64);
            r.append(n.as_str());
            Ok(r)
        },
    }
}

/// A first configuration with an identity that was drawn for it.
pub fn pair_with(address: String, id: Identity) -> (r: Result<DeviceConfig, DeviceError>)
    ensures
        ({
            let c = blank_config(address@, "0.0.0.0:43821"@, id@);
            if invitation_fault(invitation_of(c)) is None {
                r is Ok && r->Ok_0@ == c
            } else {
                r is Err && r->Err_0@ == DeviceFault::InvalidInvitation
            }
        }),
{
    let config = blank(address, "0.0.0.0:43821".to_string(), id);
    let invite = invitation(&config);
    if invite.validate().is_err() {
        return Err(DeviceError::InvalidInvitation);
    }
    Ok(config)
}

/// What the first version stored of its one folder.
#[derive(Clone, Debug)]
pub struct LegacyConfig {
    pub version: u32,
    pub root: String,
    pub pair_id: String,
    pub folder_id: String,
    pub cert: String,
    pub key: String,
    pub secret: String,
}

/// The one Share of a configuration of the first version.
pub open spec fn legacy_share(folder_id: Chars, root: Chars) -> ShareView {
    new_share(folder_id, parts_of(root).last(), SyncMode::Bidirectional)
}

/// The configuration that one of the first version becomes, before its Share
/// is stored.
pub open spec fn legacy_config(old_config: LegacyConfig, peer: Option<Chars>, address: Chars) -> ConfigView {
    ConfigView {
        peer_device: peer,
        ..blank_config(
            address,
            "0.0.0.0:43821"@,
            IdentityView {
                pair_id: old_config.pair_id@,
                cert: old_config.cert@,
                key: old_config.key@,
                secret: old_config.secret@,
            },
        )
    }
}

/// Why a configuration of the first version cannot be taken over, if there is
/// a reason.
pub open spec fn migrate_fault(old_config: LegacyConfig, home: Chars, root: Chars, place: RootView) -> Option<
    DeviceFault,
> {
    if old_config.version != VERSION || old_config.root@ != root {
        Some(DeviceFault::LegacyMoved)
    } else if parts_of(root).len() == 0 {
        Some(DeviceFault::UnnamedRoot)
    } else {
        put_fault(Seq::empty(), home, legacy_share(old_config.folder_id@, root), place)
    }
}

impl App {
    /// The folder that the application keeps its files in.
    pub closed spec fn place(&self) -> Chars {
        self.home@
    }

    /// The application whose files are in a folder.
    pub fn new(home: String) -> (r: Self)
        ensures
            r.place() == home@,
    {
        App { home }
    }

    /// The folder that the application keeps its files in.
    pub fn home(&self) -> (r: &String)
        ensures
            r@ == self.place(),
    {
        &self.home
    }

    /// Pairing: a first configuration is made, or the address of the present
    /// one is changed. The identity of a first configuration is drawn.
    pub fn pair(&self, existing: Option<DeviceConfig>, address: String) -> (r: Result<
        DeviceConfig,
        DeviceError,
    >)
        ensures
            match existing {
                Some(c) => if savable(c@) {
                    r is Ok && r->Ok_0@ == (ConfigView { address: address@, ..c@ })
                } else {
                    r is Err && r->Err_0@ == DeviceFault::LegacyIgnore
                },
                None => match r {
                    Ok(c) => exists|id: IdentityView| #[trigger]
                        drawn(id) && c@ == blank_config(address@, "0.0.0.0:43821"@, id)
                            && invitation_fault(invitation_of(c@)) is None,
                    Err(e) => e@ == DeviceFault::NoRandom || e@ == DeviceFault::NoIdentity || (e@
                        == DeviceFault::InvalidInvitation && exists|id: IdentityView| #[trigger]
                        drawn(id) && invitation_fault(
                            invitation_of(blank_config(address@, "0.0.0.0:43821"@, id)),
                        ) is Some),
                },
            },
    {
        match existing {
            Some(config) => {
                let mut config = config;
                config.address = address;
                match config.save() {
                    Ok(()) => Ok(config),
                    Err(e) => Err(e),
                }
            },
            None => match fresh_identity() {
                Err(e) => Err(e),
                Ok(id) => {
                    let ghost drawn_id = id@;
                    let r = pair_with(address, id);
                    assert(drawn(drawn_id));
                    r
                },
            },
        }
    }

    /// Takes over a configuration of the first version. `place` says what
    /// stands at its folder, `peer` which phone it was paired with.
    pub fn migrate(
        &self,
        old_config: &LegacyConfig,
        configured: bool,
        root: &str,
        place: Root,
        peer: Option<String>,
        address: String,
    ) -> (r: Result<DeviceConfig, DeviceError>)
        ensures
            configured ==> r is Err && r->Err_0@ == DeviceFault::AlreadyConfigured,
            !configured ==> match migrate_fault(*old_config, self.place(), root@, place@) {
                Some(e) => r is Err && r->Err_0@ == e,
                None => r is Ok && r->Ok_0@ == (ConfigView {
                    shares: put(
                        Seq::empty(),
                        legacy_share(old_config.folder_id@, root@),
                        place@,
                    ),
                    ..legacy_config(*old_config, owned_text(peer), address@)
                }),
            },
    {
        if configured {
            return Err(DeviceError::AlreadyConfigured);
        }
        if old_config.version != VERSION || !same(old_config.root.as_str(), root) {
            return Err(DeviceError::LegacyMoved);
        }
        let name = match last_part(root) {
            Some(name) => name,
            None => {
                return Err(DeviceError::UnnamedRoot);
            },
        };
        let id = Identity {
            pair_id: old_config.pair_id.clone(),
            cert: old_config.cert.clone(),
            key: old_config.key.clone(),
            secret: old_config.secret.clone(),
        };
        let mut config = blank(address, "0.0.0.0:43821".to_string(), id);
        config.peer_device = peer;
        let share = fresh_share(old_config.folder_id.clone(), name, SyncMode::Bidirectional);
        match config.put_share(self.home.as_str(), share, place) {
            Ok(()) => Ok(config),
            Err(e) => Err(e),
        }
    }
}

/// The Shares with one of them changed.
pub open spec fn with_share(shares: Seq<ShareView>, i: int, s: ShareView) -> Seq<ShareView> {
    shares.update(i, s)
}

/// What storing a changed Share comes to.
pub open spec fn stores(
    was: DeviceConfig,
    now: DeviceConfig,
    r: Result<(), DeviceError>,
    home: Chars,
    share: ShareView,
    place: RootView,
) -> bool {
    match put_fault(was@.shares, home, share, place) {
        Some(e) => refuses(was, now, r, e),
        None => changes(
            was,
            now,
            r,
            ConfigView { shares: put(was@.shares, share, place), ..was@ },
        ),
    }
}

/// The open requests without those that have an identity.
pub open spec fn answered_requests(requests: Seq<RequestView>, id: Chars) -> Seq<RequestView>
    decreases requests.len(),
{
    if requests.len() == 0 {
        Seq::empty()
    } else {
        let rest = answered_requests(requests.drop_last(), id);
        if requests.last().request_id == id {
            rest
        } else {
            rest.push(requests.last())
        }
    }
}

/// Where the first request with an identity stands.
pub open spec fn request_position(requests: Seq<RequestView>, id: Chars) -> Option<int>
    decreases requests.len(),
{
    if requests.len() == 0 {
        None
    } else {
        match request_position(requests.drop_last(), id) {
            Some(i) => Some(i),
            None => if requests.last().request_id == id {
                Some(requests.len() - 1)
            } else {
                None
            },
        }
    }
}

proof fn lemma_request_position(requests: Seq<RequestView>, id: Chars)
    ensures
        match request_position(requests, id) {
            Some(i) => 0 <= i < requests.len() && requests[i].request_id == id && forall|k: int|
                0 <= k < i ==> (#[trigger] requests[k]).request_id != id,
            None => forall|k: int|
                0 <= k < requests.len() ==> (#[trigger] requests[k]).request_id != id,
        },
    decreases requests.len(),
{
    if requests.len() > 0 {
        let less = requests.drop_last();
        lemma_request_position(less, id);
        match request_position(less, id) {
            Some(i) => {
                assert(requests[i] == less[i]);
                assert forall|k: int| 0 <= k < i implies (#[trigger] requests[k]).request_id != id by {
                    assert(less[k] == requests[k]);
                }
            },
            None => {
                assert forall|k: int| 0 <= k < less.len() implies (
                #[trigger] requests[k]).request_id != id by {
                    assert(less[k] == requests[k]);
                }
            },
        }
    }
}

fn find_open(requests: &Vec<ShareRequest>, id: &str) -> (r: Option<usize>)
    ensures
        match r {
            Some(i) => i < requests@.len() && request_position(seen(requests@), id@) == Some(
                i as int,
            ),
            None => request_position(seen(requests@), id@) is None,
        },
{
    let mut i: usize = 0;
    while i < requests.len()
        invariant
            i <= requests@.len(),
            forall|k: int| 0 <= k < i ==> (#[trigger] seen(requests@)[k]).request_id != id@,
        decreases requests@.len() - i,
    {
        assert(seen(requests@)[i as int] == requests@[i as int]@);
        if same(requests[i].request_id.as_str(), id) {
            proof {
                lemma_request_position(seen(requests@), id@);
            }
            return Some(i);
        }
        i = i + 1;
    }
    proof {
        lemma_request_position(seen(requests@), id@);
    }
    None
}

fn without_request(requests: &Vec<ShareRequest>, id: &str) -> (r: Vec<ShareRequest>)
    ensures
        seen(r@) == answered_requests(seen(requests@), id@),
{
    let ghost all = seen(requests@);
    let mut r: Vec<ShareRequest> = Vec::new();
    let mut i: usize = 0;
    assert(seen(r@) =~= Seq::<RequestView>::empty());
    assert(all.take(0) =~= Seq::<RequestView>::empty());
    while i < requests.len()
        invariant
            i <= requests@.len(),
            all == seen(requests@),
            seen(r@) == answered_requests(all.take(i as int), id@),
        decreases requests@.len() - i,
    {
        proof {
            assert(all.take(i + 1).drop_last() =~= all.take(i as int));
            assert(all.take(i + 1).last() == requests@[i as int]@);
        }
        if !same(requests[i].request_id.as_str(), id) {
            let request = requests[i].duplicate();
            proof {
                lemma_seen_push(r@, request);
            }
            r.push(request);
        }
        i = i + 1;
    }
    assert(all.take(i as int) =~= all);
    r
}

/// A Share as a request asks for it.
pub open spec fn requested_share(id: Chars, request: RequestView) -> ShareView {
    ShareView {
        request_id: Some(request.request_id),
        ..new_share(id, request.name, request.mode)
    }
}

/// The configuration with a request accepted.
pub open spec fn accepted_config(c: ConfigView, i: int, id: Chars, place: RootView) -> ConfigView {
    let request = c.share_requests[i];
    ConfigView {
        shares: put(c.shares, requested_share(id, request), place),
        share_requests: answered_requests(c.share_requests, request.request_id),
        ..c
    }
}

/// The open requests.
pub fn pending_share_requests(config: &DeviceConfig) -> (r: Vec<ShareRequest>)
    ensures
        seen(r@) == config@.share_requests,
{
    copy_list(&config.share_requests)
}

/// The configuration of a PC that no phone knows any more.
pub open spec fn revoked_config(c: ConfigView, id: IdentityView) -> ConfigView {
    ConfigView {
        pair_id: id.pair_id,
        cert: id.cert,
        key: id.key,
        secret: id.secret,
        peer_device: None,
        pending_unlink: false,
        share_requests: Seq::empty(),
        rejected_requests: Seq::empty(),
        ..c
    }
}

/// Gives the PC an identity that was drawn for it: the paired phone is
/// forgotten, and so are its requests.
pub fn revoke_with(config: &mut DeviceConfig, id: Identity) -> (r: Result<(), DeviceError>)
    ensures
        changes(*old(config), *final(config), r, revoked_config(old(config)@, id@)),
{
    let mut candidate = config.duplicate();
    candidate.pair_id = id.pair_id;
    candidate.cert = id.cert;
    candidate.key = id.key;
    candidate.secret = id.secret;
    candidate.peer_device = None;
    candidate.pending_unlink = false;
    candidate.share_requests = Vec::new();
    candidate.rejected_requests = Vec::new();
    assert(candidate@ =~= revoked_config(old(config)@, id@));
    update(config, candidate)
}

/// Accepts a request with an identity that was drawn for the Share.
pub fn accept_as(
    config: &mut DeviceConfig,
    home: &str,
    id: String,
    request_id: &str,
    place: Root,
) -> (r: Result<(), DeviceError>)
    ensures
        match request_position(old(config)@.share_requests, request_id@) {
            None => refuses(*old(config), *final(config), r, DeviceFault::RequestNotFound),
            Some(i) => match put_fault(
                old(config)@.shares,
                home@,
                requested_share(id@, old(config)@.share_requests[i]),
                place@,
            ) {
                Some(e) => refuses(*old(config), *final(config), r, e),
                None => changes(
                    *old(config),
                    *final(config),
                    r,
                    accepted_config(old(config)@, i, id@, place@),
                ),
            },
        },
{
    let i = match find_open(&config.share_requests, request_id) {
        Some(i) => i,
        None => {
            return Err(DeviceError::RequestNotFound);
        },
    };
    let request = config.share_requests[i].duplicate();
    assert(config@.share_requests[i as int] == request@);
    let mut share = fresh_share(id, request.name, request.mode);
    share.request_id = Some(request.request_id.clone());
    assert(share@ =~= requested_share(id@, request@));
    let mut candidate = config.duplicate();
    if let Err(e) = candidate.put_share(home, share, place) {
        return Err(e);
    }
    candidate.share_requests = without_request(
        &candidate.share_requests,
        request.request_id.as_str(),
    );
    assert(candidate@ =~= accepted_config(old(config)@, i as int, id@, place@));
    update(config, candidate)
}

impl App {
    /// Adds a Share under an identity that is drawn for it.
    pub fn add_share(
        &self,
        config: &mut DeviceConfig,
        name: String,
        place: Root,
        mode: SyncMode,
    ) -> (r: Result<String, DeviceError>)
        ensures
            match r {
                Ok(id) => valid_hash(id@) && put_fault(
                    old(config)@.shares,
                    self.place(),
                    new_share(id@, name@, mode),
                    place@,
                ) is None && final(config)@ == (ConfigView {
                    shares: put(old(config)@.shares, new_share(id@, name@, mode), place@),
                    ..old(config)@
                }) && savable(final(config)@),
                Err(e) => *final(config) == *old(config) && (e@ == DeviceFault::NoRandom
                    || exists|id: Chars| #[trigger]
                    valid_hash(id) && match put_fault(
                        old(config)@.shares,
                        self.place(),
                        new_share(id, name@, mode),
                        place@,
                    ) {
                        Some(f) => e@ == f,
                        None => e@ == DeviceFault::LegacyIgnore && !savable(
                            ConfigView {
                                shares: put(old(config)@.shares, new_share(id, name@, mode), place@),
                                ..old(config)@
                            },
                        ),
                    }),
            },
    {
        let mut candidate = config.duplicate();
        match candidate.add_share(self.home.as_str(), name, place, mode) {
            Err(e) => {
                proof {
                    if e@ != DeviceFault::NoRandom {
                        let id = choose|id: Chars|
                            valid_hash(id) && Some(e@) == #[trigger] put_fault(
                                old(config)@.shares,
                                self.place(),
                                new_share(id, name@, mode),
                                place@,
                            );
                        assert(valid_hash(id));
                    }
                }
                Err(e)
            },
            Ok(id) => match update(config, candidate) {
                Ok(()) => Ok(id),
                Err(e) => {
                    assert(valid_hash(id@));
                    Err(e)
                },
            },
        }
    }

    /// Changes a Share's name, folder and mode.
    pub fn edit_share(
        &self,
        config: &mut DeviceConfig,
        id: &str,
        name: String,
        place: Root,
        mode: SyncMode,
    ) -> (r: Result<(), DeviceError>)
        ensures
            match position(old(config)@.shares, id@) {
                None => refuses(*old(config), *final(config), r, DeviceFault::UnknownShare),
                Some(i) => stores(
                    *old(config),
                    *final(config),
                    r,
                    self.place(),
                    ShareView { name: name@, mode, ..old(config)@.shares[i] },
                    place@,
                ),
            },
    {
        self.patch_share(config, id, Some(name), place, Some(mode))
    }

    /// Changes what is given of a Share. `place` says what stands at the folder
    /// that the Share has then.
    pub fn patch_share(
        &self,
        config: &mut DeviceConfig,
        id: &str,
        name: Option<String>,
        place: Root,
        mode: Option<SyncMode>,
    ) -> (r: Result<(), DeviceError>)
        ensures
            match position(old(config)@.shares, id@) {
                None => refuses(*old(config), *final(config), r, DeviceFault::UnknownShare),
                Some(i) => stores(
                    *old(config),
                    *final(config),
                    r,
                    self.place(),
                    ShareView {
                        name: match name {
                            Some(n) => n@,
                            None => old(config)@.shares[i].name,
                        },
                        mode: match mode {
                            Some(m) => m,
                            None => old(config)@.shares[i].mode,
                        },
                        ..old(config)@.shares[i]
                    },
                    place@,
                ),
            },
    {
        let i = match config.find(id) {
            Some(i) => i,
            None => {
                return Err(DeviceError::UnknownShare);
            },
        };
        let mut share = config.shares[i].duplicate();
        assert(config@.shares[i as int] == share@);
        if let Some(name) = name {
            share.name = name;
        }
        if let Some(mode) = mode {
            share.mode = mode;
        }
        let mut candidate = config.duplicate();
        if let Err(e) = candidate.put_share(self.home.as_str(), share, place) {
            return Err(e);
        }
        update(config, candidate)
    }

    /// Takes a Share out of the configuration; its files stay.
    pub fn remove_share(&self, config: &mut DeviceConfig, id: &str) -> (r: Result<(), DeviceError>)
        ensures
            if position(old(config)@.shares, id@) is None {
                refuses(*old(config), *final(config), r, DeviceFault::UnknownShare)
            } else {
                changes(
                    *old(config),
                    *final(config),
                    r,
                    ConfigView { shares: dropped(old(config)@.shares, id@), ..old(config)@ },
                )
            },
    {
        let mut candidate = config.duplicate();
        if let Err(e) = candidate.remove_share(id) {
            return Err(e);
        }
        update(config, candidate)
    }

    /// Turns a Share on or off.
    pub fn set_share_enabled(&self, config: &mut DeviceConfig, id: &str, enabled: bool) -> (r: Result<
        (),
        DeviceError,
    >)
        ensures
            match position(old(config)@.shares, id@) {
                None => refuses(*old(config), *final(config), r, DeviceFault::UnknownShare),
                Some(i) => changes(
                    *old(config),
                    *final(config),
                    r,
                    ConfigView {
                        shares: with_share(
                            old(config)@.shares,
                            i,
                            ShareView { enabled, ..old(config)@.shares[i] },
                        ),
                        ..old(config)@
                    },
                ),
            },
    {
        let i = match config.find(id) {
            Some(i) => i,
            None => {
                return Err(DeviceError::UnknownShare);
            },
        };
        let mut candidate = config.duplicate();
        let mut share = config.shares[i].duplicate();
        assert(config@.shares[i as int] == share@);
        share.enabled = enabled;
        proof {
            assert(seen(candidate.shares@) == seen(config.shares@));
            assert(candidate.shares@.len() == seen(candidate.shares@).len());
        }
        candidate.shares.set(i, share);
        assert(seen(candidate.shares@) =~= with_share(
            old(config)@.shares,
            i as int,
            ShareView { enabled, ..old(config)@.shares[i as int] },
        ));
        update(config, candidate)
    }

    /// Stops synchronisation, or lets it go on.
    pub fn set_sync_paused(&self, config: &mut DeviceConfig, paused: bool) -> (r: Result<
        (),
        DeviceError,
    >)
        ensures
            changes(
                *old(config),
                *final(config),
                r,
                ConfigView { sync_paused: paused, ..old(config)@ },
            ),
    {
        let mut candidate = config.duplicate();
        candidate.sync_paused = paused;
        update(config, candidate)
    }

    /// Makes a Share of a request, under an identity that is drawn for it.
    pub fn accept_share_request(&self, config: &mut DeviceConfig, request_id: &str, place: Root) -> (r:
        Result<(), DeviceError>)
        ensures
            match request_position(old(config)@.share_requests, request_id@) {
                None => refuses(*old(config), *final(config), r, DeviceFault::RequestNotFound),
                Some(i) => (r is Err && r->Err_0@ == DeviceFault::NoRandom && *final(config) == *old(
                    config,
                )) || exists|id: Chars| #[trigger]
                    valid_hash(id) && match put_fault(
                        old(config)@.shares,
                        self.place(),
                        requested_share(id, old(config)@.share_requests[i]),
                        place@,
                    ) {
                        Some(e) => refuses(*old(config), *final(config), r, e),
                        None => changes(
                            *old(config),
                            *final(config),
                            r,
                            accepted_config(old(config)@, i, id, place@),
                        ),
                    },
            },
    {
        if find_open(&config.share_requests, request_id).is_none() {
            return Err(DeviceError::RequestNotFound);
        }
        let id = match draw_hash() {
            Ok(id) => id,
            Err(e) => {
                return Err(e);
            },
        };
        let ghost drawn_id = id@;
        let r = accept_as(config, self.home.as_str(), id, request_id, place);
        assert(valid_hash(drawn_id));
        r
    }

    /// Rejects a request. The rejection is kept until the phone has heard of
    /// it.
    pub fn reject_share_request(&self, config: &mut DeviceConfig, request_id: &str) -> (r: Result<
        (),
        DeviceError,
    >)
        ensures
            match request_position(old(config)@.share_requests, request_id@) {
                None => refuses(*old(config), *final(config), r, DeviceFault::RequestNotFound),
                Some(i) => changes(
                    *old(config),
                    *final(config),
                    r,
                    ConfigView {
                        share_requests: old(config)@.share_requests.remove(i),
                        rejected_requests: old(config)@.rejected_requests.push(
                            old(config)@.share_requests[i],
                        ),
                        ..old(config)@
                    },
                ),
            },
    {
        let i = match find_open(&config.share_requests, request_id) {
            Some(i) => i,
            None => {
                return Err(DeviceError::RequestNotFound);
            },
        };
        let mut candidate = config.duplicate();
        proof {
            assert(seen(candidate.share_requests@) == seen(config.share_requests@));
            assert(candidate.share_requests@.len() == seen(candidate.share_requests@).len());
            assert(seen(candidate.share_requests@)[i as int] == candidate.share_requests@[i as int]@);
        }
        let ghost open = candidate.share_requests@;
        let request = candidate.share_requests.remove(i);
        proof {
            assert(seen(candidate.share_requests@) =~= seen(open).remove(i as int));
            lemma_seen_push(candidate.rejected_requests@, request);
        }
        candidate.rejected_requests.push(request);
        update(config, candidate)
    }

    /// The open requests.
    pub fn share_requests(&self, config: &DeviceConfig) -> (r: Vec<ShareRequest>)
        ensures
            seen(r@) == config@.share_requests,
    {
        pending_share_requests(config)
    }

    /// The Share whose derived state is put aside, so that it is made anew.
    pub fn reindex_share(&self, config: &DeviceConfig, id: &str) -> (r: Result<
        ShareConfig,
        DeviceError,
    >)
        ensures
            match position(config@.shares, id@) {
                None => r is Err && r->Err_0@ == DeviceFault::UnknownShare,
                Some(i) => r is Ok && r->Ok_0@ == config@.shares[i],
            },
    {
        match config.find(id) {
            None => Err(DeviceError::UnknownShare),
            Some(i) => {
                assert(config@.shares[i as int] == config.shares@[i as int]@);
                Ok(config.shares[i].duplicate())
            },
        }
    }

    /// Lets the phone choose a Share's folder anew; `policy` says whose files
    /// count then.
    pub fn remap_share(
        &self,
        config: &mut DeviceConfig,
        id: &str,
        policy: RemapPolicy,
        place: Root,
    ) -> (r: Result<(), DeviceError>)
        ensures
            match position(old(config)@.shares, id@) {
                None => refuses(*old(config), *final(config), r, DeviceFault::UnknownShare),
                Some(i) => if old(config)@.shares[i].binding_revision == u64::MAX {
                    refuses(*old(config), *final(config), r, DeviceFault::RevisionExhausted)
                } else {
                    stores(
                        *old(config),
                        *final(config),
                        r,
                        self.place(),
                        ShareView {
                            binding_revision: (old(config)@.shares[i].binding_revision + 1) as u64,
                            remap_policy: Some(policy),
                            ..old(config)@.shares[i]
                        },
                        place@,
                    )
                },
            },
    {
        let i = match config.find(id) {
            Some(i) => i,
            None => {
                return Err(DeviceError::UnknownShare);
            },
        };
        let mut share = config.shares[i].duplicate();
        assert(config@.shares[i as int] == share@);
        if share.binding_revision == u64::MAX {
            return Err(DeviceError::RevisionExhausted);
        }
        share.binding_revision = share.binding_revision + 1;
        share.remap_policy = Some(policy);
        let mut candidate = config.duplicate();
        if let Err(e) = candidate.put_share(self.home.as_str(), share, place) {
            return Err(e);
        }
        update(config, candidate)
    }

    /// Calls for a Share to be synchronised next.
    pub fn request_share_sync(&self, config: &DeviceConfig, id: &str) -> (r: Result<(), DeviceError>)
        ensures
            match position(config@.shares, id@) {
                None => r is Err && r->Err_0@ == DeviceFault::UnknownShare,
                Some(i) => if config@.shares[i].enabled {
                    r is Ok
                } else {
                    r is Err && r->Err_0@ == DeviceFault::SharePaused
                },
            },
    {
        match config.find(id) {
            None => Err(DeviceError::UnknownShare),
            Some(i) => {
                assert(config@.shares[i as int] == config.shares@[i as int]@);
                if !config.shares[i].enabled {
                    return Err(DeviceError::SharePaused);
                }
                Ok(())
            },
        }
    }

    /// Ends the pairing at the phone's next visit.
    pub fn unlink_device(&self, config: &mut DeviceConfig) -> (r: Result<(), DeviceError>)
        ensures
            if old(config)@.peer_device is None {
                refuses(*old(config), *final(config), r, DeviceFault::NothingPaired)
            } else {
                changes(
                    *old(config),
                    *final(config),
                    r,
                    ConfigView { pending_unlink: true, ..old(config)@ },
                )
            },
    {
        if config.peer_device.is_none() {
            return Err(DeviceError::NothingPaired);
        }
        let mut candidate = config.duplicate();
        candidate.pending_unlink = true;
        update(config, candidate)
    }

    /// Ends the pairing at once: an identity is drawn that the phone does not
    /// know.
    pub fn revoke_device(&self, config: &mut DeviceConfig) -> (r: Result<(), DeviceError>)
        ensures
            (r is Err && *final(config) == *old(config) && (r->Err_0@ == DeviceFault::NoRandom
                || r->Err_0@ == DeviceFault::NoIdentity)) || exists|id: IdentityView| #[trigger]
                drawn(id) && changes(
                    *old(config),
                    *final(config),
                    r,
                    revoked_config(old(config)@, id),
                ),
    {
        match fresh_identity() {
            Err(e) => Err(e),
            Ok(id) => {
                let ghost drawn_id = id@;
                let r = revoke_with(config, id);
                assert(drawn(drawn_id));
                r
            },
        }
    }

    /// Starts over with a configuration without Shares, at the same address.
    pub fn reset_device_configuration(&self, config: &mut DeviceConfig) -> (r: Result<
        (),
        DeviceError,
    >)
        ensures
            match r {
                Ok(()) => exists|id: IdentityView| #[trigger]
                    drawn(id) && final(config)@ == blank_config(
                        old(config)@.address,
                        old(config)@.listen,
                        id,
                    ),
                Err(e) => *final(config) == *old(config) && (e@ == DeviceFault::NoRandom || e@
                    == DeviceFault::NoIdentity),
            },
    {
        match fresh_identity() {
            Err(e) => Err(e),
            Ok(id) => {
                let ghost drawn_id = id@;
                let fresh = blank(config.address.clone(), config.listen.clone(), id);
                *config = fresh;
                assert(drawn(drawn_id));
                Ok(())
            },
        }
    }
}

/// A phone that the PC has forgotten cannot come back with what it knows: the
/// identity, the secret and the certificate are new ones, and no request of it
/// is left. The Shares stay.
pub proof fn law_revoked_phone_is_forgotten(c: ConfigView, id: IdentityView)
    ensures
        ({
            let r = revoked_config(c, id);
            &&& r.peer_device is None
            &&& r.share_requests.len() == 0 && r.rejected_requests.len() == 0
            &&& r.pair_id == id.pair_id && r.secret == id.secret && r.cert == id.cert
            &&& r.shares == c.shares
        }),
{
}

proof fn lemma_answered(requests: Seq<RequestView>, id: Chars)
    ensures
        request_position(answered_requests(requests, id), id) is None,
    decreases requests.len(),
{
    if requests.len() > 0 {
        let less = requests.drop_last();
        lemma_answered(less, id);
        let rest = answered_requests(less, id);
        if requests.last().request_id != id {
            assert(rest.push(requests.last()).drop_last() =~= rest);
        }
    }
}

/// An accepted request is open no longer, and the Share that it became bears
/// its identity, so that the phone is told.
pub proof fn law_accepted_request_is_answered(c: ConfigView, i: int, id: Chars, place: RootView)
    requires
        0 <= i < c.share_requests.len(),
        position(c.shares, id) is None,
    ensures
        ({
            let a = accepted_config(c, i, id, place);
            let request = c.share_requests[i].request_id;
            &&& request_position(a.share_requests, request) is None
            &&& a.shares.len() == c.shares.len() + 1
            &&& a.shares.last().request_id == Some(request)
        }),
{
    lemma_answered(c.share_requests, c.share_requests[i].request_id);
}

/// What is known of the PC and its phone.
#[derive(Clone, Debug)]
pub struct DeviceStatus {
    pub configured: bool,
    pub paired: bool,
    pub address: String,
    pub identity: String,
    pub fingerprint: String,
    pub sync_paused: bool,
    pub last_connection: Option<u64>,
}

/// A [`DeviceStatus`] as a mathematical value.
#[verifier::ext_equal]
pub struct StatusView {
    pub configured: bool,
    pub paired: bool,
    pub address: Chars,
    pub identity: Chars,
    pub fingerprint: Chars,
    pub sync_paused: bool,
    pub last_connection: Option<u64>,
}

impl View for DeviceStatus {
    type V = StatusView;

    open spec fn view(&self) -> StatusView {
        StatusView {
            configured: self.configured,
            paired: self.paired,
            address: self.address@,
            identity: self.identity@,
            fingerprint: self.fingerprint@,
            sync_paused: self.sync_paused,
            last_connection: self.last_connection,
        }
    }
}

/// What is shown for pairing.
#[derive(Clone, Debug)]
pub struct PairingInfo {
    pub device: DeviceStatus,
    /// The QR code in block characters.
    pub qr: String,
    /// Where the QR code is kept as an image.
    pub qr_image: String,
}

/// A digest as pairs of digits with colons between them.
pub open spec fn colon_text(digest: Seq<u8>) -> Chars {
    joined(Seq::new(digest.len(), |i: int| hex_text(seq![digest[i]])), ":"@)
}

fn colons(digest: &Vec<u8>) -> (r: String)
    ensures
        r@ == colon_text(digest@),
{
    let ghost all = Seq::new(digest@.len(), |i: int| hex_text(seq![digest@[i]]));
    let mut pairs: Vec<String> = Vec::new();
    let mut i: usize = 0;
    assert(views(pairs@) =~= all.take(0));
    while i < digest.len()
        invariant
            i <= digest@.len(),
            all == Seq::new(digest@.len(), |k: int| hex_text(seq![digest@[k]])),
            views(pairs@) == all.take(i as int),
        decreases digest@.len() - i,
    {
        let one: Vec<u8> = vec![digest[i]];
        assert(one@ =~= seq![digest@[i as int]]);
        let text = hex_encode(one.as_slice());
        proof {
            lemma_views_push(pairs@, text);
            assert(all.take(i + 1) =~= all.take(i as int).push(all[i as int]));
        }
        pairs.push(text);
        i = i + 1;
    }
    assert(all.take(i as int) =~= all);
    join(&pairs, ":")
}

/// The fingerprint of the PC's certificate, by which a person recognises it.
pub fn pairing_fingerprint(config: &DeviceConfig) -> (r: Result<String, DeviceError>)
    ensures
        r is Ok <==> is_hex(config@.cert),
        r is Ok ==> r->Ok_0@ == colon_text(sha256_of(hex_bytes(config@.cert))),
        r is Err ==> r->Err_0@ == DeviceFault::InvalidCertificate,
{
    match hex_decode(config.cert.as_str()) {
        None => Err(DeviceError::InvalidCertificate),
        Some(bytes) => {
            let digest = sha256(bytes.as_slice());
            Ok(colons(&digest))
        },
    }
}

/// What is known of a PC that has a configuration.
pub open spec fn status_of(c: ConfigView, last_connection: Option<u64>) -> StatusView {
    StatusView {
        configured: true,
        paired: c.peer_device is Some,
        address: c.address,
        identity: match c.peer_device {
            Some(id) => id,
            None => "aguardando primeiro vínculo"@,
        },
        fingerprint: colon_text(sha256_of(hex_bytes(c.cert))),
        sync_paused: c.sync_paused,
        last_connection,
    }
}

/// What is known of a PC that has none.
pub open spec fn no_status() -> StatusView {
    StatusView {
        configured: false,
        paired: false,
        address: "não configurado"@,
        identity: "aguardando configuração"@,
        fingerprint: "indisponível"@,
        sync_paused: false,
        last_connection: None,
    }
}

/// A failure that is remembered.
#[derive(Clone, Debug)]
pub struct StoredError {
    pub at: u64,
    pub operation: String,
    pub message: String,
    pub resolved_at: Option<u64>,
}

/// A [`StoredError`] as a mathematical value.
#[verifier::ext_equal]
pub struct StoredErrorView {
    pub at: u64,
    pub operation: Chars,
    pub message: Chars,
    pub resolved_at: Option<u64>,
}

impl View for StoredError {
    type V = StoredErrorView;

    open spec fn view(&self) -> StoredErrorView {
        StoredErrorView {
            at: self.at,
            operation: self.operation@,
            message: self.message@,
            resolved_at: self.resolved_at,
        }
    }
}

impl Duplicate for StoredError {
    fn duplicate(&self) -> (r: Self) {
        StoredError {
            at: self.at,
            operation: self.operation.clone(),
            message: self.message.clone(),
            resolved_at: self.resolved_at,
        }
    }
}

/// What is remembered of a Share's rounds.
#[derive(Clone, Debug)]
pub struct ShareRuntime {
    pub last_error: Option<StoredError>,
    pub last_sync: Option<u64>,
}

/// An optional failure as a mathematical value.
pub open spec fn error_of(e: Option<StoredError>) -> Option<StoredErrorView> {
    match e {
        Some(x) => Some(x@),
        None => None,
    }
}

impl ShareRuntime {
    /// A round failed.
    pub fn record(&mut self, now: u64, operation: &str, message: &str)
        ensures
            error_of(final(self).last_error) == Some(
                StoredErrorView {
                    at: now,
                    operation: operation@,
                    message: message@,
                    resolved_at: None,
                },
            ),
            final(self).last_sync == old(self).last_sync,
    {
        self.last_error = Some(
            StoredError {
                at: now,
                operation: operation.to_string(),
                message: message.to_string(),
                resolved_at: None,
            },
        );
    }

    /// A round succeeded: a failure that is remembered counts as resolved.
    pub fn resolve(&mut self, now: u64)
        ensures
            final(self).last_sync == Some(now),
            error_of(final(self).last_error) == match error_of(old(self).last_error) {
                Some(e) => Some(StoredErrorView { resolved_at: Some(now), ..e }),
                None => None,
            },
    {
        let mut last: Option<StoredError> = None;
        std::mem::swap(&mut last, &mut self.last_error);
        self.last_error = match last {
            Some(e) => Some(
                StoredError {
                    at: e.at,
                    operation: e.operation,
                    message: e.message,
                    resolved_at: Some(now),
                },
            ),
            None => None,
        };
        self.last_sync = Some(now);
    }
}

/// What is found of a Share: whether its folder is there, its conflicts and
/// its last round by its state, or why its state cannot be used, and what is
/// remembered of its rounds.
pub struct ShareFacts {
    pub root_available: bool,
    pub state: Result<(StringSet, Option<u64>), String>,
    pub runtime: Option<ShareRuntime>,
}

/// What is shown of a Share.
#[derive(Debug)]
pub struct Status {
    pub share: ShareConfig,
    pub root_available: bool,
    pub conflicts: Vec<String>,
    pub last_sync: Option<u64>,
    pub error: Option<String>,
    pub last_error: Option<StoredError>,
}

/// [`Status`] as a mathematical value.
#[verifier::ext_equal]
pub struct ShownView {
    pub share: ShareView,
    pub root_available: bool,
    pub conflicts: Seq<Chars>,
    pub last_sync: Option<u64>,
    pub error: Option<Chars>,
    pub last_error: Option<StoredErrorView>,
}

impl View for Status {
    type V = ShownView;

    open spec fn view(&self) -> ShownView {
        ShownView {
            share: self.share@,
            root_available: self.root_available,
            conflicts: views(self.conflicts@),
            last_sync: self.last_sync,
            error: owned_text(self.error),
            last_error: error_of(self.last_error),
        }
    }
}

/// What is shown of the Shares of a configuration, of what is found.
pub open spec fn all_shown(s: Seq<Status>, c: ConfigView, facts: Seq<ShareFacts>) -> bool {
    &&& s.len() == c.shares.len()
    &&& forall|i: int| 0 <= i < s.len() ==> shows(#[trigger] s[i], c.shares[i], facts[i])
}

/// What is shown of a Share, of what is found.
pub open spec fn shows(s: Status, share: ShareView, f: ShareFacts) -> bool {
    &&& s.share@ == share
    &&& s.root_available == f.root_available
    &&& match f.state {
        Ok(found) => lists(views(s.conflicts@), found.0@) && s.error is None,
        Err(text) => s.conflicts@.len() == 0 && s.error is Some && s.error->0@ == text@,
    }
    &&& s.last_sync == match f.runtime {
        Some(ShareRuntime { last_error: _, last_sync: Some(t) }) => Some(t),
        _ => match f.state {
            Ok(found) => found.1,
            Err(_) => None,
        },
    }
    &&& error_of(s.last_error) == match f.runtime {
        Some(runtime) => error_of(runtime.last_error),
        None => None,
    }
}

fn status_entry(share: &ShareConfig, facts: &ShareFacts) -> (r: Status)
    ensures
        shows(r, share@, *facts),
{
    let mut conflicts: Vec<String> = Vec::new();
    let mut error: Option<String> = None;
    let mut last_sync: Option<u64> = None;
    match &facts.state {
        Ok(found) => {
            conflicts = found.0.to_list();
            last_sync = found.1;
        },
        Err(text) => {
            error = Some(text.clone());
        },
    }
    let mut last_error: Option<StoredError> = None;
    if let Some(runtime) = &facts.runtime {
        if let Some(t) = runtime.last_sync {
            last_sync = Some(t);
        }
        if let Some(e) = &runtime.last_error {
            last_error = Some(e.duplicate());
        }
    }
    Status {
        share: share.duplicate(),
        root_available: facts.root_available,
        conflicts,
        last_sync,
        error,
        last_error,
    }
}

/// A version of a file that can be recovered.
#[derive(Clone, Debug)]
pub struct RecoveryItem {
    pub share_id: String,
    pub share_name: String,
    pub id: String,
    pub path: String,
    pub finished: bool,
    pub backup_available: bool,
    pub bytes: u64,
}

/// A [`RecoveryItem`] as a mathematical value.
#[verifier::ext_equal]
pub struct ItemView {
    pub share_id: Chars,
    pub share_name: Chars,
    pub id: Chars,
    pub path: Chars,
    pub finished: bool,
    pub backup_available: bool,
    pub bytes: u64,
}

impl View for RecoveryItem {
    type V = ItemView;

    open spec fn view(&self) -> ItemView {
        ItemView {
            share_id: self.share_id@,
            share_name: self.share_name@,
            id: self.id@,
            path: self.path@,
            finished: self.finished,
            backup_available: self.backup_available,
            bytes: self.bytes,
        }
    }
}

/// All that is shown at once.
#[derive(Debug)]
pub struct AppSnapshot {
    pub device: DeviceStatus,
    pub shares: Vec<Status>,
    pub requests: Vec<ShareRequest>,
    pub recovery: Vec<RecoveryItem>,
}

impl App {
    /// What is known of the PC and its phone.
    pub fn device_status(&self, config: Option<&DeviceConfig>, last_connection: Option<u64>) -> (r:
        Result<DeviceStatus, DeviceError>)
        ensures
            match config {
                None => r is Ok && r->Ok_0@ == no_status(),
                Some(c) => if is_hex(c@.cert) {
                    r is Ok && r->Ok_0@ == status_of(c@, last_connection)
                } else {
                    r is Err && r->Err_0@ == DeviceFault::InvalidCertificate
                },
            },
    {
        match config {
            None => Ok(
                DeviceStatus {
                    configured: false,
                    paired: false,
                    address: "não configurado".to_string(),
                    identity: "aguardando configuração".to_string(),
                    fingerprint: "indisponível".to_string(),
                    sync_paused: false,
                    last_connection: None,
                },
            ),
            Some(c) => {
                let fingerprint = match pairing_fingerprint(c) {
                    Ok(text) => text,
                    Err(e) => {
                        return Err(e);
                    },
                };
                let identity = match &c.peer_device {
                    Some(id) => id.clone(),
                    None => "aguardando primeiro vínculo".to_string(),
                };
                Ok(
                    DeviceStatus {
                        configured: true,
                        paired: c.peer_device.is_some(),
                        address: c.address.clone(),
                        identity,
                        fingerprint,
                        sync_paused: c.sync_paused,
                        last_connection,
                    },
                )
            },
        }
    }

    /// What is shown for pairing, and the QR code as an image, at least 768
    /// pixels wide.
    pub fn pairing_info(&self, config: &DeviceConfig, last_connection: Option<u64>) -> (r: Result<
        (PairingInfo, String),
        DeviceError,
    >)
        ensures
            match r {
                Ok((info, svg)) => is_hex(config@.cert) && info.device@ == status_of(
                    config@,
                    last_connection,
                ) && qr_blocks(encoded(invitation_of(config@))) == Some(info.qr@) && qr_svg(
                    encoded(invitation_of(config@)),
                    768,
                ) == Some(svg@) && info.qr_image@ == below(self.place(), ".rowd/pairing.svg"@),
                Err(e) => (e@ == DeviceFault::InvalidCertificate && !is_hex(config@.cert)) || (e@
                    == DeviceFault::InvalidInvitation && is_hex(config@.cert) && invitation_fault(
                    invitation_of(config@),
                ) is Some) || (e@ == DeviceFault::QrTooLong && is_hex(config@.cert)
                    && invitation_fault(invitation_of(config@)) is None && (encoded(
                    invitation_of(config@),
                ).len() > 7089 || qr_blocks(encoded(invitation_of(config@))) is None || qr_svg(
                    encoded(invitation_of(config@)),
                    768,
                ) is None)),
            },
    {
        let device = match self.device_status(Some(config), last_connection) {
            Ok(device) => device,
            Err(e) => {
                return Err(e);
            },
        };
        let invite = invitation(config);
        let payload = match invite.encode() {
            Ok(text) => text,
            Err(_) => {
                return Err(DeviceError::InvalidInvitation);
            },
        };
        if payload.as_str().unicode_len() > 7089 {
            return Err(DeviceError::QrTooLong);
        }
        match (draw_blocks(payload.as_str()), draw_svg(payload.as_str(), 768)) {
            (Some(qr), Some(svg)) => Ok(
                (
                    PairingInfo {
                        device,
                        qr,
                        qr_image: child(self.home.as_str(), ".rowd/pairing.svg"),
                    },
                    svg,
                ),
            ),
            _ => Err(DeviceError::QrTooLong),
        }
    }

    /// The invitation as a file holds it.
    pub fn export_invitation(&self, config: &DeviceConfig) -> (r: Result<String, DeviceError>)
        ensures
            r is Ok <==> invitation_fault(invitation_of(config@)) is None,
            r is Ok ==> r->Ok_0@ == encoded(invitation_of(config@)) + "\n"@,
            r is Err ==> r->Err_0@ == DeviceFault::InvalidInvitation,
    {
        let invite = invitation(config);
        match invite.encode() {
            Err(_) => Err(DeviceError::InvalidInvitation),
            Ok(text) => {
                let mut r = text;
                r.append("\n");
                Ok(r)
            },
        }
    }

    /// What is shown of each Share, of what is found.
    pub fn status(&self, config: &DeviceConfig, facts: &Vec<ShareFacts>) -> (r: Vec<Status>)
        requires
            facts@.len() == config.shares@.len(),
        ensures
            all_shown(r@, config@, facts@),
    {
        let mut r: Vec<Status> = Vec::new();
        let mut i: usize = 0;
        while i < config.shares.len()
            invariant
                i <= config.shares@.len() == facts@.len(),
                r@.len() == i,
                forall|k: int| 0 <= k < i ==> shows(#[trigger] r@[k], config@.shares[k], facts@[k]),
            decreases config.shares@.len() - i,
        {
            assert(config@.shares[i as int] == config.shares@[i as int]@);
            r.push(status_entry(&config.shares[i], &facts[i]));
            i = i + 1;
        }
        r
    }

    /// All that is shown at once. Without a configuration there is nothing to
    /// show but that.
    pub fn snapshot(
        &self,
        config: Option<&DeviceConfig>,
        last_connection: Option<u64>,
        facts: &Vec<ShareFacts>,
        recovery: Vec<RecoveryItem>,
    ) -> (r: Result<AppSnapshot, DeviceError>)
        requires
            config is Some ==> facts@.len() == config->0.shares@.len(),
        ensures
            match config {
                None => r matches Ok(s) && s.device@ == no_status() && s.shares@.len() == 0
                    && s.requests@.len() == 0 && s.recovery@.len() == 0,
                Some(c) => if is_hex(c@.cert) {
                    r matches Ok(s) && s.device@ == status_of(c@, last_connection)
                        && s.shares@.len() == c.shares@.len() && (forall|i: int|
                        0 <= i < s.shares@.len() ==> shows(
                            #[trigger] s.shares@[i],
                            c@.shares[i],
                            facts@[i],
                        )) && seen(s.requests@) == c@.share_requests && s.recovery == recovery
                } else {
                    r is Err && r->Err_0@ == DeviceFault::InvalidCertificate
                },
            },
    {
        let device = match self.device_status(config, last_connection) {
            Ok(device) => device,
            Err(e) => {
                return Err(e);
            },
        };
        match config {
            None => Ok(
                AppSnapshot {
                    device,
                    shares: Vec::new(),
                    requests: Vec::new(),
                    recovery: Vec::new(),
                },
            ),
            Some(c) => Ok(
                AppSnapshot {
                    device,
                    shares: self.status(c, facts),
                    requests: copy_list(&c.share_requests),
                    recovery,
                },
            ),
        }
    }
}

/// One version comes after another: by the Share's name, then by its path.
pub open spec fn comes_after(a: ItemView, b: ItemView) -> bool {
    before(b.share_name, a.share_name) || (a.share_name == b.share_name && before(b.path, a.path))
}

/// A sorted list with one more version, behind all that do not come after it.
pub open spec fn placed(list: Seq<ItemView>, x: ItemView) -> Seq<ItemView>
    decreases list.len(),
{
    if list.len() == 0 || !comes_after(list.last(), x) {
        list.push(x)
    } else {
        placed(list.drop_last(), x).push(list.last())
    }
}

/// Versions in order; equal ones keep theirs.
pub open spec fn arranged(list: Seq<ItemView>) -> Seq<ItemView>
    decreases list.len(),
{
    if list.len() == 0 {
        Seq::empty()
    } else {
        placed(arranged(list.drop_last()), list.last())
    }
}

/// No version comes after a later one.
pub open spec fn in_order(list: Seq<ItemView>) -> bool {
    forall|i: int, j: int|
        #![trigger list[i], list[j]]
        0 <= i < j < list.len() ==> !comes_after(list[i], list[j])
}

proof fn lemma_placed(list: Seq<ItemView>, x: ItemView)
    requires
        in_order(list),
    ensures
        in_order(placed(list, x)),
        placed(list, x).to_multiset() == list.to_multiset().insert(x),
        forall|k: int|
            0 <= k < placed(list, x).len() ==> list.contains(#[trigger] placed(list, x)[k])
                || placed(list, x)[k] == x,
    decreases list.len(),
{
    broadcast use vstd::seq_lib::group_to_multiset_ensures;

    let out = placed(list, x);
    if list.len() == 0 || !comes_after(list.last(), x) {
        assert forall|i: int, j: int|
            #![trigger out[i], out[j]]
            0 <= i < j < out.len() implies !comes_after(out[i], out[j]) by {
            if j == list.len() {
                let last = list.last();
                if i < list.len() - 1 && comes_after(list[i], x) {
                    assert(!comes_after(list[i], list[list.len() - 1]));
                    lemma_not_after(list[i], last, x);
                }
            } else {
                assert(out[i] == list[i] && out[j] == list[j]);
            }
        }
        assert forall|k: int| 0 <= k < out.len() implies list.contains(#[trigger] out[k]) || out[k]
            == x by {
            if k < list.len() {
                assert(out[k] == list[k]);
            }
        }
    } else {
        let less = list.drop_last();
        let last = list.last();
        assert(in_order(less)) by {
            assert forall|i: int, j: int|
                #![trigger less[i], less[j]]
                0 <= i < j < less.len() implies !comes_after(less[i], less[j]) by {
                assert(less[i] == list[i] && less[j] == list[j]);
            }
        }
        lemma_placed(less, x);
        let inner = placed(less, x);
        assert forall|i: int, j: int|
            #![trigger out[i], out[j]]
            0 <= i < j < out.len() implies !comes_after(out[i], out[j]) by {
            if j == inner.len() {
                assert(out[i] == inner[i]);
                if inner[i] == x {
                    lemma_after_asymmetric(last, x);
                } else {
                    let k = choose|k: int| 0 <= k < less.len() && less[k] == inner[i];
                    assert(list[k] == inner[i]);
                    assert(!comes_after(list[k], list[list.len() - 1]));
                }
            } else {
                assert(out[i] == inner[i] && out[j] == inner[j]);
            }
        }
        assert(less.push(last) =~= list);
        assert(out.to_multiset() =~= list.to_multiset().insert(x));
        assert forall|k: int| 0 <= k < out.len() implies list.contains(#[trigger] out[k]) || out[k]
            == x by {
            if k < inner.len() {
                assert(out[k] == inner[k]);
                if inner[k] != x {
                    let m = choose|m: int| 0 <= m < less.len() && less[m] == inner[k];
                    assert(list[m] == inner[k]);
                }
            } else {
                assert(list[list.len() - 1] == last);
            }
        }
    }
}

proof fn lemma_after_asymmetric(a: ItemView, b: ItemView)
    requires
        comes_after(a, b),
    ensures
        !comes_after(b, a),
{
    if before(b.share_name, a.share_name) {
        lemma_before_asymmetric(b.share_name, a.share_name);
        lemma_before_irreflexive(a.share_name);
    } else {
        lemma_before_asymmetric(b.path, a.path);
        lemma_before_irreflexive(a.share_name);
    }
}

/// What does not come after the last one does not come after what the last
/// one does not come after.
proof fn lemma_not_after(a: ItemView, b: ItemView, x: ItemView)
    requires
        !comes_after(a, b),
        !comes_after(b, x),
    ensures
        !comes_after(a, x),
{
    if comes_after(a, x) {
        lemma_before_total(a.share_name, b.share_name);
        lemma_before_total(b.share_name, x.share_name);
        lemma_before_total(a.path, b.path);
        lemma_before_total(b.path, x.path);
        if before(x.share_name, a.share_name) {
            if a.share_name == b.share_name {
                assert(comes_after(b, x));
            } else {
                assert(before(a.share_name, b.share_name));
                lemma_before_transitive(x.share_name, a.share_name, b.share_name);
            }
        } else {
            assert(a.share_name == x.share_name && before(x.path, a.path));
            if a.share_name == b.share_name {
                if a.path != b.path {
                    assert(before(a.path, b.path));
                    lemma_before_transitive(x.path, a.path, b.path);
                }
            } else {
                assert(before(a.share_name, b.share_name));
            }
        }
    }
}

/// The versions that are shown are all there are, in order.
pub proof fn law_recovery_in_order(list: Seq<ItemView>)
    ensures
        in_order(arranged(list)),
        arranged(list).to_multiset() == list.to_multiset(),
    decreases list.len(),
{
    broadcast use vstd::seq_lib::group_to_multiset_ensures;

    if list.len() > 0 {
        let less = list.drop_last();
        law_recovery_in_order(less);
        lemma_placed(arranged(less), list.last());
        assert(less.push(list.last()) =~= list);
    } else {
        assert(list =~= Seq::<ItemView>::empty());
    }
}

proof fn lemma_placed_at(list: Seq<ItemView>, x: ItemView, at: int)
    requires
        0 <= at <= list.len(),
        at > 0 ==> !comes_after(list[at - 1], x),
        forall|k: int| at <= k < list.len() ==> comes_after(#[trigger] list[k], x),
    ensures
        placed(list, x) == list.insert(at, x),
    decreases list.len(),
{
    if at == list.len() {
        assert(list.insert(at, x) =~= list.push(x));
    } else {
        let less = list.drop_last();
        assert(comes_after(list[list.len() - 1], x));
        assert forall|k: int| at <= k < less.len() implies comes_after(#[trigger] less[k], x) by {
            assert(less[k] == list[k]);
        }
        lemma_placed_at(less, x, at);
        assert(list.insert(at, x) =~= less.insert(at, x).push(list.last()));
    }
}

fn is_after(a: &RecoveryItem, b: &RecoveryItem) -> (r: bool)
    ensures
        r == comes_after(a@, b@),
{
    proof {
        lemma_before_irreflexive(a@.share_name);
        lemma_before_irreflexive(a@.path);
        lemma_before_total(a@.share_name, b@.share_name);
        lemma_before_total(a@.path, b@.path);
        if before(a@.share_name, b@.share_name) {
            lemma_before_asymmetric(a@.share_name, b@.share_name);
        }
        if before(a@.path, b@.path) {
            lemma_before_asymmetric(a@.path, b@.path);
        }
    }
    match compare(a.share_name.as_str(), b.share_name.as_str()) {
        Side::Greater => true,
        Side::Less => false,
        Side::Same => match compare(a.path.as_str(), b.path.as_str()) {
            Side::Greater => true,
            _ => false,
        },
    }
}

/// A version as it is found in a Share's recovery area.
pub struct FoundVersion {
    pub entry: RecoveryEntry,
    pub bytes: u64,
}

/// A version as it is shown.
pub open spec fn shown_item(share: ShareView, f: FoundVersion) -> ItemView {
    ItemView {
        share_id: share.share_id,
        share_name: share.name,
        id: f.entry@.id,
        path: f.entry@.path,
        finished: f.entry@.finished,
        backup_available: f.entry@.backup_available,
        bytes: f.bytes,
    }
}

/// The versions of one Share as they are shown.
pub open spec fn share_items(share: ShareView, found: Seq<FoundVersion>) -> Seq<ItemView> {
    found.map_values(|f: FoundVersion| shown_item(share, f))
}

/// The versions of all Shares, one Share after another.
pub open spec fn all_items(shares: Seq<ShareView>, found: Seq<Vec<FoundVersion>>) -> Seq<ItemView>
    decreases shares.len(),
{
    if shares.len() == 0 {
        Seq::empty()
    } else {
        all_items(shares.drop_last(), found) + share_items(
            shares.last(),
            found[shares.len() - 1]@,
        )
    }
}

fn place_item(list: &mut Vec<RecoveryItem>, item: RecoveryItem)
    ensures
        seen(final(list)@) == placed(seen(old(list)@), item@),
{
    let mut at: usize = list.len();
    let mut going = true;
    while going
        invariant
            *list == *old(list),
            at <= list@.len(),
            forall|k: int| at <= k < list@.len() ==> comes_after(#[trigger] seen(list@)[k], item@),
            !going ==> (at > 0 ==> !comes_after(seen(list@)[at - 1], item@)),
        decreases
                at,
                if going {
                    1int
                } else {
                    0
                },
    {
        if at == 0 {
            going = false;
        } else {
            assert(seen(list@)[at - 1] == list@[at - 1]@);
            if is_after(&list[at - 1], &item) {
                at = at - 1;
            } else {
                going = false;
            }
        }
    }
    proof {
        lemma_placed_at(seen(list@), item@, at as int);
        assert(seen(list@.insert(at as int, item)) =~= seen(list@).insert(at as int, item@));
    }
    list.insert(at, item);
}

/// A step of connecting.
#[derive(Clone, Debug)]
pub struct ConnectionCheck {
    pub label: String,
    pub ok: bool,
    pub detail: String,
}

/// A [`ConnectionCheck`] as a mathematical value.
#[verifier::ext_equal]
pub struct CheckView {
    pub label: Chars,
    pub ok: bool,
    pub detail: Chars,
}

impl View for ConnectionCheck {
    type V = CheckView;

    open spec fn view(&self) -> CheckView {
        CheckView { label: self.label@, ok: self.ok, detail: self.detail@ }
    }
}

/// What trying the steps of connecting showed.
#[derive(Clone, Debug)]
pub struct ConnectionTest {
    pub checks: Vec<ConnectionCheck>,
    pub available_shares: usize,
    pub total_shares: usize,
}

fn check(label: &str, ok: bool, detail: String) -> (r: ConnectionCheck)
    ensures
        r@ == (CheckView { label: label@, ok, detail: detail@ }),
{
    ConnectionCheck { label: label.to_string(), ok, detail }
}

/// The first twelve bytes of an identity, or all of a shorter one.
pub open spec fn identity_head(id: Chars) -> Seq<u8> {
    encode_utf8(id).take(
        if encode_utf8(id).len() < 12 {
            encode_utf8(id).len() as int
        } else {
            12
        },
    )
}

/// An identity can be cut after twelve bytes: no character stands there.
pub open spec fn cuts_cleanly(id: Chars) -> bool {
    valid_utf8(identity_head(id))
}

/// The first twelve bytes of an identity as text, and that there are more.
pub open spec fn short_identity(id: Chars) -> Chars {
    decode_utf8(identity_head(id)) + "…"@
}

fn head_bytes(id: &str) -> (r: Vec<u8>)
    ensures
        r@ == identity_head(id@),
{
    let bytes = id.as_bytes();
    let size: usize = bytes.len();
    let end: usize = if size < 12 {
        size
    } else {
        12
    };
    let r = copy_bytes(bytes, 0, end);
    assert(r@ =~= identity_head(id@));
    r
}

fn shorten(id: &str) -> (r: String)
    requires
        cuts_cleanly(id@),
    ensures
        r@ == short_identity(id@),
{
    match utf8_text(head_bytes(id)) {
        Some(text) => {
            let mut r = text;
            r.append("…");
            r
        },
        None => String::new(),
    }
}

/// The identity of the phone can be shown: there is none, or it can be cut
/// after twelve bytes.
pub open spec fn showable(c: ConfigView) -> bool {
    c.peer_device is Some ==> cuts_cleanly(c.peer_device->0)
}

/// Whether the identity of the phone can be shown.
pub fn can_show_device(config: &DeviceConfig) -> (r: bool)
    ensures
        r == showable(config@),
{
    match &config.peer_device {
        Some(id) => utf8_text(head_bytes(id.as_str())).is_some(),
        None => true,
    }
}

/// A phone whose identity is a digest can be shown: by its first twelve digits.
pub proof fn law_digest_identity_is_shown(c: ConfigView)
    requires
        c.peer_device is Some,
        valid_hash(c.peer_device->0),
    ensures
        showable(c),
        short_identity(c.peer_device->0) == c.peer_device->0.take(12) + "…"@,
{
    let id = c.peer_device->0;
    let head = id.take(12);
    let tail = id.skip(12);
    assert(head + tail =~= id);
    assert(is_ascii_chars(head)) by {
        assert forall|i: int| 0 <= i < head.len() implies 0 <= (#[trigger] head[i]) as nat && (
        head[i]) as nat <= 127 by {
            assert(id[i] == head[i]);
            assert(crate::model::lower_hex(id[i]));
        }
    }
    is_ascii_chars_encode_utf8(head);
    crate::model::lemma_utf8_concat(head, tail);
    assert(identity_head(id) =~= encode_utf8(head));
    encode_utf8_valid_utf8(head);
    encode_utf8_decode_utf8(head);
}

/// The steps of connecting, as they are shown.
pub open spec fn checks_of(c: ConfigView, address_ok: bool, tcp_ok: bool, tls_ok: bool) -> Seq<
    CheckView,
> {
    seq![
        CheckView { label: "PC alcançável"@, ok: address_ok, detail: c.address },
        CheckView {
            label: "TCP"@,
            ok: tcp_ok,
            detail: if tcp_ok {
                "porta respondeu"@
            } else {
                "porta não respondeu; mantenha o servidor Rowd aberto"@
            },
        },
        CheckView {
            label: "TLS"@,
            ok: tls_ok,
            detail: if tls_ok {
                "certificado e chave válidos"@
            } else {
                "identidade TLS inválida"@
            },
        },
        CheckView {
            label: "Autenticação"@,
            ok: c.peer_device is Some,
            detail: if c.peer_device is Some {
                "dispositivo autenticado anteriormente"@
            } else {
                "aguardando primeiro pareamento"@
            },
        },
        CheckView {
            label: "Dispositivo reconhecido"@,
            ok: c.peer_device is Some,
            detail: match c.peer_device {
                Some(id) => short_identity(id),
                None => "nenhum"@,
            },
        },
    ]
}

/// How many Shares can be synchronised.
pub open spec fn usable(shares: Seq<ShareView>, reachable: Seq<bool>) -> nat
    decreases shares.len(),
{
    if shares.len() == 0 {
        0
    } else {
        usable(shares.drop_last(), reachable) + if shares.last().enabled
            && reachable[shares.len() - 1] {
            1nat
        } else {
            0
        }
    }
}

/// What is found of a Share's policy.
pub enum PolicyFile {
    /// The Share's folder is not there.
    NoFolder,
    /// The folder's path leads elsewhere now.
    Moved,
    /// The policy is a link.
    Link,
    /// There is no policy.
    Missing,
    Text(String),
}

/// What a Share's policy says; none is an empty one.
pub open spec fn policy_of(f: PolicyFile) -> Result<Chars, DeviceFault> {
    match f {
        PolicyFile::NoFolder => Err(DeviceFault::RootUnavailable),
        PolicyFile::Moved => Err(DeviceFault::RootChanged),
        PolicyFile::Link => Err(DeviceFault::PolicyIsLink),
        PolicyFile::Missing => Ok(Seq::empty()),
        PolicyFile::Text(text) => Ok(text@),
    }
}

/// What a Share's policy says.
pub fn read_ignore(found: PolicyFile) -> (r: Result<String, DeviceError>)
    ensures
        match policy_of(found) {
            Ok(text) => r is Ok && r->Ok_0@ == text,
            Err(e) => r is Err && r->Err_0@ == e,
        },
{
    match found {
        PolicyFile::NoFolder => Err(DeviceError::RootUnavailable),
        PolicyFile::Moved => Err(DeviceError::RootChanged),
        PolicyFile::Link => Err(DeviceError::PolicyIsLink),
        PolicyFile::Missing => {
            let text = String::new();
            assert(text@ =~= Seq::<char>::empty());
            Ok(text)
        },
        PolicyFile::Text(text) => Ok(text),
    }
}

impl App {
    /// The versions that can be recovered, in order; `found` holds those of
    /// each Share.
    pub fn recovery(&self, config: &DeviceConfig, found: &Vec<Vec<FoundVersion>>) -> (r: Vec<
        RecoveryItem,
    >)
        requires
            found@.len() == config.shares@.len(),
        ensures
            seen(r@) == arranged(all_items(config@.shares, found@)),
    {
        let ghost shares = config@.shares;
        let mut r: Vec<RecoveryItem> = Vec::new();
        let mut i: usize = 0;
        assert(seen(r@) =~= Seq::<ItemView>::empty());
        assert(shares.take(0) =~= Seq::<ShareView>::empty());
        while i < config.shares.len()
            invariant
                i <= config.shares@.len() == found@.len(),
                shares == config@.shares,
                seen(r@) == arranged(all_items(shares.take(i as int), found@)),
            decreases config.shares@.len() - i,
        {
            let share = &config.shares[i];
            let list = &found[i];
            let ghost done = all_items(shares.take(i as int), found@);
            let ghost mine = share_items(share@, list@);
            let mut k: usize = 0;
            assert(done + mine.take(0) =~= done);
            while k < list.len()
                invariant
                    k <= list@.len(),
                    mine == share_items(share@, list@),
                    seen(r@) == arranged(done + mine.take(k as int)),
                decreases list@.len() - k,
            {
                let f = &list[k];
                let item = RecoveryItem {
                    share_id: share.share_id.clone(),
                    share_name: share.name.clone(),
                    id: f.entry.id.clone(),
                    path: f.entry.path.clone(),
                    finished: f.entry.finished,
                    backup_available: f.entry.backup_available,
                    bytes: f.bytes,
                };
                proof {
                    let more = done + mine.take(k + 1);
                    assert(more.drop_last() =~= done + mine.take(k as int));
                    assert(more.last() == mine[k as int]);
                    assert(item@ =~= mine[k as int]);
                }
                place_item(&mut r, item);
                k = k + 1;
            }
            proof {
                assert(mine.take(k as int) =~= mine);
                assert(shares.take(i + 1).drop_last() =~= shares.take(i as int));
                assert(shares.take(i + 1).last() == share@);
            }
            i = i + 1;
        }
        assert(shares.take(i as int) =~= shares);
        r
    }

    /// Tries the steps of connecting. `address_ok` says whether the address can
    /// be reached from the network, `tcp_ok` whether the port answers, and
    /// `reachable` of each Share whether its folder is there.
    pub fn connection_test(
        &self,
        config: &DeviceConfig,
        address_ok: bool,
        tcp_ok: bool,
        reachable: &Vec<bool>,
    ) -> (r: ConnectionTest)
        requires
            reachable@.len() == config.shares@.len(),
            showable(config@),
        ensures
            exists|tls_ok: bool|
                (tls_ok ==> tls_identity(config@.cert, config@.key)) && seen(r.checks@)
                    == #[trigger] checks_of(config@, address_ok, tcp_ok, tls_ok),
            r.available_shares == usable(config@.shares, reachable@),
            r.total_shares == config.shares@.len(),
    {
        let tls_ok = is_tls_identity(config.cert.as_str(), config.key.as_str());
        self.connection_test_given(config, address_ok, tcp_ok, tls_ok, reachable)
    }

    /// The steps of connecting, given of each what came of it.
    pub fn connection_test_given(
        &self,
        config: &DeviceConfig,
        address_ok: bool,
        tcp_ok: bool,
        tls_ok: bool,
        reachable: &Vec<bool>,
    ) -> (r: ConnectionTest)
        requires
            reachable@.len() == config.shares@.len(),
            showable(config@),
        ensures
            seen(r.checks@) == checks_of(config@, address_ok, tcp_ok, tls_ok),
            r.available_shares == usable(config@.shares, reachable@),
            r.total_shares == config.shares@.len(),
    {
        let paired = config.peer_device.is_some();
        let tcp_detail = if tcp_ok {
            "porta respondeu"
        } else {
            "porta não respondeu; mantenha o servidor Rowd aberto"
        };
        let tls_detail = if tls_ok {
            "certificado e chave válidos"
        } else {
            "identidade TLS inválida"
        };
        let auth_detail = if paired {
            "dispositivo autenticado anteriormente"
        } else {
            "aguardando primeiro pareamento"
        };
        let known = match &config.peer_device {
            Some(id) => shorten(id.as_str()),
            None => "nenhum".to_string(),
        };
        let checks: Vec<ConnectionCheck> = vec![
            check("PC alcançável", address_ok, config.address.clone()),
            check("TCP", tcp_ok, tcp_detail.to_string()),
            check("TLS", tls_ok, tls_detail.to_string()),
            check("Autenticação", paired, auth_detail.to_string()),
            check("Dispositivo reconhecido", paired, known),
        ];
        assert(seen(checks@) =~= checks_of(config@, address_ok, tcp_ok, tls_ok));
        let ghost shares = config@.shares;
        let mut available: usize = 0;
        let mut i: usize = 0;
        assert(shares.take(0) =~= Seq::<ShareView>::empty());
        while i < config.shares.len()
            invariant
                i <= config.shares@.len() == reachable@.len(),
                shares == config@.shares,
                available == usable(shares.take(i as int), reachable@),
                available <= i,
            decreases config.shares@.len() - i,
        {
            proof {
                assert(shares.take(i + 1).drop_last() =~= shares.take(i as int));
                assert(shares.take(i + 1).last() == config.shares@[i as int]@);
            }
            if config.shares[i].enabled && reachable[i] {
                available = available + 1;
            }
            i = i + 1;
        }
        assert(shares.take(i as int) =~= shares);
        ConnectionTest { checks, available_shares: available, total_shares: config.shares.len() }
    }

    /// What a Share's policy says.
    pub fn ignore_text(&self, config: &DeviceConfig, id: &str, found: PolicyFile) -> (r: Result<
        String,
        DeviceError,
    >)
        ensures
            if position(config@.shares, id@) is None {
                r is Err && r->Err_0@ == DeviceFault::UnknownShare
            } else {
                match policy_of(found) {
                    Ok(text) => r is Ok && r->Ok_0@ == text,
                    Err(e) => r is Err && r->Err_0@ == e,
                }
            },
    {
        if config.find(id).is_none() {
            return Err(DeviceError::UnknownShare);
        }
        read_ignore(found)
    }

    /// Where a Share's policy is written; the Share is looked at from the
    /// bottom up afterwards. Every text is a policy: no line of it is refused,
    /// and one that matches no path leaves nothing alone.
    pub fn set_ignore_text(&self, config: &DeviceConfig, id: &str) -> (r: Result<
        (ShareConfig, String),
        DeviceError,
    >)
        ensures
            match position(config@.shares, id@) {
                None => r is Err && r->Err_0@ == DeviceFault::UnknownShare,
                Some(i) => r is Ok && r->Ok_0.0@ == config@.shares[i] && r->Ok_0.1@ == below(
                    config@.shares[i].root,
                    ".rowdignore"@,
                ),
            },
    {
        match self.reindex_share(config, id) {
            Err(e) => Err(e),
            Ok(share) => {
                let path = child(share.root.as_str(), ".rowdignore");
                Ok((share, path))
            },
        }
    }

    fn decide_recovery(
        &self,
        config: &DeviceConfig,
        share_id: &str,
        record: &RecoveryRecord,
        id: &str,
        action: &str,
        has_output: bool,
    ) -> (r: Result<RecoveryAction, RecoveryError>)
        ensures
            match position(config@.shares, share_id@) {
                None => r is Err && r->Err_0 is UnknownShare,
                Some(_) => (r is Ok <==> valid_hash(id@) && record.backup@ == id@ && (action@
                    == "keep"@ || action@ == "restore"@ || (action@ == "export"@ && has_output)))
                    && (r is Ok ==> r->Ok_0 == (if action@ == "keep"@ {
                    RecoveryAction::Keep
                } else if action@ == "restore"@ {
                    RecoveryAction::Restore
                } else {
                    RecoveryAction::Export
                })) && (r is Err ==> refuses_record(r->Err_0, id@, record.backup@, false, false) || (
                action@ == "export"@ && !has_output) || (action@ != "keep"@ && action@ != "restore"@
                    && action@ != "export"@)),
            },
    {
        if config.find(share_id).is_none() {
            return Err(RecoveryError::UnknownShare);
        }
        match record.resolve(id, action, has_output) {
            Ok(a) => Ok(a),
            Err(e) => Err(RecoveryError::Store(e)),
        }
    }

    /// Puts an old version back.
    pub fn restore_recovery(
        &self,
        config: &DeviceConfig,
        share_id: &str,
        record: &RecoveryRecord,
        id: &str,
    ) -> (r: Result<RecoveryAction, RecoveryError>)
        ensures
            r is Ok <==> position(config@.shares, share_id@) is Some && valid_hash(id@)
                && record.backup@ == id@,
            r is Ok ==> r->Ok_0 == RecoveryAction::Restore,
            r is Err ==> if position(config@.shares, share_id@) is None {
                r->Err_0 is UnknownShare
            } else {
                refuses_record(r->Err_0, id@, record.backup@, false, false)
            },
    {
        proof {
            reveal_strlit("keep");
            reveal_strlit("restore");
            reveal_strlit("export");
            assert("keep"@.len() == 4 && "restore"@.len() == 7 && "export"@.len() == 6);
        }
        self.decide_recovery(config, share_id, record, id, "restore", false)
    }

    /// Keeps the present version.
    pub fn keep_recovery(
        &self,
        config: &DeviceConfig,
        share_id: &str,
        record: &RecoveryRecord,
        id: &str,
    ) -> (r: Result<RecoveryAction, RecoveryError>)
        ensures
            r is Ok <==> position(config@.shares, share_id@) is Some && valid_hash(id@)
                && record.backup@ == id@,
            r is Ok ==> r->Ok_0 == RecoveryAction::Keep,
            r is Err ==> if position(config@.shares, share_id@) is None {
                r->Err_0 is UnknownShare
            } else {
                refuses_record(r->Err_0, id@, record.backup@, false, false)
            },
    {
        proof {
            reveal_strlit("keep");
            reveal_strlit("restore");
            reveal_strlit("export");
            assert("keep"@.len() == 4 && "restore"@.len() == 7 && "export"@.len() == 6);
        }
        self.decide_recovery(config, share_id, record, id, "keep", false)
    }

    /// Copies an old version to another place.
    pub fn export_recovery(
        &self,
        config: &DeviceConfig,
        share_id: &str,
        record: &RecoveryRecord,
        id: &str,
    ) -> (r: Result<RecoveryAction, RecoveryError>)
        ensures
            r is Ok <==> position(config@.shares, share_id@) is Some && valid_hash(id@)
                && record.backup@ == id@,
            r is Ok ==> r->Ok_0 == RecoveryAction::Export,
            r is Err ==> if position(config@.shares, share_id@) is None {
                r->Err_0 is UnknownShare
            } else {
                refuses_record(r->Err_0, id@, record.backup@, false, false)
            },
    {
        proof {
            reveal_strlit("keep");
            reveal_strlit("restore");
            reveal_strlit("export");
            assert("keep"@.len() == 4 && "restore"@.len() == 7 && "export"@.len() == 6);
        }
        self.decide_recovery(config, share_id, record, id, "export", true)
    }

    /// Removes an old version whose replacement is complete.
    pub fn cleanup_recovery(
        &self,
        config: &DeviceConfig,
        share_id: &str,
        record: &RecoveryRecord,
        id: &str,
    ) -> (r: Result<(), RecoveryError>)
        ensures
            r is Ok <==> position(config@.shares, share_id@) is Some && valid_hash(id@)
                && record.backup@ == id@ && record.finished,
            r is Err ==> if position(config@.shares, share_id@) is None {
                r->Err_0 is UnknownShare
            } else {
                refuses_record(r->Err_0, id@, record.backup@, true, !record.finished)
            },
    {
        if config.find(share_id).is_none() {
            return Err(RecoveryError::UnknownShare);
        }
        match record.cleanup_recovery(id) {
            Ok(()) => Ok(()),
            Err(e) => Err(RecoveryError::Store(e)),
        }
    }
}

/// Why a decision about a record is refused: it is no identity, it names
/// another record or, where that counts, the replacement is not complete.
pub open spec fn refuses_record(
    e: RecoveryError,
    id: Chars,
    backup: Chars,
    removal: bool,
    pending: bool,
) -> bool {
    match e {
        RecoveryError::Store(StoreError::Path(e)) => e@ == crate::model::ModelFault::Hash
            && !valid_hash(id),
        RecoveryError::Store(StoreError::RecoveryIdentity) => valid_hash(id) && backup != id,
        RecoveryError::Store(StoreError::RecoveryPending) => removal && valid_hash(id) && backup
            == id && pending,
        _ => false,
    }
}

/// Why a decision about an old version is refused.
#[derive(Clone, Debug)]
pub enum RecoveryError {
    UnknownShare,
    Store(StoreError),
}

/// Where a Share's agreed state is kept.
pub fn state_path(home: &str, share: &ShareConfig) -> (r: String)
    ensures
        r@ == below(share_folder(home@, share@.share_id), "base.json"@),
{
    let folder = folder_of(home, share.share_id.as_str());
    child(folder.as_str(), "base.json")
}

/// Where the journal of a Share was kept.
pub fn journal_path(home: &str, share: &ShareConfig) -> (r: String)
    ensures
        r@ == below(share_folder(home@, share@.share_id), "journal.json"@),
{
    let folder = folder_of(home, share.share_id.as_str());
    child(folder.as_str(), "journal.json")
}

/// Where what is remembered of a Share's rounds is kept.
pub fn runtime_path(home: &str, share_id: &str) -> (r: String)
    ensures
        r@ == below(share_folder(home@, share_id@), "runtime.json"@),
{
    let folder = folder_of(home, share_id);
    child(folder.as_str(), "runtime.json")
}

/// The folder of what is derived from a Share.
pub open spec fn share_folder(home: Chars, id: Chars) -> Chars {
    below(below(home, ".rowd/shares"@), id)
}

fn folder_of(home: &str, id: &str) -> (r: String)
    ensures
        r@ == share_folder(home@, id@),
{
    let shares = child(home, ".rowd/shares");
    child(shares.as_str(), id)
}

/// A file of a Share's derived state and the name under which it is put aside.
pub open spec fn put_aside(home: Chars, id: Chars, name: Chars, reason: Chars, stamp: nat) -> (
    Chars,
    Chars,
) {
    let file = below(share_folder(home, id), name);
    (file, file + "."@ + reason + "-"@ + decimal(stamp))
}

fn aside(home: &str, id: &str, name: &str, reason: &str, stamp: u64) -> (r: (String, String))
    ensures
        (r.0@, r.1@) == put_aside(home@, id@, name@, reason@, stamp as nat),
{
    let folder = folder_of(home, id);
    let file = child(folder.as_str(), name);
    let mut to = file.clone();
    to.append(".");
    to.append(reason);
    to.append("-");
    let n = number(stamp);
    to.append(n.as_str());
    (file, to)
}

/// What is renamed when a Share's derived state is put aside: where its files
/// are, and where they go.
pub fn archive_derived_state(home: &str, share_id: &str, reason: &str, stamp: u64) -> (r: Result<
    Vec<(String, String)>,
    DeviceError,
>)
    ensures
        r is Ok <==> valid_hash(share_id@),
        r is Err ==> r->Err_0@ == DeviceFault::InvalidIdentity,
        r matches Ok(list) ==> list@.len() == 3 && (list@[0].0@, list@[0].1@) == put_aside(
            home@,
            share_id@,
            "base.json"@,
            reason@,
            stamp as nat,
        ) && (list@[1].0@, list@[1].1@) == put_aside(
            home@,
            share_id@,
            "journal.json"@,
            reason@,
            stamp as nat,
        ) && (list@[2].0@, list@[2].1@) == put_aside(
            home@,
            share_id@,
            "runtime.json"@,
            reason@,
            stamp as nat,
        ),
{
    if !is_hash(share_id) {
        return Err(DeviceError::InvalidIdentity);
    }
    let list: Vec<(String, String)> = vec![
        aside(home, share_id, "base.json", reason, stamp),
        aside(home, share_id, "journal.json", reason, stamp),
        aside(home, share_id, "runtime.json", reason, stamp),
    ];
    Ok(list)
}

/// A store after it was told of changed paths, in order; a change of the
/// policy, or of nothing in particular, makes everything doubtful.
pub open spec fn told(s: StoreView, order: Seq<Chars>) -> StoreView
    decreases order.len(),
{
    if order.len() == 0 {
        s
    } else {
        let before_last = told(s, order.drop_last());
        let path = order.last();
        if path.len() == 0 || path == ".rowdignore"@ {
            all_reported(before_last)
        } else {
            path_reported(before_last, path)
        }
    }
}

/// Some figures for a person who looks for a fault.
pub struct DiagnosticReport {
    pub protocol_version: u32,
    pub paired: bool,
    pub sync_paused: bool,
    pub shares: Vec<Status>,
    pub recovery_versions: usize,
    pub recovery_bytes: u64,
}

/// What is reported of a configuration, of what is shown of its Shares and of
/// the old versions.
pub open spec fn diagnosed(
    r: DiagnosticReport,
    c: ConfigView,
    shares: Seq<Status>,
    recovery: Seq<RecoveryItem>,
) -> bool {
    &&& r.protocol_version == PROTOCOL_VERSION
    &&& r.paired == (c.peer_device is Some)
    &&& r.sync_paused == c.sync_paused
    &&& r.shares@ == shares
    &&& r.recovery_versions == recovery.len()
    &&& r.recovery_bytes == bytes_of(recovery)
}

/// A [`DiagnosticReport`] as a mathematical value.
#[verifier::ext_equal]
pub struct ReportView {
    pub protocol_version: u32,
    pub paired: bool,
    pub sync_paused: bool,
    pub shares: Seq<ShownView>,
    pub recovery_versions: usize,
    pub recovery_bytes: u64,
}

impl View for DiagnosticReport {
    type V = ReportView;

    open spec fn view(&self) -> ReportView {
        ReportView {
            protocol_version: self.protocol_version,
            paired: self.paired,
            sync_paused: self.sync_paused,
            shares: seen(self.shares@),
            recovery_versions: self.recovery_versions,
            recovery_bytes: self.recovery_bytes,
        }
    }
}

/// The size of versions together.
pub open spec fn bytes_of(items: Seq<RecoveryItem>) -> nat
    decreases items.len(),
{
    if items.len() == 0 {
        0
    } else {
        bytes_of(items.drop_last()) + items.last().bytes as nat
    }
}

pub(crate) proof fn lemma_bytes_grow(items: Seq<RecoveryItem>, i: int)
    requires
        0 <= i <= items.len(),
    ensures
        bytes_of(items.take(i)) <= bytes_of(items),
    decreases items.len() - i,
{
    if i == items.len() {
        assert(items.take(i) =~= items);
    } else {
        lemma_bytes_grow(items, i + 1);
        assert(items.take(i + 1).drop_last() =~= items.take(i));
    }
}

impl App {
    /// Tells a store what is doubtful before it is scanned: everything, or the
    /// paths that changed.
    pub fn scan(&self, store: &mut LocalStore, full: bool, dirty: &Option<StringSet>)
        ensures
            full ==> final(store)@ == all_reported(old(store)@),
            !full && *dirty is None ==> final(store)@ == old(store)@,
            !full && *dirty is Some ==> forall|order: Seq<Chars>|
                #[trigger] lists(order, (*dirty)->0@) ==> final(store)@ == told(old(store)@, order),
    {
        if full {
            store.invalidate();
            return;
        }
        if let Some(paths) = dirty {
            let n: usize = paths.len();
            let ghost order = paths.order();
            let mut i: usize = 0;
            assert(order.take(0) =~= Seq::<Chars>::empty());
            while i < n
                invariant
                    i <= n == order.len(),
                    order == paths.order(),
                    store@ == told(old(store)@, order.take(i as int)),
                decreases n - i,
            {
                let path = paths.at(i);
                proof {
                    assert(order.take(i + 1).drop_last() =~= order.take(i as int));
                    assert(order.take(i + 1).last() == path@);
                }
                if path.as_str().unicode_len() == 0 || same(path.as_str(), ".rowdignore") {
                    store.invalidate();
                } else {
                    store.invalidate_path(path.as_str());
                }
                i = i + 1;
            }
            proof {
                assert(order.take(i as int) =~= order);
                assert forall|o: Seq<Chars>| #[trigger] lists(o, paths@) implies store@ == told(
                    old(store)@,
                    o,
                ) by {
                    crate::collections::lemma_listing_unique(o, order, paths@);
                }
            }
        }
    }

    /// Where the PC listens, and its watch over the Shares' folders.
    pub fn serve(&self, config: &DeviceConfig, listen: Option<String>, untrusted: bool, now: u64) -> (r:
        (String, Watch))
        ensures
            r.0@ == match listen {
                Some(address) => address@,
                None => config@.listen,
            },
            r.1@ == (WatchView {
                watched: Map::empty(),
                dirty: Map::empty(),
                full: false,
                untrusted,
                last_fallback: now,
                last_full: now,
            }),
    {
        let address = match listen {
            Some(address) => address,
            None => config.listen.clone(),
        };
        (address, Watch::new(untrusted, now))
    }

    /// A profile of the configuration; `policies` holds each Share's policy, if
    /// it can be read.
    pub fn export_profile(&self, config: &DeviceConfig, policies: &Vec<Option<String>>) -> (r: Result<
        PublicProfile,
        BackupError,
    >)
        requires
            policies@.len() == config.shares@.len(),
        ensures
            r is Ok <==> forall|i: int| 0 <= i < policies@.len() ==> #[trigger] policies@[i] is Some,
            r is Err ==> r->Err_0@ == BackupFault::UnreadablePolicy,
            r matches Ok(p) ==> p@ == profile_view(config@, policy_texts(policies@)),
    {
        profile_of(config, policies)
    }

    /// Puts the Shares of a profile in place of the present ones. The
    /// identities of the Shares whose derived state no longer holds are
    /// returned.
    pub fn import_profile(
        &self,
        config: &mut DeviceConfig,
        profile: &PublicProfile,
        targets: &Vec<Target>,
    ) -> (r: Result<Vec<String>, BackupError>)
        requires
            targets@.len() == profile.shares@.len(),
        ensures
            match profile_import_of(
                old(config)@,
                profile@,
                self.place(),
                seen(targets@),
            ) {
                Ok((c, ids)) => if savable(c) {
                    r is Ok && views(r->Ok_0@) == ids && final(config)@ == c
                } else {
                    r is Err && r->Err_0@ == BackupFault::Device(DeviceFault::LegacyIgnore)
                        && *final(config) == *old(config)
                },
                Err(e) => r is Err && r->Err_0@ == e && *final(config) == *old(config),
            },
    {
        let mut candidate = config.duplicate();
        match apply_profile(&mut candidate, self.home.as_str(), profile, targets) {
            Err(e) => Err(e),
            Ok(ids) => match update(config, candidate) {
                Ok(()) => Ok(ids),
                Err(e) => Err(BackupError::Device(e)),
            },
        }
    }

    /// A backup of everything but the files; `state` holds the texts of the
    /// application's state, and `policies` each Share's policy, if it can be
    /// read.
    pub fn export_backup(
        &self,
        config: &DeviceConfig,
        state: StringMap<String>,
        policies: &Vec<Option<String>>,
    ) -> (r: Result<FullBackup, BackupError>)
        requires
            policies@.len() == config.shares@.len(),
        ensures
            wrote(r, config@, state@, policies@),
    {
        if let Err(e) = check_state(&state) {
            return Err(e);
        }
        let ghost shares = config@.shares;
        let mut by_share: StringMap<String> = StringMap::new();
        let mut i: usize = 0;
        assert(shares.take(0) =~= Seq::<ShareView>::empty());
        while i < config.shares.len()
            invariant
                i <= config.shares@.len() == policies@.len(),
                shares == config@.shares,
                forall|k: int| 0 <= k < i ==> #[trigger] policies@[k] is Some,
                by_share@ == policies_by_share(shares.take(i as int), policies@),
                forall|order: Seq<Chars>|
                    #[trigger] lists(order, state@.dom()) ==> order.len() <= MAX_STATE_FILES
                        && state_size(order, state@) <= MAX_STATE,
            decreases config.shares@.len() - i,
        {
            let share = &config.shares[i];
            proof {
                assert(shares.take(i + 1).drop_last() =~= shares.take(i as int));
                assert(shares.take(i + 1).last() == share@);
            }
            match &policies[i] {
                None => {
                    return Err(BackupError::UnreadablePolicy);
                },
                Some(text) => {
                    by_share.insert(share.share_id.clone(), text.clone());
                },
            }
            i = i + 1;
        }
        assert(shares.take(i as int) =~= shares);
        Ok(
            FullBackup {
                version: 2,
                config: config.duplicate(),
                state,
                ignore_policies: by_share,
            },
        )
    }

    /// What importing a backup comes to: the configuration, which names the
    /// import, and the files. `targets` says what stands where each Share is to
    /// go, and `size` how many bytes the backup's file has.
    pub fn import_backup(&self, backup: &FullBackup, size: u64, targets: &Vec<Target>) -> (r: Result<
        ImportPlan,
        BackupError,
    >)
        requires
            targets@.len() == backup.config.shares@.len(),
        ensures
            size > MAX_STATE ==> r is Err && r->Err_0@ == BackupFault::FileTooLarge,
            size <= MAX_STATE ==> exists|tls_ok: bool|
                (tls_ok ==> tls_identity(backup@.config.cert, backup@.config.key))
                    && #[trigger] imported(r, backup@, self.place(), seen(targets@), tls_ok),
    {
        if size > MAX_STATE as u64 {
            return Err(BackupError::FileTooLarge);
        }
        let tls_ok = is_tls_identity(backup.config.cert.as_str(), backup.config.key.as_str());
        self.import_backup_given(backup, targets, tls_ok)
    }

    /// What importing a backup comes to, given whether its certificate and key
    /// are taken for an identity.
    pub fn import_backup_given(&self, backup: &FullBackup, targets: &Vec<Target>, tls_ok: bool) -> (r:
        Result<ImportPlan, BackupError>)
        requires
            targets@.len() == backup.config.shares@.len(),
        ensures
            imported(r, backup@, self.place(), seen(targets@), tls_ok),
    {
        match plan_import_given(backup, self.home.as_str(), targets, tls_ok) {
            Err(e) => Err(e),
            Ok(plan) => match draw_hash() {
                Err(_) => Err(BackupError::NoRandom),
                Ok(id) => {
                    let mut plan = plan;
                    plan.config.import_generation = Some(id);
                    Ok(plan)
                },
            },
        }
    }

    /// Some figures for a person who looks for a fault. They tell nothing of the
    /// credentials.
    pub fn export_diagnostic(
        &self,
        config: &DeviceConfig,
        shares: Vec<Status>,
        recovery: &Vec<RecoveryItem>,
    ) -> (r: DiagnosticReport)
        requires
            bytes_of(recovery@) <= u64::MAX,
        ensures
            diagnosed(r, config@, shares@, recovery@),
    {
        let mut bytes: u64 = 0;
        let mut i: usize = 0;
        assert(recovery@.take(0) =~= Seq::<RecoveryItem>::empty());
        while i < recovery.len()
            invariant
                i <= recovery@.len(),
                bytes == bytes_of(recovery@.take(i as int)),
                bytes_of(recovery@) <= u64::MAX,
            decreases recovery@.len() - i,
        {
            proof {
                assert(recovery@.take(i + 1).drop_last() =~= recovery@.take(i as int));
                assert(recovery@.take(i + 1).last() == recovery@[i as int]);
                lemma_bytes_grow(recovery@, i + 1);
            }
            bytes = bytes + recovery[i].bytes;
            i = i + 1;
        }
        assert(recovery@.take(i as int) =~= recovery@);
        DiagnosticReport {
            protocol_version: PROTOCOL_VERSION,
            paired: config.peer_device.is_some(),
            sync_paused: config.sync_paused,
            shares,
            recovery_versions: recovery.len(),
            recovery_bytes: bytes,
        }
    }

    /// What is renamed when all of the application's files are put aside; the
    /// Shares' own folders are not touched.
    pub fn archive_all_application_data(&self, now: u64) -> (r: (String, String))
        ensures
            r.0@ == below(self.place(), ".rowd"@),
            r.1@ == below(self.place(), ".rowd-erased-"@ + decimal(now as nat)),
    {
        let mut name = ".rowd-erased-".to_string();
        let n = number(now);
        name.append(n.as_str());
        (child(self.home.as_str(), ".rowd"), child(self.home.as_str(), name.as_str()))
    }
}

/// A report tells nothing of the credentials: two configurations that differ in
/// the secret, the private key and the certificate alone have the same report.
pub proof fn law_diagnostic_holds_no_credentials(
    a: ConfigView,
    b: ConfigView,
    facts: Seq<ShareFacts>,
    shown_a: Seq<Status>,
    shown_b: Seq<Status>,
    recovery: Seq<RecoveryItem>,
    r: DiagnosticReport,
    s: DiagnosticReport,
)
    requires
        b == (ConfigView { secret: b.secret, key: b.key, cert: b.cert, ..a }),
        all_shown(shown_a, a, facts),
        all_shown(shown_b, b, facts),
        diagnosed(r, a, shown_a, recovery),
        diagnosed(s, b, shown_b, recovery),
    ensures
        r@ == s@,
{
    assert forall|i: int| 0 <= i < shown_a.len() implies seen(shown_a)[i] == seen(shown_b)[i] by {
        let x = shown_a[i];
        let y = shown_b[i];
        assert(shows(x, a.shares[i], facts[i]) && shows(y, b.shares[i], facts[i]));
        match facts[i].state {
            Ok(found) => {
                lemma_listing_unique(views(x.conflicts@), views(y.conflicts@), found.0@);
            },
            Err(_) => {
                assert(views(x.conflicts@) =~= views(y.conflicts@));
            },
        }
    }
    assert(seen(shown_a) =~= seen(shown_b));
}

/// What exporting a backup comes to: all that it is made of, or the first
/// thing that is wrong.
pub open spec fn wrote(
    r: Result<FullBackup, BackupError>,
    c: ConfigView,
    state: Map<Chars, Chars>,
    policies: Seq<Option<String>>,
) -> bool {
    forall|order: Seq<Chars>|
        #[trigger] lists(order, state.dom()) ==> if order.len() > MAX_STATE_FILES {
            r is Err && r->Err_0@ == BackupFault::TooManyFiles
        } else if state_size(order, state) > MAX_STATE {
            r is Err && r->Err_0@ == BackupFault::StateTooLarge
        } else if exists|i: int| 0 <= i < policies.len() && #[trigger] policies[i] is None {
            r is Err && r->Err_0@ == BackupFault::UnreadablePolicy
        } else {
            r is Ok && r->Ok_0@ == (BackupView {
                version: 2,
                config: c,
                state,
                policies: policies_by_share(c.shares, policies),
            })
        }
}

/// An import is what its backup comes to, under a name that was drawn for it.
pub open spec fn imported(
    r: Result<ImportPlan, BackupError>,
    b: BackupView,
    home: Chars,
    targets: Seq<TargetView>,
    tls_ok: bool,
) -> bool {
    forall|order: Seq<Chars>|
        #[trigger] lists(order, b.state.dom()) ==> match import_of(
            b,
            home,
            targets,
            order,
            tls_ok,
        ) {
            Err(e) => r is Err && r->Err_0@ == e,
            Ok((config, files)) => match r {
                Ok(plan) => files_seen(plan.files@) == files && plan.config@.import_generation
                    is Some && valid_hash(plan.config@.import_generation->0) && plan.config@ == (
                ConfigView { import_generation: plan.config@.import_generation, ..config }),
                Err(e) => e@ == BackupFault::NoRandom,
            },
        }
}

/// Each Share's policy, by identity.
pub open spec fn policies_by_share(shares: Seq<ShareView>, policies: Seq<Option<String>>) -> Map<
    Chars,
    Chars,
>
    decreases shares.len(),
{
    if shares.len() == 0 {
        Map::empty()
    } else {
        policies_by_share(shares.drop_last(), policies).insert(
            shares.last().share_id,
            policies[shares.len() - 1]->0@,
        )
    }
}

/// Answering a request takes it off the list, and leaves the others in their
/// order.
pub proof fn law_other_requests_stay_open(a: Seq<RequestView>, b: Seq<RequestView>, s: RequestView, id: Chars)
    ensures
        answered_requests(a + b, id) == answered_requests(a, id) + answered_requests(b, id),
        answered_requests(seq![s], id) == if s.request_id != id {
            seq![s]
        } else {
            Seq::empty()
        },
        answered_requests(Seq::empty(), id) == Seq::<RequestView>::empty(),
    decreases b.len(),
{
    let one = seq![s];
    assert(one.drop_last() =~= Seq::empty());
    assert(answered_requests(one.drop_last(), id) == Seq::<RequestView>::empty());
    assert(answered_requests(one, id) =~= if s.request_id != id {
        seq![s]
    } else {
        Seq::empty()
    });
    if b.len() == 0 {
        assert(a + b =~= a);
        assert(answered_requests(a + b, id) =~= answered_requests(a, id) + answered_requests(b, id));
    } else {
        law_other_requests_stay_open(a, b.drop_last(), s, id);
        assert((a + b).drop_last() =~= a + b.drop_last());
        assert((a + b).last() == b.last());
        assert(answered_requests(a + b, id) =~= answered_requests(a, id) + answered_requests(b, id));
    }
}

/// Accepting a request makes the Share that the phone asked for: with the name
/// and the mode of the request, in the folder that was chosen, on, and marked
/// with the request that it came from. Nothing else of the configuration
/// changes, and the request is no longer open.
pub proof fn law_accepted_request_becomes_a_share(c: ConfigView, i: int, id: Chars, path: Chars)
    requires
        0 <= i < c.share_requests.len(),
    ensures
        ({
            let a = accepted_config(c, i, id, RootView::Folder(path));
            let request = c.share_requests[i];
            &&& exists|k: int| #![trigger a.shares[k]]
                0 <= k < a.shares.len() && a.shares[k].share_id == id && a.shares[k].root == path
                    && a.shares[k].name == request.name && a.shares[k].mode == request.mode
                    && a.shares[k].enabled && a.shares[k].request_id == Some(request.request_id)
                    && a.shares[k].remap_policy is None && a.shares[k].legacy_ignore.len() == 0
            &&& forall|k: int| #![trigger a.shares[k]]
                0 <= k < c.shares.len() && c.shares[k].share_id != id ==> a.shares[k] == c.shares[k]
            &&& a == (ConfigView { shares: a.shares, share_requests: a.share_requests, ..c })
        }),
{
    let s = requested_share(id, c.share_requests[i]);
    law_stored_share_is_as_given(c.shares, s, path);
    let a = accepted_config(c, i, id, RootView::Folder(path));
    let k = choose|k: int| #![trigger a.shares[k]]
        0 <= k < a.shares.len() && a.shares[k].share_id == s.share_id && a.shares[k].root == path
            && a.shares[k].name == s.name && a.shares[k].mode == s.mode && a.shares[k].enabled
            == s.enabled && a.shares[k].binding_revision == s.binding_revision
            && a.shares[k].remap_policy == s.remap_policy && a.shares[k].request_id == s.request_id
            && a.shares[k].legacy_ignore == s.legacy_ignore;
    assert(a.shares[k].share_id == id);
}

/// The store hears of every change that was seen: none of the paths is
/// remembered any more, and each is known as changed or everything is; a change
/// of the policy, or of the folder itself, means everything.
pub proof fn law_store_hears_of_every_change(s: StoreView, order: Seq<Chars>, p: Chars)
    ensures
        ({
            let t = told(s, order);
            &&& order.contains(p) ==> !t.cache.dom().contains(p)
            &&& order.contains(p) && (p.len() == 0 || p == ".rowdignore"@) ==> t.force_full_scan
            &&& order.contains(p) ==> t.force_full_scan || (t.known_dirty_paths.contains(p)
                && t.dirty_paths.contains(p))
            &&& s.force_full_scan ==> t.force_full_scan
            &&& s.known_dirty_paths.contains(p) ==> t.known_dirty_paths.contains(p)
            &&& s.dirty_paths.contains(p) ==> t.dirty_paths.contains(p)
            &&& t.cache.dom().contains(p) ==> s.cache.dom().contains(p) && t.cache[p] == s.cache[p]
        }),
    decreases order.len(),
{
    if order.len() > 0 {
        let less = order.drop_last();
        law_store_hears_of_every_change(s, less, p);
        if order.contains(p) && p != order.last() {
            let k = choose|k: int| 0 <= k < order.len() && order[k] == p;
            assert(less[k] == p);
        }
        crate::storage::law_reported_path_is_forgotten(
            told(s, less),
            order.last(),
            Seq::empty(),
            p,
        );
    }
}

/// What is shown of the PC is what its configuration says, and each check shows
/// its own finding.
pub proof fn law_status_is_true(
    c: ConfigView,
    last: Option<u64>,
    address_ok: bool,
    tcp_ok: bool,
    tls_ok: bool,
)
    ensures
        ({
            let s = status_of(c, last);
            let k = checks_of(c, address_ok, tcp_ok, tls_ok);
            &&& s.configured && !no_status().configured
            &&& s.paired <==> c.peer_device is Some
            &&& !no_status().paired
            &&& s.address == c.address && s.sync_paused == c.sync_paused && s.last_connection == last
            &&& c.peer_device is Some ==> s.identity == c.peer_device->0
            &&& k.len() == 5
            &&& k[0].ok == address_ok && k[0].detail == c.address
            &&& k[1].ok == tcp_ok && k[2].ok == tls_ok
            &&& k[3].ok <==> c.peer_device is Some
            &&& k[4].ok <==> c.peer_device is Some
        }),
{
}

/// Every Share's policy is kept under its identity.
pub proof fn law_policies_are_kept_by_share(
    shares: Seq<ShareView>,
    policies: Seq<Option<String>>,
    i: int,
)
    requires
        0 <= i < shares.len(),
        forall|a: int, b: int| #![trigger shares[a], shares[b]]
            0 <= a < b < shares.len() ==> shares[a].share_id != shares[b].share_id,
    ensures
        policies_by_share(shares, policies).dom().contains(shares[i].share_id),
        policies_by_share(shares, policies)[shares[i].share_id] == policies[i]->0@,
    decreases shares.len(),
{
    let less = shares.drop_last();
    let n = shares.len() - 1;
    if i < n {
        assert forall|a: int, b: int| #![trigger less[a], less[b]]
            0 <= a < b < less.len() implies less[a].share_id != less[b].share_id by {
            assert(less[a] == shares[a] && less[b] == shares[b]);
        }
        law_policies_are_kept_by_share(less, policies, i);
        assert(less[i] == shares[i]);
        assert(shares[i].share_id != shares[n].share_id);
    }
}

/// Every version that was found is listed, with its Share's name and identity,
/// and nothing else is.
pub proof fn law_every_version_is_listed(
    shares: Seq<ShareView>,
    found: Seq<Vec<FoundVersion>>,
    item: ItemView,
)
    requires
        shares.len() <= found.len(),
    ensures
        all_items(shares, found).contains(item) <==> exists|i: int, k: int|
            #![trigger shares[i], found[i]@[k]]
            0 <= i < shares.len() && 0 <= k < found[i]@.len() && item.share_id == shares[i].share_id
                && item.share_name == shares[i].name && item.id == found[i]@[k].entry@.id
                && item.path == found[i]@[k].entry@.path && item.finished
                == found[i]@[k].entry@.finished && item.backup_available
                == found[i]@[k].entry@.backup_available && item.bytes == found[i]@[k].bytes,
    decreases shares.len(),
{
    if shares.len() > 0 {
        let less = shares.drop_last();
        let n = shares.len() - 1;
        law_every_version_is_listed(less, found, item);
        let rest = all_items(less, found);
        let own = share_items(shares[n], found[n]@);
        let all = all_items(shares, found);
        assert(all == rest + own);
        if all.contains(item) {
            let m = choose|m: int| 0 <= m < all.len() && all[m] == item;
            if m < rest.len() {
                assert(rest[m] == item);
                assert(rest.contains(item));
                let (i, k) = choose|i: int, k: int|
                    #![trigger less[i], found[i]@[k]]
                    0 <= i < less.len() && 0 <= k < found[i]@.len() && item.share_id
                        == less[i].share_id && item.share_name == less[i].name && item.id
                        == found[i]@[k].entry@.id && item.path == found[i]@[k].entry@.path
                        && item.finished == found[i]@[k].entry@.finished && item.backup_available
                        == found[i]@[k].entry@.backup_available && item.bytes == found[i]@[k].bytes;
                assert(shares[i] == less[i] && found[i]@[k] == found[i]@[k]);
            } else {
                let k = m - rest.len();
                assert(own[k] == item);
                assert(shares[n] == shares[n] && found[n]@[k] == found[n]@[k]);
            }
        }
        if exists|i: int, k: int|
            #![trigger shares[i], found[i]@[k]]
            0 <= i < shares.len() && 0 <= k < found[i]@.len() && item.share_id == shares[i].share_id
                && item.share_name == shares[i].name && item.id == found[i]@[k].entry@.id
                && item.path == found[i]@[k].entry@.path && item.finished
                == found[i]@[k].entry@.finished && item.backup_available
                == found[i]@[k].entry@.backup_available && item.bytes == found[i]@[k].bytes {
            let (i, k) = choose|i: int, k: int|
                #![trigger shares[i], found[i]@[k]]
                0 <= i < shares.len() && 0 <= k < found[i]@.len() && item.share_id
                    == shares[i].share_id && item.share_name == shares[i].name && item.id
                    == found[i]@[k].entry@.id && item.path == found[i]@[k].entry@.path
                    && item.finished == found[i]@[k].entry@.finished && item.backup_available
                    == found[i]@[k].entry@.backup_available && item.bytes == found[i]@[k].bytes;
            if i < n {
                assert(less[i] == shares[i] && found[i]@[k] == found[i]@[k]);
                assert(rest.contains(item));
                let m = choose|m: int| 0 <= m < rest.len() && rest[m] == item;
                assert(all[m] == item);
            } else {
                assert(own[k] == item);
                assert(all[rest.len() + k] == item);
            }
        }
    }
}

/// A change of the configuration happens as a whole or not at all, and it
/// happens unless a Share would still carry rules that belong in its folder.
pub proof fn law_changes_are_whole_or_none(
    was: DeviceConfig,
    now: DeviceConfig,
    r: Result<(), DeviceError>,
    to: ConfigView,
    e: DeviceFault,
)
    ensures
        changes(was, now, r, to) && r is Ok ==> now@ == to,
        changes(was, now, r, to) && r is Err ==> now == was,
        changes(was, now, r, to) && (forall|i: int|
            0 <= i < to.shares.len() ==> (#[trigger] to.shares[i]).legacy_ignore.len() == 0) ==> r
            is Ok,
        refuses(was, now, r, e) ==> r is Err && now == was,
{
}

/// A Share that was stored is there afterwards just as it was given, in the
/// folder that was given, whether it was there before or not; one that was
/// refused changes nothing.
pub proof fn law_stored_share_is_there(
    was: DeviceConfig,
    now: DeviceConfig,
    r: Result<(), DeviceError>,
    home: Chars,
    share: ShareView,
    place: RootView,
)
    requires
        stores(was, now, r, home, share, place),
    ensures
        r is Err ==> now == was,
        r is Ok ==> place is Folder && exists|i: int| #![trigger now@.shares[i]]
            0 <= i < now@.shares.len() && now@.shares[i].share_id == share.share_id
                && now@.shares[i].root == place->Folder_0 && now@.shares[i].name == share.name
                && now@.shares[i].mode == share.mode && now@.shares[i].enabled == share.enabled
                && now@.shares[i].binding_revision == share.binding_revision
                && now@.shares[i].remap_policy == share.remap_policy && now@.shares[i].request_id
                == share.request_id,
{
    if r is Ok {
        law_stored_share_is_as_given(was@.shares, share, place->Folder_0);
        let after = put(was@.shares, share, place);
        let i = choose|i: int| #![trigger after[i]]
            0 <= i < after.len() && after[i].share_id == share.share_id && after[i].root
                == place->Folder_0 && after[i].name == share.name && after[i].mode == share.mode
                && after[i].enabled == share.enabled && after[i].binding_revision
                == share.binding_revision && after[i].remap_policy == share.remap_policy
                && after[i].request_id == share.request_id;
        assert(now@.shares[i] == after[i]);
    }
}

/// A setup of the old form is taken over with its identity and its phone, and
/// only where its folder is still the one that it was made for.
pub proof fn law_old_setup_is_taken_over(
    old_config: LegacyConfig,
    peer: Option<Chars>,
    address: Chars,
    home: Chars,
    root: Chars,
    place: RootView,
)
    ensures
        ({
            let c = legacy_config(old_config, peer, address);
            let s = legacy_share(old_config.folder_id@, root);
            &&& c.pair_id == old_config.pair_id@ && c.cert == old_config.cert@ && c.key
                == old_config.key@ && c.secret == old_config.secret@
            &&& c.peer_device == peer && c.address == address && c.version == 8
            &&& c.shares.len() == 0 && c.share_requests.len() == 0 && c.rejected_requests.len() == 0
            &&& !c.sync_paused && !c.pending_unlink && c.import_generation is None
            &&& s.share_id == old_config.folder_id@ && s.mode == SyncMode::Bidirectional && s.enabled
            &&& parts_of(root).len() > 0 ==> s.name == parts_of(root)[parts_of(root).len() - 1]
            &&& old_config.version != 1 || old_config.root@ != root || parts_of(root).len() == 0
                ==> migrate_fault(old_config, home, root, place) is Some
            &&& migrate_fault(old_config, home, root, place) is None ==> place is Folder
                && !overlap(place->Folder_0, home) && valid_hash(old_config.folder_id@)
        }),
{
}

} // verus!
