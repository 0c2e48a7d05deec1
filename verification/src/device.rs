//! The PC's configuration: its identity, the paired phone, the Shares and the
//! phone's requests for more of them.

use crate::collections::Duplicate;
use crate::config::{
    copy_list, copy_text, lemma_seen_push, owned_text, seen, RequestView, ShareConfig, ShareRequest,
    ShareView, SyncMode,
};
use crate::managed::MAX_SHARES;
use crate::model::{is_hash, valid_hash};
use crate::paths::{lemma_overlap_symmetric, overlap, overlaps, parts_of, path_parts};
use crate::primitives::random_id;
use crate::text::{byte_len, chars_of, control, is_control, names, same, trim, trimmed, Chars};
use vstd::prelude::*;

verus! {

/// The version of the configuration that this library writes.
pub const CURRENT_DEVICE_VERSION: u32 = 8;

/// The PC's configuration.
pub struct DeviceConfig {
    pub version: u32,
    /// Where the phone finds the PC.
    pub address: String,
    /// Where the PC listens.
    pub listen: String,
    pub pair_id: String,
    pub cert: String,
    pub key: String,
    pub secret: String,
    /// The phone, once it has connected.
    pub peer_device: Option<String>,
    pub shares: Vec<ShareConfig>,
    pub share_requests: Vec<ShareRequest>,
    pub rejected_requests: Vec<ShareRequest>,
    pub sync_paused: bool,
    pub pending_unlink: bool,
    pub import_generation: Option<String>,
}

/// A [`DeviceConfig`] as a mathematical value.
#[verifier::ext_equal]
pub struct ConfigView {
    pub version: u32,
    pub address: Chars,
    pub listen: Chars,
    pub pair_id: Chars,
    pub cert: Chars,
    pub key: Chars,
    pub secret: Chars,
    pub peer_device: Option<Chars>,
    pub shares: Seq<ShareView>,
    pub share_requests: Seq<RequestView>,
    pub rejected_requests: Seq<RequestView>,
    pub sync_paused: bool,
    pub pending_unlink: bool,
    pub import_generation: Option<Chars>,
}

impl View for DeviceConfig {
    type V = ConfigView;

    open spec fn view(&self) -> ConfigView {
        ConfigView {
            version: self.version,
            address: self.address@,
            listen: self.listen@,
            pair_id: self.pair_id@,
            cert: self.cert@,
            key: self.key@,
            secret: self.secret@,
            peer_device: owned_text(self.peer_device),
            shares: seen(self.shares@),
            share_requests: seen(self.share_requests@),
            rejected_requests: seen(self.rejected_requests@),
            sync_paused: self.sync_paused,
            pending_unlink: self.pending_unlink,
            import_generation: owned_text(self.import_generation),
        }
    }
}

impl Duplicate for DeviceConfig {
    fn duplicate(&self) -> (r: Self) {
        DeviceConfig {
            version: self.version,
            address: self.address.clone(),
            listen: self.listen.clone(),
            pair_id: self.pair_id.clone(),
            cert: self.cert.clone(),
            key: self.key.clone(),
            secret: self.secret.clone(),
            peer_device: copy_text(&self.peer_device),
            shares: copy_list(&self.shares),
            share_requests: copy_list(&self.share_requests),
            rejected_requests: copy_list(&self.rejected_requests),
            sync_paused: self.sync_paused,
            pending_unlink: self.pending_unlink,
            import_generation: copy_text(&self.import_generation),
        }
    }
}

/// Why a change of the configuration is refused.
#[derive(Clone, Debug)]
pub enum DeviceError {
    /// An identity is not the text of a digest.
    InvalidIdentity,
    InvalidName,
    MissingRoot,
    NotADirectory,
    /// The folder lies in a private directory.
    InternalDirectory,
    OverlapsHome,
    /// The folder overlaps that of the Share with this name.
    OverlapsShare(String),
    TooManyShares,
    UnknownShare,
    /// No random number could be had.
    NoRandom,
    /// Ignore rules are still kept outside their folder.
    LegacyIgnore,
    UnsupportedVersion(u32),
    /// An old request was neither open nor rejected.
    AmbiguousRequest,
    ImportedStateMissing,
    PreviousStateMissing,
    InvalidLabel,
    /// No such request is open.
    RequestNotFound,
    SharePaused,
    /// No phone has connected yet.
    NothingPaired,
    RevisionExhausted,
    /// No certificate could be made.
    NoIdentity,
    InvalidInvitation,
    InvalidCertificate,
    NoLocalAddress,
    AlreadyConfigured,
    /// An old configuration belongs to another folder.
    LegacyMoved,
    QrTooLong,
    RootUnavailable,
    RootChanged,
    PolicyIsLink,
    UnnamedRoot,
}

/// A [`DeviceError`] as a mathematical value.
pub enum DeviceFault {
    InvalidIdentity,
    InvalidName,
    MissingRoot,
    NotADirectory,
    InternalDirectory,
    OverlapsHome,
    OverlapsShare(Chars),
    TooManyShares,
    UnknownShare,
    NoRandom,
    LegacyIgnore,
    UnsupportedVersion(u32),
    AmbiguousRequest,
    ImportedStateMissing,
    PreviousStateMissing,
    InvalidLabel,
    RequestNotFound,
    SharePaused,
    NothingPaired,
    RevisionExhausted,
    NoIdentity,
    InvalidInvitation,
    InvalidCertificate,
    NoLocalAddress,
    AlreadyConfigured,
    LegacyMoved,
    QrTooLong,
    RootUnavailable,
    RootChanged,
    PolicyIsLink,
    UnnamedRoot,
}

impl View for DeviceError {
    type V = DeviceFault;

    open spec fn view(&self) -> DeviceFault {
        match self {
            DeviceError::InvalidIdentity => DeviceFault::InvalidIdentity,
            DeviceError::InvalidName => DeviceFault::InvalidName,
            DeviceError::MissingRoot => DeviceFault::MissingRoot,
            DeviceError::NotADirectory => DeviceFault::NotADirectory,
            DeviceError::InternalDirectory => DeviceFault::InternalDirectory,
            DeviceError::OverlapsHome => DeviceFault::OverlapsHome,
            DeviceError::OverlapsShare(name) => DeviceFault::OverlapsShare(name@),
            DeviceError::TooManyShares => DeviceFault::TooManyShares,
            DeviceError::UnknownShare => DeviceFault::UnknownShare,
            DeviceError::NoRandom => DeviceFault::NoRandom,
            DeviceError::LegacyIgnore => DeviceFault::LegacyIgnore,
            DeviceError::UnsupportedVersion(v) => DeviceFault::UnsupportedVersion(*v),
            DeviceError::AmbiguousRequest => DeviceFault::AmbiguousRequest,
            DeviceError::ImportedStateMissing => DeviceFault::ImportedStateMissing,
            DeviceError::PreviousStateMissing => DeviceFault::PreviousStateMissing,
            DeviceError::InvalidLabel => DeviceFault::InvalidLabel,
            DeviceError::RequestNotFound => DeviceFault::RequestNotFound,
            DeviceError::SharePaused => DeviceFault::SharePaused,
            DeviceError::NothingPaired => DeviceFault::NothingPaired,
            DeviceError::RevisionExhausted => DeviceFault::RevisionExhausted,
            DeviceError::NoIdentity => DeviceFault::NoIdentity,
            DeviceError::InvalidInvitation => DeviceFault::InvalidInvitation,
            DeviceError::InvalidCertificate => DeviceFault::InvalidCertificate,
            DeviceError::NoLocalAddress => DeviceFault::NoLocalAddress,
            DeviceError::AlreadyConfigured => DeviceFault::AlreadyConfigured,
            DeviceError::LegacyMoved => DeviceFault::LegacyMoved,
            DeviceError::QrTooLong => DeviceFault::QrTooLong,
            DeviceError::RootUnavailable => DeviceFault::RootUnavailable,
            DeviceError::RootChanged => DeviceFault::RootChanged,
            DeviceError::PolicyIsLink => DeviceFault::PolicyIsLink,
            DeviceError::UnnamedRoot => DeviceFault::UnnamedRoot,
        }
    }
}

/// What stands at the place that a Share is to have.
#[derive(Clone, Debug)]
pub enum Root {
    Missing,
    /// Something, but no folder.
    Other,
    /// A folder, by the path that names it without detours.
    Folder(String),
}

/// A [`Root`] as a mathematical value.
pub enum RootView {
    Missing,
    Other,
    Folder(Chars),
}

impl View for Root {
    type V = RootView;

    open spec fn view(&self) -> RootView {
        match self {
            Root::Missing => RootView::Missing,
            Root::Other => RootView::Other,
            Root::Folder(path) => RootView::Folder(path@),
        }
    }
}

/// A name that a person can read: some text, at most 120 bytes, nothing that
/// steers a terminal.
pub open spec fn sound_name(name: Chars) -> bool {
    trimmed(name).len() > 0 && vstd::utf8::encode_utf8(name).len() <= 120 && forall|i: int|
        0 <= i < name.len() ==> !control(#[trigger] name[i])
}

/// Whether a name can be read.
pub fn is_sound_name(name: &str) -> (r: bool)
    ensures
        r == sound_name(name@),
{
    if trim(name).as_str().unicode_len() == 0 || byte_len(name) > 120 {
        return false;
    }
    let chars = chars_of(name);
    let mut i: usize = 0;
    while i < chars.len()
        invariant
            i <= chars@.len(),
            chars@ == name@,
            forall|k: int| 0 <= k < i ==> !control(#[trigger] name@[k]),
        decreases chars@.len() - i,
    {
        if is_control(chars[i]) {
            assert(control(name@[i as int]));
            return false;
        }
        i = i + 1;
    }
    true
}

/// The first of the other Shares, from the `i`th on, whose folder overlaps.
pub open spec fn overlapping(shares: Seq<ShareView>, id: Chars, root: Chars, i: int) -> Option<Chars>
    decreases shares.len() - i,
{
    if i < 0 || i >= shares.len() {
        None
    } else if shares[i].share_id != id && overlap(root, shares[i].root) {
        Some(shares[i].name)
    } else {
        overlapping(shares, id, root, i + 1)
    }
}

/// Where a Share stands, if it is there.
pub open spec fn position(shares: Seq<ShareView>, id: Chars) -> Option<int>
    decreases shares.len(),
{
    if shares.len() == 0 {
        None
    } else {
        match position(shares.drop_last(), id) {
            Some(i) => Some(i),
            None => if shares.last().share_id == id {
                Some(shares.len() - 1)
            } else {
                None
            },
        }
    }
}

/// The first Share with an identity stands at its position.
pub proof fn lemma_position(shares: Seq<ShareView>, id: Chars)
    ensures
        match position(shares, id) {
            Some(i) => 0 <= i < shares.len() && shares[i].share_id == id && forall|k: int|
                0 <= k < i ==> (#[trigger] shares[k]).share_id != id,
            None => forall|k: int| 0 <= k < shares.len() ==> (#[trigger] shares[k]).share_id != id,
        },
    decreases shares.len(),
{
    if shares.len() > 0 {
        let less = shares.drop_last();
        lemma_position(less, id);
        match position(less, id) {
            Some(i) => {
                assert(shares[i] == less[i]);
                assert forall|k: int| 0 <= k < i implies (#[trigger] shares[k]).share_id != id by {
                    assert(less[k] == shares[k]);
                }
            },
            None => {
                assert forall|k: int| 0 <= k < less.len() implies (
                #[trigger] shares[k]).share_id != id by {
                    assert(less[k] == shares[k]);
                }
            },
        }
    }
}

/// Why a Share cannot be stored, if there is a reason.
pub open spec fn put_fault(
    shares: Seq<ShareView>,
    home: Chars,
    share: ShareView,
    root: RootView,
) -> Option<DeviceFault> {
    if !valid_hash(share.share_id) || (share.request_id is Some && !valid_hash(
        share.request_id->0,
    )) {
        Some(DeviceFault::InvalidIdentity)
    } else if !sound_name(share.name) {
        Some(DeviceFault::InvalidName)
    } else {
        match root {
            RootView::Missing => Some(DeviceFault::MissingRoot),
            RootView::Other => Some(DeviceFault::NotADirectory),
            RootView::Folder(path) => if parts_of(path).contains(".rowd"@) {
                Some(DeviceFault::InternalDirectory)
            } else if overlap(path, home) {
                Some(DeviceFault::OverlapsHome)
            } else if overlapping(shares, share.share_id, path, 0) is Some {
                Some(
                    DeviceFault::OverlapsShare(
                        overlapping(shares, share.share_id, path, 0)->0,
                    ),
                )
            } else if position(shares, share.share_id) is None && shares.len() >= MAX_SHARES {
                Some(DeviceFault::TooManyShares)
            } else {
                None
            },
        }
    }
}

/// The Shares with one of them replaced or added.
pub open spec fn put(shares: Seq<ShareView>, share: ShareView, root: RootView) -> Seq<ShareView> {
    let stored = ShareView { root: root->Folder_0, ..share };
    match position(shares, share.share_id) {
        Some(i) => shares.update(i, stored),
        None => shares.push(stored),
    }
}

/// Shares as the configuration may hold them: not too many, each with an
/// identity and a folder of its own, none inside another or around the PC's
/// own folder.
pub open spec fn sound_config(shares: Seq<ShareView>, home: Chars) -> bool {
    &&& shares.len() <= MAX_SHARES
    &&& forall|i: int| #![trigger shares[i]]
        0 <= i < shares.len() ==> valid_hash(shares[i].share_id) && sound_name(shares[i].name)
            && !overlap(shares[i].root, home)
    &&& forall|i: int, j: int| #![trigger shares[i], shares[j]]
        0 <= i < j < shares.len() ==> shares[i].share_id != shares[j].share_id && !overlap(
            shares[i].root,
            shares[j].root,
        )
}

proof fn lemma_overlapping(shares: Seq<ShareView>, id: Chars, root: Chars, i: int)
    requires
        0 <= i,
    ensures
        overlapping(shares, id, root, i) is None ==> forall|k: int|
            i <= k < shares.len() && (#[trigger] shares[k]).share_id != id ==> !overlap(
                root,
                shares[k].root,
            ),
    decreases shares.len() - i,
{
    if i < shares.len() {
        lemma_overlapping(shares, id, root, i + 1);
    }
}

/// Storing a Share keeps the configuration sound.
pub proof fn law_put_keeps_config_sound(
    shares: Seq<ShareView>,
    home: Chars,
    share: ShareView,
    root: RootView,
)
    requires
        sound_config(shares, home),
        put_fault(shares, home, share, root) is None,
    ensures
        sound_config(put(shares, share, root), home),
{
    let path = root->Folder_0;
    let stored = ShareView { root: path, ..share };
    let after = put(shares, share, root);
    lemma_position(shares, share.share_id);
    lemma_overlapping(shares, share.share_id, path, 0);
    assert forall|i: int, j: int| #![trigger after[i], after[j]]
        0 <= i < j < after.len() implies after[i].share_id != after[j].share_id && !overlap(
        after[i].root,
        after[j].root,
    ) by {
        let at = match position(shares, share.share_id) {
            Some(p) => p,
            None => shares.len() as int,
        };
        if i == at {
            assert(after[j] == shares[j]);
            if position(shares, share.share_id) is Some {
                assert(shares[i].share_id != shares[j].share_id);
            }
        } else if j == at {
            assert(after[i] == shares[i]);
            lemma_overlap_symmetric(after[i].root, after[j].root);
            if position(shares, share.share_id) is Some {
                assert(shares[i].share_id != shares[j].share_id);
            }
        } else {
            assert(after[i] == shares[i] && after[j] == shares[j]);
        }
    }
    assert forall|i: int| #![trigger after[i]] 0 <= i < after.len() implies valid_hash(
        after[i].share_id,
    ) && sound_name(after[i].name) && !overlap(after[i].root, home) by {
        if after[i] != stored {
            assert(after[i] == shares[i]);
        }
    }
}

/// A Share keeps its identity and its place when it is stored again, and the
/// others stay as they were.
pub proof fn law_put_keeps_the_others(shares: Seq<ShareView>, share: ShareView, root: RootView, i: int)
    requires
        0 <= i < shares.len(),
        position(shares, share.share_id) != Some(i),
    ensures
        put(shares, share, root)[i] == shares[i],
        put(shares, share, root).len() <= shares.len() + 1,
{
    lemma_position(shares, share.share_id);
}

fn holds_private(path: &str) -> (r: bool)
    ensures
        r == parts_of(path@).contains(".rowd"@),
{
    let parts = path_parts(path);
    names(&parts, ".rowd")
}

/// The Shares without one of them.
pub open spec fn dropped(shares: Seq<ShareView>, id: Chars) -> Seq<ShareView>
    decreases shares.len(),
{
    if shares.len() == 0 {
        Seq::empty()
    } else {
        let rest = dropped(shares.drop_last(), id);
        if shares.last().share_id == id {
            rest
        } else {
            rest.push(shares.last())
        }
    }
}

/// Some ignore rules are still kept outside their folder.
pub open spec fn legacy_left(shares: Seq<ShareView>) -> bool {
    exists|i: int| 0 <= i < shares.len() && (#[trigger] shares[i]).legacy_ignore.len() > 0
}

/// Whether the configuration may be written.
pub open spec fn savable(c: ConfigView) -> bool {
    c.version == CURRENT_DEVICE_VERSION ==> !legacy_left(c.shares)
}

impl DeviceConfig {
    /// Where a Share stands, if it is there.
    pub fn find(&self, id: &str) -> (r: Option<usize>)
        ensures
            match r {
                Some(i) => position(self@.shares, id@) == Some(i as int),
                None => position(self@.shares, id@) is None,
            },
            r is Some ==> r->0 < self.shares@.len() && self.shares@[r->0 as int].share_id@ == id@,
    {
        proof {
            lemma_position(self@.shares, id@);
        }
        let mut i: usize = 0;
        while i < self.shares.len()
            invariant
                i <= self.shares@.len(),
                forall|k: int| 0 <= k < i ==> (#[trigger] self@.shares[k]).share_id != id@,
            decreases self.shares@.len() - i,
        {
            assert(self@.shares[i as int] == self.shares@[i as int]@);
            if same(self.shares[i].share_id.as_str(), id) {
                proof {
                    lemma_position(self@.shares, id@);
                }
                return Some(i);
            }
            i = i + 1;
        }
        proof {
            lemma_position(self@.shares, id@);
        }
        None
    }

    fn first_overlap(&self, id: &str, root: &str) -> (r: Option<String>)
        ensures
            owned_text(r) == overlapping(self@.shares, id@, root@, 0),
    {
        let mut i: usize = 0;
        while i < self.shares.len()
            invariant
                i <= self.shares@.len(),
                overlapping(self@.shares, id@, root@, 0) == overlapping(
                    self@.shares,
                    id@,
                    root@,
                    i as int,
                ),
            decreases self.shares@.len() - i,
        {
            let other = &self.shares[i];
            assert(self@.shares[i as int] == other@);
            if !same(other.share_id.as_str(), id) && overlaps(root, other.root.as_str()) {
                return Some(other.name.clone());
            }
            i = i + 1;
        }
        None
    }

    /// Stores a Share whose folder is known.
    pub fn put_share(&mut self, home: &str, share: ShareConfig, root: Root) -> (r: Result<
        (),
        DeviceError,
    >)
        ensures
            r is Ok <==> put_fault(old(self)@.shares, home@, share@, root@) is None,
            r is Ok ==> final(self)@ == (ConfigView {
                shares: put(old(self)@.shares, share@, root@),
                ..old(self)@
            }),
            r is Err ==> Some(r->Err_0@) == put_fault(old(self)@.shares, home@, share@, root@)
                && *final(self) == *old(self),
    {
        if !is_hash(share.share_id.as_str()) {
            return Err(DeviceError::InvalidIdentity);
        }
        if let Some(request) = &share.request_id {
            if !is_hash(request.as_str()) {
                return Err(DeviceError::InvalidIdentity);
            }
        }
        if !is_sound_name(share.name.as_str()) {
            return Err(DeviceError::InvalidName);
        }
        let path = match root {
            Root::Missing => {
                return Err(DeviceError::MissingRoot);
            },
            Root::Other => {
                return Err(DeviceError::NotADirectory);
            },
            Root::Folder(path) => path,
        };
        if holds_private(path.as_str()) {
            return Err(DeviceError::InternalDirectory);
        }
        if overlaps(path.as_str(), home) {
            return Err(DeviceError::OverlapsHome);
        }
        if let Some(name) = self.first_overlap(share.share_id.as_str(), path.as_str()) {
            return Err(DeviceError::OverlapsShare(name));
        }
        let stored = ShareConfig { root: path, ..share };
        assert(stored@ == ShareView { root: root@->Folder_0, ..share@ });
        match self.find(stored.share_id.as_str()) {
            Some(i) => {
                self.shares.set(i, stored);
                assert(seen(self.shares@) =~= put(old(self)@.shares, share@, root@));
            },
            None => {
                if self.shares.len() >= MAX_SHARES {
                    return Err(DeviceError::TooManyShares);
                }
                proof {
                    lemma_seen_push(self.shares@, stored);
                }
                self.shares.push(stored);
            },
        }
        Ok(())
    }

    /// Stores a new Share under an identity that is drawn for it.
    pub fn add_share(&mut self, home: &str, name: String, root: Root, mode: SyncMode) -> (r: Result<
        String,
        DeviceError,
    >)
        ensures
            match r {
                Ok(id) => valid_hash(id@) && put_fault(
                    old(self)@.shares,
                    home@,
                    new_share(id@, name@, mode),
                    root@,
                ) is None && final(self)@ == (ConfigView {
                    shares: put(old(self)@.shares, new_share(id@, name@, mode), root@),
                    ..old(self)@
                }),
                Err(e) => *final(self) == *old(self) && (e@ == DeviceFault::NoRandom || exists|
                    id: Chars,
                |
                    valid_hash(id) && Some(e@) == #[trigger] put_fault(
                        old(self)@.shares,
                        home@,
                        new_share(id, name@, mode),
                        root@,
                    )),
            },
    {
        match random_id() {
            None => Err(DeviceError::NoRandom),
            Some(id) => match self.put_share(home, fresh_share(id.clone(), name, mode), root) {
                Ok(()) => Ok(id),
                Err(e) => {
                    proof {
                        assert(Some(e@) == put_fault(
                            old(self)@.shares,
                            home@,
                            new_share(id@, name@, mode),
                            root@,
                        ));
                    }
                    Err(e)
                },
            },
        }
    }

    /// Takes a Share out of the configuration; its files stay.
    pub fn remove_share(&mut self, id: &str) -> (r: Result<(), DeviceError>)
        ensures
            r is Ok <==> position(old(self)@.shares, id@) is Some,
            r is Ok ==> final(self)@ == (ConfigView {
                shares: dropped(old(self)@.shares, id@),
                ..old(self)@
            }),
            r is Err ==> r->Err_0@ == DeviceFault::UnknownShare && *final(self) == *old(self),
    {
        if self.find(id).is_none() {
            return Err(DeviceError::UnknownShare);
        }
        let mut kept: Vec<ShareConfig> = Vec::new();
        let mut i: usize = 0;
        assert(seen(kept@) =~= Seq::<ShareView>::empty());
        while i < self.shares.len()
            invariant
                i <= self.shares@.len(),
                self@ == old(self)@,
                seen(kept@) == dropped(self@.shares.take(i as int), id@),
            decreases self.shares@.len() - i,
        {
            proof {
                let more = self@.shares.take(i + 1);
                assert(more.drop_last() =~= self@.shares.take(i as int));
                assert(more.last() == self.shares@[i as int]@);
            }
            if !same(self.shares[i].share_id.as_str(), id) {
                let share = self.shares[i].duplicate();
                proof {
                    lemma_seen_push(kept@, share);
                }
                kept.push(share);
            }
            i = i + 1;
        }
        assert(self@.shares.take(i as int) =~= self@.shares);
        self.shares = kept;
        Ok(())
    }

    /// Refuses to write a current configuration whose ignore rules are still
    /// kept outside their folders.
    pub fn save(&self) -> (r: Result<(), DeviceError>)
        ensures
            r is Ok <==> savable(self@),
            r is Err ==> r->Err_0@ == DeviceFault::LegacyIgnore,
    {
        if self.version == CURRENT_DEVICE_VERSION && has_legacy(&self.shares) {
            return Err(DeviceError::LegacyIgnore);
        }
        Ok(())
    }
}

fn has_legacy(shares: &Vec<ShareConfig>) -> (r: bool)
    ensures
        r == legacy_left(seen(shares@)),
{
    let mut i: usize = 0;
    while i < shares.len()
        invariant
            i <= shares@.len(),
            forall|k: int| 0 <= k < i ==> (#[trigger] seen(shares@)[k]).legacy_ignore.len() == 0,
        decreases shares@.len() - i,
    {
        assert(seen(shares@)[i as int] == shares@[i as int]@);
        if shares[i].legacy_ignore.as_str().unicode_len() > 0 {
            return true;
        }
        i = i + 1;
    }
    false
}

/// A Share as it begins.
pub open spec fn new_share(id: Chars, name: Chars, mode: SyncMode) -> ShareView {
    ShareView {
        share_id: id,
        name,
        root: Seq::empty(),
        binding_revision: 0,
        mode,
        enabled: true,
        legacy_ignore: Seq::empty(),
        request_id: None,
        remap_policy: None,
    }
}

/// A Share as it begins.
pub fn fresh_share(id: String, name: String, mode: SyncMode) -> (r: ShareConfig)
    ensures
        r@ == new_share(id@, name@, mode),
{
    let r = ShareConfig {
        share_id: id,
        name,
        root: String::new(),
        binding_revision: 0,
        mode,
        enabled: true,
        legacy_ignore: String::new(),
        request_id: None,
        remap_policy: None,
    };
    assert(r@ =~= new_share(id@, name@, mode));
    r
}

proof fn lemma_dropped(shares: Seq<ShareView>, id: Chars)
    ensures
        dropped(shares, id).len() <= shares.len(),
        forall|j: int| 0 <= j < dropped(shares, id).len() ==> (#[trigger] dropped(
            shares,
            id,
        )[j]).share_id != id,
        forall|i: int|
            0 <= i < shares.len() && (#[trigger] shares[i]).share_id != id ==> dropped(
                shares,
                id,
            ).contains(shares[i]),
    decreases shares.len(),
{
    if shares.len() > 0 {
        let less = shares.drop_last();
        lemma_dropped(less, id);
        let rest = dropped(less, id);
        let all = dropped(shares, id);
        assert forall|i: int|
            0 <= i < shares.len() && (#[trigger] shares[i]).share_id != id implies all.contains(
            shares[i],
        ) by {
            if i < less.len() {
                assert(less[i] == shares[i]);
                let k = choose|k: int| 0 <= k < rest.len() && rest[k] == shares[i];
                assert(all[k] == shares[i]);
            } else {
                assert(all[all.len() - 1] == shares[i]);
            }
        }
        assert forall|j: int| 0 <= j < all.len() implies (#[trigger] all[j]).share_id != id by {
            if j < rest.len() {
                assert(all[j] == rest[j]);
            }
        }
    }
}

/// Removing a Share removes that one and no other.
pub proof fn law_remove_keeps_the_others(shares: Seq<ShareView>, id: Chars)
    ensures
        position(dropped(shares, id), id) is None,
        forall|i: int|
            0 <= i < shares.len() && (#[trigger] shares[i]).share_id != id ==> dropped(
                shares,
                id,
            ).contains(shares[i]),
{
    lemma_dropped(shares, id);
    lemma_position(dropped(shares, id), id);
}

/// Storing a Share stores just what was given: afterwards the Share with that
/// identity has that folder, and the name, the mode, the pause and the binding
/// that were given, whether it was there before or not. It keeps its place, or
/// takes the last one, and every other Share stays as it was.
pub proof fn law_stored_share_is_as_given(shares: Seq<ShareView>, share: ShareView, path: Chars)
    ensures
        ({
            let after = put(shares, share, RootView::Folder(path));
            let known = exists|k: int|
                0 <= k < shares.len() && (#[trigger] shares[k]).share_id == share.share_id;
            &&& after.len() == shares.len() + if known {
                0int
            } else {
                1
            }
            &&& exists|i: int| #![trigger after[i]]
                0 <= i < after.len() && after[i].share_id == share.share_id && after[i].root == path
                    && after[i].name == share.name && after[i].mode == share.mode
                    && after[i].enabled == share.enabled && after[i].binding_revision
                    == share.binding_revision && after[i].remap_policy == share.remap_policy
                    && after[i].request_id == share.request_id && after[i].legacy_ignore
                    == share.legacy_ignore && (known ==> i < shares.len() && shares[i].share_id
                    == share.share_id) && (!known ==> i == shares.len()) && forall|k: int|
                    0 <= k < i ==> (#[trigger] after[k]).share_id != share.share_id
            &&& forall|k: int| #![trigger after[k]]
                0 <= k < shares.len() && shares[k].share_id != share.share_id ==> after[k]
                    == shares[k]
        }),
{
    lemma_position(shares, share.share_id);
    let after = put(shares, share, RootView::Folder(path));
    let at = match position(shares, share.share_id) {
        Some(i) => i,
        None => shares.len() as int,
    };
    assert(after[at].share_id == share.share_id && after[at].root == path);
    assert forall|k: int| 0 <= k < at implies (#[trigger] after[k]).share_id != share.share_id by {
        assert(after[k] == shares[k]);
    }
}

/// A Share is accepted where nothing speaks against it: sound identities, a
/// readable name, an existing folder that is not the library's own, is apart
/// from the PC's own folder and from those of the other Shares, and room for
/// one more.
pub proof fn law_sound_share_is_accepted(
    shares: Seq<ShareView>,
    home: Chars,
    share: ShareView,
    path: Chars,
)
    requires
        valid_hash(share.share_id),
        share.request_id is Some ==> valid_hash(share.request_id->0),
        sound_name(share.name),
        !parts_of(path).contains(".rowd"@),
        !overlap(path, home),
        forall|k: int| #![trigger shares[k]]
            0 <= k < shares.len() && shares[k].share_id != share.share_id ==> !overlap(
                path,
                shares[k].root,
            ),
        shares.len() < MAX_SHARES || exists|k: int|
            0 <= k < shares.len() && (#[trigger] shares[k]).share_id == share.share_id,
    ensures
        put_fault(shares, home, share, RootView::Folder(path)) is None,
{
    lemma_position(shares, share.share_id);
    lemma_overlapping(shares, share.share_id, path, 0);
    lemma_overlapping_some(shares, share.share_id, path, 0);
}

proof fn lemma_overlapping_some(shares: Seq<ShareView>, id: Chars, root: Chars, i: int)
    requires
        0 <= i,
    ensures
        overlapping(shares, id, root, i) is Some ==> exists|k: int|
            i <= k < shares.len() && (#[trigger] shares[k]).share_id != id && overlap(
                root,
                shares[k].root,
            ) && overlapping(shares, id, root, i) == Some(shares[k].name),
    decreases shares.len() - i,
{
    if i < shares.len() {
        lemma_overlapping_some(shares, id, root, i + 1);
    }
}

/// A Share is refused where something speaks against it, and says what: a
/// folder that is missing or is none, that is the library's own, or that
/// overlaps the PC's own folder or that of another Share, which is named.
pub proof fn law_unsound_share_is_refused(
    shares: Seq<ShareView>,
    home: Chars,
    share: ShareView,
    root: RootView,
)
    ensures
        ({
            let fault = put_fault(shares, home, share, root);
            let named = valid_hash(share.share_id) && (share.request_id is Some ==> valid_hash(
                share.request_id->0,
            )) && sound_name(share.name);
            &&& !valid_hash(share.share_id) ==> fault == Some(DeviceFault::InvalidIdentity)
            &&& valid_hash(share.share_id) && share.request_id is None && !sound_name(share.name)
                ==> fault == Some(DeviceFault::InvalidName)
            &&& named && root is Missing ==> fault == Some(DeviceFault::MissingRoot)
            &&& named && root is Other ==> fault == Some(DeviceFault::NotADirectory)
            &&& root matches RootView::Folder(path) ==> {
                &&& named && parts_of(path).contains(".rowd"@) ==> fault == Some(
                    DeviceFault::InternalDirectory,
                )
                &&& (overlap(path, home) || exists|k: int|
                    0 <= k < shares.len() && (#[trigger] shares[k]).share_id != share.share_id
                        && overlap(path, shares[k].root)) ==> fault is Some
                &&& fault matches Some(DeviceFault::OverlapsShare(name)) ==> exists|k: int|
                    0 <= k < shares.len() && (#[trigger] shares[k]).name == name
                        && shares[k].share_id != share.share_id && overlap(path, shares[k].root)
            }
        }),
{
    if let RootView::Folder(path) = root {
        lemma_overlapping(shares, share.share_id, path, 0);
        lemma_overlapping_some(shares, share.share_id, path, 0);
    }
}

/// Removing a Share takes it off the list, and leaves the others in their order.
pub proof fn law_removal_takes_just_that_share(a: Seq<ShareView>, b: Seq<ShareView>, s: ShareView, id: Chars)
    ensures
        dropped(a + b, id) == dropped(a, id) + dropped(b, id),
        dropped(seq![s], id) == if s.share_id != id {
            seq![s]
        } else {
            Seq::empty()
        },
        dropped(Seq::empty(), id) == Seq::<ShareView>::empty(),
    decreases b.len(),
{
    let one = seq![s];
    assert(one.drop_last() =~= Seq::empty());
    assert(dropped(one.drop_last(), id) == Seq::<ShareView>::empty());
    assert(dropped(one, id) =~= if s.share_id != id {
        seq![s]
    } else {
        Seq::empty()
    });
    if b.len() == 0 {
        assert(a + b =~= a);
        assert(dropped(a + b, id) =~= dropped(a, id) + dropped(b, id));
    } else {
        law_removal_takes_just_that_share(a, b.drop_last(), s, id);
        assert((a + b).drop_last() =~= a + b.drop_last());
        assert((a + b).last() == b.last());
        assert(dropped(a + b, id) =~= dropped(a, id) + dropped(b, id));
    }
}

/// A new Share is on, has the identity, the name and the mode that were given,
/// and nothing of another: no request, no remapping, no rules, the first
/// revision.
pub proof fn law_new_share_is_plain(id: Chars, name: Chars, mode: SyncMode)
    ensures
        ({
            let s = new_share(id, name, mode);
            &&& s.share_id == id && s.name == name && s.mode == mode && s.enabled
            &&& s.request_id is None && s.remap_policy is None && s.legacy_ignore.len() == 0
            &&& s.binding_revision == 0
        }),
{
}

/// A name can be shown: it is not blank, takes at most a hundred and twenty
/// bytes, and holds no control character.
pub proof fn law_sound_name(name: Chars, white: Chars)
    requires
        forall|i: int| 0 <= i < white.len() ==> crate::text::white(#[trigger] white[i]),
    ensures
        !sound_name(white),
        vstd::utf8::encode_utf8(name).len() > 120 ==> !sound_name(name),
        forall|i: int| 0 <= i < name.len() && control(#[trigger] name[i]) ==> !sound_name(name),
        name.len() > 0 && !crate::text::white(name[0]) && !crate::text::white(name.last())
            && vstd::utf8::encode_utf8(name).len() <= 120 && (forall|i: int|
            0 <= i < name.len() ==> !control(#[trigger] name[i])) ==> sound_name(name),
{
    let none = Seq::<char>::empty();
    crate::text::law_trimming(white, none, none);
    assert(white + none + none =~= white);
    if name.len() > 0 && !crate::text::white(name[0]) && !crate::text::white(name.last()) {
        crate::text::law_trimming(none, name, none);
        assert(none + name + none =~= name);
    }
}

} // verus!
