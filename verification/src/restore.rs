//! What comes back of a profile and of a backup: what went into them, and
//! nothing of the credentials by way of a profile.

use crate::app::{blank_config, imported, policies_by_share, wrote, IdentityView};
use crate::backup::{
    backup_label, files_seen, import_of, invitation_of, lemma_state_size_grows, opened_backup,
    passphrase_key, policy_fault, profile_import_of, profile_restored, profile_view, restored,
    safe_path, sealed_backup, stale, state_files, state_size, BackupError, BackupFault, BackupView,
    EncryptedView, FullBackup, ImportPlan, TargetView, MAX_STATE, MAX_STATE_FILE, MAX_STATE_FILES,
    MIN_PASSPHRASE,
};
use crate::collections::lists;
use crate::config::ShareView;
use crate::device::{
    dropped, law_put_keeps_config_sound, legacy_left, lemma_position, new_share, overlapping,
    position, put, put_fault, sound_config, ConfigView, RootView, CURRENT_DEVICE_VERSION,
};
use crate::invitation::invitation_fault;
use crate::model::valid_hash;
use crate::paths::{lemma_overlap_symmetric, overlap, parts_of};
use crate::primitives::{gcm_opened, hex_bytes, hex_text, lemma_hex_round_trip};
use crate::text::Chars;
use vstd::prelude::*;

verus! {

/// A profile tells nothing of the credentials: two configurations with the
/// same Shares, both paused or neither, have the same profile.
pub proof fn law_profile_holds_no_credentials(a: ConfigView, b: ConfigView, policies: Seq<Chars>)
    requires
        a.shares == b.shares,
        a.sync_paused == b.sync_paused,
    ensures
        profile_view(a, policies) == profile_view(b, policies),
{
}

/// Shares that can be put where they are: a sound configuration whose folders
/// are none of the PC's own and whose requests have identities.
pub open spec fn settled(shares: Seq<ShareView>, home: Chars) -> bool {
    &&& sound_config(shares, home)
    &&& forall|i: int| #![trigger shares[i]]
        0 <= i < shares.len() ==> !parts_of(shares[i].root).contains(".rowd"@) && (
        shares[i].request_id is Some ==> valid_hash(shares[i].request_id->0))
}

/// The folders of Shares, where they are, with their policies.
pub open spec fn in_place(shares: Seq<ShareView>, policies: Seq<Chars>) -> Seq<TargetView> {
    Seq::new(
        shares.len(),
        |i: int|
            TargetView { root: RootView::Folder(shares[i].root), policy: Some(policies[i]) },
    )
}

/// The same identities in the same folders.
spec fn same_places(a: Seq<ShareView>, b: Seq<ShareView>) -> bool {
    &&& a.len() == b.len()
    &&& forall|k: int| #![trigger a[k]] #![trigger b[k]]
        0 <= k < a.len() ==> a[k].share_id == b[k].share_id && a[k].root == b[k].root
}

proof fn lemma_nothing_overlaps(shares: Seq<ShareView>, id: Chars, root: Chars, i: int)
    requires
        0 <= i,
        forall|k: int| 0 <= k < shares.len() ==> !overlap(root, (#[trigger] shares[k]).root),
    ensures
        overlapping(shares, id, root, i) is None,
    decreases shares.len() - i,
{
    if i < shares.len() {
        lemma_nothing_overlaps(shares, id, root, i + 1);
    }
}

/// The next Share can be put behind those before it.
proof fn lemma_put_next(
    shares: Seq<ShareView>,
    home: Chars,
    done: Seq<ShareView>,
    share: ShareView,
    i: int,
)
    requires
        settled(shares, home),
        0 <= i < shares.len(),
        same_places(done, shares.take(i)),
        share.share_id == shares[i].share_id,
        share.name == shares[i].name,
        share.request_id is None || share.request_id == shares[i].request_id,
    ensures
        put_fault(done, home, share, RootView::Folder(shares[i].root)) is None,
        put(done, share, RootView::Folder(shares[i].root)) == done.push(
            ShareView { root: shares[i].root, ..share },
        ),
{
    let root = shares[i].root;
    assert forall|k: int| 0 <= k < done.len() implies !overlap(root, (#[trigger] done[k]).root)
        && done[k].share_id != share.share_id by {
        assert(shares.take(i)[k] == shares[k]);
        lemma_overlap_symmetric(shares[k].root, root);
    }
    lemma_nothing_overlaps(done, share.share_id, root, 0);
    lemma_position(done, share.share_id);
}

/// How a Share comes back of a profile: as it was, but for a request and an
/// exceptional first round, which are over.
pub open spec fn plain(s: ShareView) -> ShareView {
    ShareView { legacy_ignore: Seq::empty(), request_id: None, remap_policy: None, ..s }
}

proof fn lemma_profile_restores(c: ConfigView, home: Chars, policies: Seq<Chars>, i: int)
    requires
        settled(c.shares, home),
        0 <= i <= c.shares.len(),
    ensures
        profile_restored(
            c.shares.take(i).map_values(|s: ShareView| plain(s)),
            c.shares,
            profile_view(c, policies).shares,
            in_place(c.shares, policies),
            2,
            home,
            i,
        ) == Ok::<Seq<ShareView>, BackupFault>(c.shares.map_values(|s: ShareView| plain(s))),
    decreases c.shares.len() - i,
{
    let all = c.shares;
    let done = all.take(i).map_values(|s: ShareView| plain(s));
    if i == all.len() {
        assert(done =~= all.map_values(|s: ShareView| plain(s)));
    } else {
        let named = profile_view(c, policies).shares[i];
        lemma_position(all, named.share_id);
        let at = position(all, named.share_id)->0;
        assert(at == i) by {
            if at < i {
                assert(all[at].share_id != all[i].share_id);
            } else if i < at {
                assert(all[i].share_id != named.share_id);
            }
        }
        let s = ShareView {
            binding_revision: all[i].binding_revision,
            enabled: named.enabled,
            ..new_share(named.share_id, named.name, named.mode)
        };
        assert(same_places(done, all.take(i)));
        lemma_put_next(all, home, done, s, i);
        lemma_profile_restores(c, home, policies, i + 1);
        assert(ShareView { root: all[i].root, ..s } == plain(all[i]));
        assert(all.take(i + 1).map_values(|s: ShareView| plain(s)) =~= done.push(plain(all[i])));
    }
}

proof fn lemma_policies_agree(c: ConfigView, policies: Seq<Chars>, i: int)
    requires
        0 <= i,
    ensures
        policy_fault(profile_view(c, policies).shares, in_place(c.shares, policies), i) is None,
    decreases c.shares.len() - i,
{
    if i < c.shares.len() {
        lemma_policies_agree(c, policies, i + 1);
    }
}

proof fn lemma_nothing_stale(was: Seq<ShareView>, now: Seq<ShareView>)
    requires
        forall|i: int| 0 <= i < was.len() ==> #[trigger] crate::backup::keeps_state(was[i], now),
    ensures
        stale(was, now) == Seq::<Chars>::empty(),
    decreases was.len(),
{
    if was.len() > 0 {
        let less = was.drop_last();
        assert forall|i: int| 0 <= i < less.len() implies #[trigger] crate::backup::keeps_state(
            less[i],
            now,
        ) by {
            assert(less[i] == was[i]);
        }
        lemma_nothing_stale(less, now);
        assert(was.last() == was[was.len() - 1]);
    }
}

/// Importing a profile where it was exported gives every Share back, keeps the
/// credentials, and leaves what was derived from the folders valid.
pub proof fn law_profile_round_trip(c: ConfigView, home: Chars, policies: Seq<Chars>)
    requires
        settled(c.shares, home),
    ensures
        profile_import_of(c, profile_view(c, policies), home, in_place(c.shares, policies)) == Ok::<
            (ConfigView, Seq<Chars>),
            BackupFault,
        >(
            (
                ConfigView { shares: c.shares.map_values(|s: ShareView| plain(s)), ..c },
                Seq::<Chars>::empty(),
            ),
        ),
{
    let all = c.shares;
    let now = all.map_values(|s: ShareView| plain(s));
    lemma_policies_agree(c, policies, 0);
    assert(all.take(0).map_values(|s: ShareView| plain(s)) =~= Seq::<ShareView>::empty());
    lemma_profile_restores(c, home, policies, 0);
    assert forall|i: int| 0 <= i < all.len() implies #[trigger] crate::backup::keeps_state(
        all[i],
        now,
    ) by {
        lemma_position(now, all[i].share_id);
        assert(now[i].share_id == all[i].share_id);
        let at = position(now, all[i].share_id)->0;
        assert(at == i) by {
            assert(now[at].share_id == all[at].share_id);
            if at < i {
                assert(all[at].share_id != all[i].share_id);
            }
        }
    }
    lemma_nothing_stale(all, now);
}

proof fn lemma_policies_by_share(shares: Seq<ShareView>, policies: Seq<Option<String>>)
    requires
        forall|i: int, j: int| #![trigger shares[i], shares[j]]
            0 <= i < j < shares.len() ==> shares[i].share_id != shares[j].share_id,
    ensures
        ({
            let m = policies_by_share(shares, policies);
            &&& m.dom().finite()
            &&& m.dom().len() == shares.len()
            &&& forall|i: int| 0 <= i < shares.len() ==> m.dom().contains(
                (#[trigger] shares[i]).share_id,
            ) && m[shares[i].share_id] == policies[i]->0@
            &&& forall|id: Chars| #[trigger]
                m.dom().contains(id) ==> exists|i: int|
                    0 <= i < shares.len() && (#[trigger] shares[i]).share_id == id
        }),
    decreases shares.len(),
{
    if shares.len() > 0 {
        let less = shares.drop_last();
        let n = shares.len() - 1;
        assert forall|i: int, j: int| #![trigger less[i], less[j]]
            0 <= i < j < less.len() implies less[i].share_id != less[j].share_id by {
            assert(less[i] == shares[i] && less[j] == shares[j]);
        }
        lemma_policies_by_share(less, policies);
        let before = policies_by_share(less, policies);
        let m = policies_by_share(shares, policies);
        assert(!before.dom().contains(shares[n].share_id)) by {
            if before.dom().contains(shares[n].share_id) {
                let i = choose|i: int|
                    0 <= i < less.len() && (#[trigger] less[i]).share_id == shares[n].share_id;
                assert(shares[i] == less[i]);
                assert(shares[i].share_id != shares[n].share_id);
            }
        }
        assert(m.dom() =~= before.dom().insert(shares[n].share_id));
        assert forall|i: int| 0 <= i < shares.len() implies m.dom().contains(
            (#[trigger] shares[i]).share_id,
        ) && m[shares[i].share_id] == policies[i]->0@ by {
            if i < n {
                assert(less[i] == shares[i]);
                assert(shares[i].share_id != shares[n].share_id);
            }
        }
        assert forall|id: Chars| #[trigger] m.dom().contains(id) implies exists|i: int|
            0 <= i < shares.len() && (#[trigger] shares[i]).share_id == id by {
            if id == shares[n].share_id {
            } else {
                let i = choose|i: int| 0 <= i < less.len() && (#[trigger] less[i]).share_id == id;
                assert(shares[i] == less[i]);
            }
        }
    }
}

proof fn lemma_backup_restores(
    shares: Seq<ShareView>,
    home: Chars,
    policies: Seq<Chars>,
    by_share: Map<Chars, Chars>,
    i: int,
)
    requires
        settled(shares, home),
        0 <= i <= shares.len(),
        forall|k: int| 0 <= k < shares.len() ==> by_share.dom().contains(
            (#[trigger] shares[k]).share_id,
        ) && by_share[shares[k].share_id] == policies[k],
    ensures
        restored(shares.take(i), shares, in_place(shares, policies), by_share, home, i) == Ok::<
            Seq<ShareView>,
            BackupFault,
        >(shares),
    decreases shares.len() - i,
{
    if i == shares.len() {
        assert(shares.take(i) =~= shares);
    } else {
        assert(same_places(shares.take(i), shares.take(i)));
        lemma_put_next(shares, home, shares.take(i), shares[i], i);
        assert(shares.take(i + 1) =~= shares.take(i).push(shares[i]));
        lemma_backup_restores(shares, home, policies, by_share, i + 1);
    }
}

proof fn lemma_hex_length(b: Seq<u8>)
    ensures
        vstd::utf8::encode_utf8(hex_text(b)).len() == 2 * b.len(),
{
    let t = hex_text(b);
    lemma_hex_round_trip(b);
    assert(vstd::utf8::is_ascii_chars(t)) by {
        assert forall|i: int| 0 <= i < t.len() implies 0 <= (#[trigger] t[i]) as nat && (
        t[i]) as nat <= 127 by {
            assert(0 <= i / 2 < b.len());
            assert(0 <= b[i / 2] as int / 16 < 16);
            assert(0 <= b[i / 2] as int % 16 < 16);
        }
    }
    vstd::utf8::is_ascii_chars_encode_utf8(t);
}

/// Files as the texts of their bytes.
pub open spec fn as_texts(files: Map<Chars, Seq<u8>>) -> Map<Chars, Chars> {
    files.map_values(|b: Seq<u8>| hex_text(b))
}

/// Files in an order.
pub open spec fn in_order(order: Seq<Chars>, files: Map<Chars, Seq<u8>>) -> Seq<(Chars, Seq<u8>)> {
    order.map_values(|p: Chars| (p, files[p]))
}

proof fn lemma_state_comes_back(order: Seq<Chars>, files: Map<Chars, Seq<u8>>)
    requires
        state_size(order, as_texts(files)) <= MAX_STATE,
        forall|i: int| 0 <= i < order.len() ==> files.dom().contains(#[trigger] order[i])
            && safe_path(order[i]) && files[order[i]].len() <= MAX_STATE_FILE,
    ensures
        state_files(order, as_texts(files)) == Ok::<(Seq<(Chars, Seq<u8>)>, int), BackupFault>(
            (in_order(order, files), state_size(order, as_texts(files))),
        ),
    decreases order.len(),
{
    if order.len() == 0 {
        assert(in_order(order, files) =~= Seq::<(Chars, Seq<u8>)>::empty());
    } else {
        let less = order.drop_last();
        let path = order.last();
        assert(path == order[order.len() - 1]);
        assert forall|i: int| 0 <= i < less.len() implies files.dom().contains(#[trigger] less[i])
            && safe_path(less[i]) && files[less[i]].len() <= MAX_STATE_FILE by {
            assert(less[i] == order[i]);
        }
        lemma_state_size_grows(order, as_texts(files), order.len() - 1);
        assert(order.take(order.len() - 1) =~= less);
        lemma_state_comes_back(less, files);
        lemma_hex_round_trip(files[path]);
        lemma_hex_length(files[path]);
        assert(as_texts(files)[path] == hex_text(files[path]));
        assert(in_order(order, files) =~= in_order(less, files).push((path, files[path])));
    }
}

/// A configuration that can be kept in a backup and brought back: the present
/// format, with an invitation that a phone takes and Shares that can be put
/// where they are.
pub open spec fn keepable(c: ConfigView, home: Chars) -> bool {
    &&& c.version == CURRENT_DEVICE_VERSION
    &&& !legacy_left(c.shares)
    &&& invitation_fault(invitation_of(c)) is None
    &&& settled(c.shares, home)
}

/// A configuration that a pairing begins with can be kept.
pub proof fn law_pairing_is_keepable(address: Chars, listen: Chars, id: IdentityView, home: Chars)
    requires
        invitation_fault(invitation_of(blank_config(address, listen, id))) is None,
    ensures
        keepable(blank_config(address, listen, id), home),
{
}

/// A configuration that can be kept still can be once a Share is stored in it.
pub proof fn law_put_stays_keepable(c: ConfigView, home: Chars, share: ShareView, root: RootView)
    requires
        keepable(c, home),
        share.legacy_ignore.len() == 0,
        put_fault(c.shares, home, share, root) is None,
    ensures
        keepable(ConfigView { shares: put(c.shares, share, root), ..c }, home),
{
    let after = put(c.shares, share, root);
    law_put_keeps_config_sound(c.shares, home, share, root);
    lemma_position(c.shares, share.share_id);
    let stored = ShareView { root: root->Folder_0, ..share };
    assert forall|i: int| #![trigger after[i]] 0 <= i < after.len() implies !parts_of(
        after[i].root,
    ).contains(".rowd"@) && (after[i].request_id is Some ==> valid_hash(after[i].request_id->0))
        && after[i].legacy_ignore.len() == 0 by {
        if after[i] != stored {
            assert(after[i] == c.shares[i]);
        }
    }
    assert(invitation_of(ConfigView { shares: after, ..c }) == invitation_of(c));
}

proof fn lemma_dropped_among(shares: Seq<ShareView>, id: Chars, home: Chars)
    requires
        settled(shares, home),
        !legacy_left(shares),
    ensures
        settled(dropped(shares, id), home),
        !legacy_left(dropped(shares, id)),
        dropped(shares, id).len() <= shares.len(),
        forall|i: int| #![trigger dropped(shares, id)[i]]
            0 <= i < dropped(shares, id).len() ==> shares.contains(dropped(shares, id)[i]),
    decreases shares.len(),
{
    if shares.len() > 0 {
        let less = shares.drop_last();
        let n = shares.len() - 1;
        assert forall|i: int| #![trigger less[i]] 0 <= i < less.len() implies less[i] == shares[i] by {}
        assert(settled(less, home));
        lemma_dropped_among(less, id, home);
        let rest = dropped(less, id);
        let after = dropped(shares, id);
        assert forall|i: int| #![trigger rest[i]] 0 <= i < rest.len() implies exists|k: int|
            0 <= k < n && shares[k] == rest[i] by {
            assert(less.contains(rest[i]));
            let k = choose|k: int| 0 <= k < less.len() && less[k] == rest[i];
            assert(shares[k] == rest[i]);
        }
        assert forall|i: int| #![trigger after[i]] 0 <= i < after.len() implies shares.contains(
            after[i],
        ) && after[i].legacy_ignore.len() == 0 by {
            if i < rest.len() {
                assert(after[i] == rest[i]);
                let k = choose|k: int| 0 <= k < n && shares[k] == rest[i];
                assert(shares[k] == after[i]);
            } else {
                assert(shares[n] == after[i]);
            }
        }
        assert forall|i: int, j: int| #![trigger after[i], after[j]]
            0 <= i < j < after.len() implies after[i].share_id != after[j].share_id && !overlap(
            after[i].root,
            after[j].root,
        ) by {
            assert(after[i] == rest[i]);
            if j < rest.len() {
                assert(after[j] == rest[j]);
            } else {
                let k = choose|k: int| 0 <= k < n && shares[k] == rest[i];
                assert(shares[k].share_id != shares[n].share_id);
            }
        }
    }
}

/// A configuration that can be kept still can be once a Share is taken out.
pub proof fn law_removal_stays_keepable(c: ConfigView, home: Chars, id: Chars)
    requires
        keepable(c, home),
    ensures
        keepable(ConfigView { shares: dropped(c.shares, id), ..c }, home),
{
    lemma_dropped_among(c.shares, id, home);
    assert(invitation_of(ConfigView { shares: dropped(c.shares, id), ..c }) == invitation_of(c));
}

/// Importing a backup where it was exported gives the configuration back as it
/// was, and every file of the application's state byte for byte. The rest of
/// what an export has checked is asked for here: few enough files, each with a
/// safe path and not too large.
pub proof fn law_backup_round_trip(
    c: ConfigView,
    home: Chars,
    policies: Seq<Option<String>>,
    files: Map<Chars, Seq<u8>>,
    order: Seq<Chars>,
)
    requires
        keepable(c, home),
        policies.len() == c.shares.len(),
        lists(order, files.dom()),
        order.len() <= MAX_STATE_FILES,
        state_size(order, as_texts(files)) <= MAX_STATE,
        forall|p: Chars| #[trigger]
            files.dom().contains(p) ==> safe_path(p) && files[p].len() <= MAX_STATE_FILE,
    ensures
        import_of(
            BackupView {
                version: 2,
                config: c,
                state: as_texts(files),
                policies: policies_by_share(c.shares, policies),
            },
            home,
            in_place(c.shares, crate::backup::policy_texts(policies)),
            order,
            true,
        ) == Ok::<(ConfigView, Seq<(Chars, Seq<u8>)>), BackupFault>((c, in_order(order, files))),
{
    let texts = crate::backup::policy_texts(policies);
    let by_share = policies_by_share(c.shares, policies);
    lemma_policies_by_share(c.shares, policies);
    assert(c.shares.take(0) =~= Seq::<ShareView>::empty());
    lemma_backup_restores(c.shares, home, texts, by_share, 0);
    assert forall|i: int| 0 <= i < order.len() implies files.dom().contains(#[trigger] order[i])
        && safe_path(order[i]) && files[order[i]].len() <= MAX_STATE_FILE by {
        assert(order.contains(order[i]));
    }
    lemma_state_comes_back(order, files);
}

/// What an export wrote, an import stores again, but for the name that it draws
/// for itself: where the export succeeded, the folders and their policies are
/// as they were and the certificate and key are taken for an identity, the
/// import fails only for want of random bytes.
pub proof fn law_import_undoes_export(
    c: ConfigView,
    home: Chars,
    policies: Seq<Option<String>>,
    files: Map<Chars, Seq<u8>>,
    order: Seq<Chars>,
    exported: FullBackup,
    r: Result<ImportPlan, BackupError>,
)
    requires
        keepable(c, home),
        policies.len() == c.shares.len(),
        lists(order, files.dom()),
        forall|p: Chars| #[trigger]
            files.dom().contains(p) ==> safe_path(p) && files[p].len() <= MAX_STATE_FILE,
        wrote(Ok(exported), c, as_texts(files), policies),
        imported(
            r,
            exported@,
            home,
            in_place(c.shares, crate::backup::policy_texts(policies)),
            true,
        ),
    ensures
        match r {
            Ok(plan) => plan.config@ == (ConfigView {
                import_generation: plan.config@.import_generation,
                ..c
            }) && files_seen(plan.files@) == in_order(order, files),
            Err(e) => e@ == BackupFault::NoRandom,
        },
{
    assert(as_texts(files).dom() =~= files.dom());
    assert(lists(order, as_texts(files).dom()));
    law_backup_round_trip(c, home, policies, files, order);
    assert(lists(order, exported@.state.dom()));
}

/// A sealed backup opens by its key: for every passphrase with the key that it
/// was sealed with it gives the text back. Another passphrase is refused as too
/// short, or exactly where the cipher does not open the text with its key, and
/// for no other reason.
pub proof fn law_sealed_backup_opens_by_its_key(
    plain: Seq<u8>,
    passphrase: Chars,
    other: Chars,
    sealed: EncryptedView,
)
    requires
        sealed_backup(
            plain,
            passphrase,
            hex_bytes(sealed.salt),
            hex_bytes(sealed.nonce),
        ) == Some(sealed),
        opened_backup(sealed, passphrase) == Ok::<Seq<u8>, BackupFault>(plain),
    ensures
        ({
            let salt = hex_bytes(sealed.salt);
            let key = passphrase_key(other, salt);
            let opens = gcm_opened(
                key,
                hex_bytes(sealed.nonce),
                backup_label(),
                hex_bytes(sealed.ciphertext),
            );
            let r = opened_backup(sealed, other);
            &&& other.len() < MIN_PASSPHRASE ==> r == Err::<Seq<u8>, BackupFault>(
                BackupFault::ShortPassphrase,
            )
            &&& other.len() >= MIN_PASSPHRASE && key == passphrase_key(passphrase, salt) ==> r
                == Ok::<Seq<u8>, BackupFault>(plain)
            &&& other.len() >= MIN_PASSPHRASE && opens is None ==> r == Err::<
                Seq<u8>,
                BackupFault,
            >(BackupFault::CannotOpen)
            &&& other.len() >= MIN_PASSPHRASE && opens is Some ==> r == Ok::<
                Seq<u8>,
                BackupFault,
            >(opens->0)
        }),
{
}

} // verus!
