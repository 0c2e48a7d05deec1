//! The PC's side of a session: what it tells the phone of its Shares, what it
//! makes of the phone's requests, and which Shares it serves in which order.

use crate::collections::{lemma_take_contains, lists, Duplicate, StringMap, StringSet};
use crate::config::{
    copy_text, lemma_seen_push, owned_text, seen, DefinitionView, RequestView, ShareConfig,
    ShareDefinition, ShareRequest, ShareView, SyncMode,
};
use crate::device::{is_sound_name, position, sound_name, ConfigView, DeviceConfig};
use crate::model::{is_hash, valid_hash};
use crate::protocol::Message;
use crate::sync::{Report, ShareMetrics};
use crate::text::{copy_strings, lemma_views_push, names, same, views, Chars};
use vstd::prelude::*;

verus! {

/// How many requests for Shares are kept.
pub const MAX_REQUESTS: usize = 512;

/// Why a session is refused.
#[derive(Clone, Copy, Debug, PartialEq, Eq, Structural)]
pub enum SessionError {
    AnotherDevice,
    ExpectedStart,
    ExpectedCapabilities,
    DeviceMismatch,
    UnlinkUnacknowledged,
    InvalidIdentity,
    Unavailable,
    UnknownShare,
    DuplicateRequest,
    DuplicateCancellation,
    PendingAndCancelled,
    InvalidRequestName,
    /// A known request came with another name or mode.
    ReusedRequest,
    /// An accepted request came with another name or mode.
    ReusedAcceptedRequest,
    TooManyRequests,
    ShareNotReady,
    /// A change that was passed on was not stored in time.
    HintNotStored,
}

/// The phone that may connect: the paired one, or any while none is.
pub fn welcome(config: &mut DeviceConfig, device: &str) -> (r: Result<bool, SessionError>)
    ensures
        match old(config)@.peer_device {
            Some(peer) => *final(config) == *old(config) && r == if peer == device@ {
                Ok::<bool, SessionError>(false)
            } else {
                Err::<bool, SessionError>(SessionError::AnotherDevice)
            },
            None => r == Ok::<bool, SessionError>(true) && final(config)@ == (ConfigView {
                peer_device: Some(device@),
                ..old(config)@
            }),
        },
{
    if let Some(peer) = &config.peer_device {
        if !same(peer.as_str(), device) {
            return Err(SessionError::AnotherDevice);
        }
        return Ok(false);
    }
    config.peer_device = Some(device.to_string());
    Ok(true)
}

/// A round begins with the phone's word for it.
pub fn started(message: &Message) -> (r: Result<(), SessionError>)
    ensures
        r is Ok <==> message is StartRound,
        r is Err ==> r->Err_0 == SessionError::ExpectedStart,
{
    match message {
        Message::StartRound => Ok(()),
        _ => Err(SessionError::ExpectedStart),
    }
}

/// What the phone is told of a Share. A Share whose policy cannot be read is
/// not offered.
pub open spec fn advertised(s: ShareView, rules: Option<Chars>) -> DefinitionView {
    DefinitionView {
        share_id: s.share_id,
        name: s.name,
        mode: s.mode,
        enabled: s.enabled && rules is Some,
        binding_revision: s.binding_revision,
        ignore_rules: if s.enabled && rules is Some {
            rules->0
        } else {
            Seq::empty()
        },
        request_id: s.request_id,
        remap_policy: s.remap_policy,
    }
}

/// What the phone is told of all Shares; `rules` holds each Share's policy, if
/// it can be read.
pub fn advertise(config: &DeviceConfig, rules: &Vec<Option<String>>) -> (r: Vec<ShareDefinition>)
    requires
        rules@.len() == config.shares@.len(),
    ensures
        r@.len() == config.shares@.len(),
        forall|i: int| 0 <= i < r@.len() ==> (#[trigger] r@[i])@ == advertised(
            config.shares@[i]@,
            owned_text(rules@[i]),
        ),
{
    let mut r: Vec<ShareDefinition> = Vec::new();
    let mut i: usize = 0;
    while i < config.shares.len()
        invariant
            i <= config.shares@.len() == rules@.len(),
            r@.len() == i,
            forall|k: int| 0 <= k < i ==> (#[trigger] r@[k])@ == advertised(
                config.shares@[k]@,
                owned_text(rules@[k]),
            ),
        decreases config.shares@.len() - i,
    {
        let share = &config.shares[i];
        let mut enabled = false;
        let mut ignore_rules = String::new();
        assert(ignore_rules@ =~= Seq::<char>::empty());
        if share.enabled {
            if let Some(text) = &rules[i] {
                enabled = true;
                ignore_rules = text.clone();
            }
        }
        r.push(
            ShareDefinition {
                share_id: share.share_id.clone(),
                name: share.name.clone(),
                mode: share.mode,
                enabled,
                binding_revision: share.binding_revision,
                ignore_rules,
                request_id: copy_text(&share.request_id),
                remap_policy: share.remap_policy,
            },
        );
        i = i + 1;
    }
    r
}

/// What the phone offers and asks for.
pub struct Offer {
    pub share_requests: Vec<ShareRequest>,
    pub cancel_intents: Vec<String>,
    pub available: StringSet,
    pub requested: Vec<String>,
    pub audit: bool,
}

/// What the phone's answer leads to.
pub enum Capable {
    /// The pairing ends.
    Unlink,
    Proceed(Offer),
}

/// The identities of requests.
pub open spec fn request_ids(requests: Seq<RequestView>) -> Seq<Chars> {
    requests.map_values(|r: RequestView| r.request_id)
}

/// What is wrong with the Shares that are asked for, from the `i`th on.
pub open spec fn requested_fault(requested: Seq<Chars>, available: Set<Chars>, i: int) -> Option<
    SessionError,
>
    decreases requested.len() - i,
{
    if i < 0 || i >= requested.len() {
        None
    } else if !valid_hash(requested[i]) {
        Some(SessionError::InvalidIdentity)
    } else if !available.contains(requested[i]) {
        Some(SessionError::Unavailable)
    } else {
        requested_fault(requested, available, i + 1)
    }
}

/// What is wrong with the Shares that the phone has, from the `i`th on in
/// their order.
pub open spec fn offered_fault(order: Seq<Chars>, shares: Seq<ShareView>, i: int) -> Option<
    SessionError,
>
    decreases order.len() - i,
{
    if i < 0 || i >= order.len() {
        None
    } else if !valid_hash(order[i]) {
        Some(SessionError::InvalidIdentity)
    } else if position(shares, order[i]) is None {
        Some(SessionError::UnknownShare)
    } else {
        offered_fault(order, shares, i + 1)
    }
}

/// No two lists have a member in common.
pub open spec fn apart(a: Seq<Chars>, b: Seq<Chars>) -> bool {
    forall|i: int| 0 <= i < a.len() ==> !b.contains(#[trigger] a[i])
}

/// What is wrong with the phone's requests and cancellations as lists.
pub open spec fn lists_fault(requests: Seq<RequestView>, cancels: Seq<Chars>) -> Option<
    SessionError,
> {
    if !request_ids(requests).no_duplicates() {
        Some(SessionError::DuplicateRequest)
    } else if !cancels.no_duplicates() {
        Some(SessionError::DuplicateCancellation)
    } else if !apart(cancels, request_ids(requests)) {
        Some(SessionError::PendingAndCancelled)
    } else {
        None
    }
}

fn set_of(ids: &Vec<String>) -> (r: StringSet)
    ensures
        r@ == views(ids@).to_set(),
{
    let mut r = StringSet::new();
    let mut i: usize = 0;
    let ghost all = views(ids@);
    assert(r@ =~= all.take(0).to_set());
    while i < ids.len()
        invariant
            i <= ids@.len(),
            all == views(ids@),
            r@ == all.take(i as int).to_set(),
        decreases ids@.len() - i,
    {
        r.insert(ids[i].clone());
        proof {
            lemma_take_set(all, i as int);
        }
        i = i + 1;
    }
    assert(all.take(i as int) =~= all);
    r
}

proof fn lemma_take_set(all: Seq<Chars>, i: int)
    requires
        0 <= i < all.len(),
    ensures
        all.take(i + 1).to_set() == all.take(i).to_set().insert(all[i]),
{
    let less = all.take(i);
    let more = all.take(i + 1);
    assert forall|x: Chars| more.to_set().contains(x) == less.to_set().insert(all[i]).contains(x) by {
        if less.contains(x) {
            let k = choose|k: int| 0 <= k < less.len() && less[k] == x;
            assert(more[k] == x);
        }
        if more.contains(x) {
            let k = choose|k: int| 0 <= k < more.len() && more[k] == x;
            if k < i {
                assert(less[k] == x);
            }
        }
        assert(more[i] == all[i]);
    }
    assert(more.to_set() =~= less.to_set().insert(all[i]));
}

fn distinct(ids: &Vec<String>) -> (r: bool)
    ensures
        r == views(ids@).no_duplicates(),
{
    let mut known = StringSet::new();
    let ghost all = views(ids@);
    let mut i: usize = 0;
    assert(known@ =~= all.take(0).to_set());
    while i < ids.len()
        invariant
            i <= ids@.len(),
            all == views(ids@),
            known@ == all.take(i as int).to_set(),
            all.take(i as int).no_duplicates(),
        decreases ids@.len() - i,
    {
        let ghost less = all.take(i as int);
        let ghost more = all.take(i + 1);
        assert(known@.contains(all[i as int]) <==> less.contains(all[i as int]));
        if !known.insert(ids[i].clone()) {
            proof {
                let k = choose|k: int| 0 <= k < less.len() && less[k] == all[i as int];
                assert(all[k] == all[i as int] && k != i);
            }
            return false;
        }
        proof {
            lemma_take_set(all, i as int);
            assert forall|a: int, b: int| 0 <= a < b < more.len() implies more[a] != more[b] by {
                if b == i {
                    assert(less[a] == more[a]);
                } else {
                    assert(less[a] == more[a] && less[b] == more[b]);
                }
            }
        }
        i = i + 1;
    }
    assert(all.take(i as int) =~= all);
    true
}

fn ids_of(requests: &Vec<ShareRequest>) -> (r: Vec<String>)
    ensures
        views(r@) == request_ids(seen(requests@)),
{
    let ghost all = request_ids(seen(requests@));
    let mut r: Vec<String> = Vec::new();
    let mut i: usize = 0;
    assert(views(r@) =~= all.take(0));
    while i < requests.len()
        invariant
            i <= requests@.len(),
            all == request_ids(seen(requests@)),
            views(r@) == all.take(i as int),
        decreases requests@.len() - i,
    {
        proof {
            lemma_views_push(r@, requests@[i as int].request_id);
            assert(all.take(i + 1) =~= all.take(i as int).push(all[i as int]));
        }
        r.push(requests[i].request_id.clone());
        i = i + 1;
    }
    assert(all.take(i as int) =~= all);
    r
}

fn are_apart(a: &Vec<String>, b: &Vec<String>) -> (r: bool)
    ensures
        r == apart(views(a@), views(b@)),
{
    let mut i: usize = 0;
    while i < a.len()
        invariant
            i <= a@.len(),
            forall|k: int| 0 <= k < i ==> !views(b@).contains(#[trigger] views(a@)[k]),
        decreases a@.len() - i,
    {
        assert(views(a@)[i as int] == a@[i as int]@);
        if names(b, a[i].as_str()) {
            return false;
        }
        i = i + 1;
    }
    true
}

/// The phone's answer: what it offers is checked against the configuration.
pub open spec fn answered(
    m: Message,
    device: Chars,
    c: ConfigView,
    r: Result<Capable, SessionError>,
) -> bool {
    match m {
        Message::Capabilities {
            device_id,
            share_requests,
            cancel_intents,
            available_shares,
            requested_share_ids,
            audit,
            unlink_requested,
        } => if device_id@ != device {
            r == Err::<Capable, SessionError>(SessionError::DeviceMismatch)
        } else if c.pending_unlink || unlink_requested {
            r is Ok && r->Ok_0 is Unlink
        } else {
            let available = views(available_shares@).to_set();
            let requested = views(requested_share_ids@);
            let requests = seen(share_requests@);
            let cancels = views(cancel_intents@);
            match requested_fault(requested, available, 0) {
                Some(e) => r == Err::<Capable, SessionError>(e),
                None => exists|order: Seq<Chars>|
                    lists(order, available) && match #[trigger] offered_fault(order, c.shares, 0) {
                        Some(e) => r == Err::<Capable, SessionError>(e),
                        None => match lists_fault(requests, cancels) {
                            Some(e) => r == Err::<Capable, SessionError>(e),
                            None => r matches Ok(Capable::Proceed(o)) && seen(o.share_requests@)
                                == requests && views(o.cancel_intents@) == cancels
                                && o.available@ == available && views(o.requested@) == requested
                                && o.audit == audit,
                        },
                    },
            }
        },
        _ => r == Err::<Capable, SessionError>(SessionError::ExpectedCapabilities),
    }
}

/// Takes the phone's answer.
pub fn capabilities(message: Message, device: &str, config: &DeviceConfig) -> (r: Result<
    Capable,
    SessionError,
>)
    ensures
        answered(message, device@, config@, r),
{
    match message {
        Message::Capabilities {
            device_id,
            share_requests,
            cancel_intents,
            available_shares,
            requested_share_ids,
            audit,
            unlink_requested,
        } => {
            if !same(device_id.as_str(), device) {
                return Err(SessionError::DeviceMismatch);
            }
            if config.pending_unlink || unlink_requested {
                return Ok(Capable::Unlink);
            }
            let available = set_of(&available_shares);
            if let Some(e) = check_requested(&requested_share_ids, &available) {
                return Err(e);
            }
            let offered = check_offered(&available, config);
            let ghost order = available.order();
            let size: usize = available.len();
            assert(lists(order, views(available_shares@).to_set()));
            assert(offered == offered_fault(order, config@.shares, 0));
            if let Some(e) = offered {
                return Err(e);
            }
            let ids = ids_of(&share_requests);
            if !distinct(&ids) {
                return Err(SessionError::DuplicateRequest);
            }
            if !distinct(&cancel_intents) {
                return Err(SessionError::DuplicateCancellation);
            }
            if !are_apart(&cancel_intents, &ids) {
                return Err(SessionError::PendingAndCancelled);
            }
            Ok(
                Capable::Proceed(
                    Offer {
                        share_requests,
                        cancel_intents,
                        available,
                        requested: requested_share_ids,
                        audit,
                    },
                ),
            )
        },
        _ => Err(SessionError::ExpectedCapabilities),
    }
}

fn check_requested(requested: &Vec<String>, available: &StringSet) -> (r: Option<SessionError>)
    ensures
        r == requested_fault(views(requested@), available@, 0),
{
    let mut i: usize = 0;
    while i < requested.len()
        invariant
            i <= requested@.len(),
            requested_fault(views(requested@), available@, 0) == requested_fault(
                views(requested@),
                available@,
                i as int,
            ),
        decreases requested@.len() - i,
    {
        assert(views(requested@)[i as int] == requested@[i as int]@);
        if !is_hash(requested[i].as_str()) {
            return Some(SessionError::InvalidIdentity);
        }
        if !available.contains(requested[i].as_str()) {
            return Some(SessionError::Unavailable);
        }
        i = i + 1;
    }
    None
}

fn check_offered(available: &StringSet, config: &DeviceConfig) -> (r: Option<SessionError>)
    ensures
        r == offered_fault(available.order(), config@.shares, 0),
{
    let n: usize = available.len();
    let mut i: usize = 0;
    while i < n
        invariant
            i <= n == available.order().len(),
            offered_fault(available.order(), config@.shares, 0) == offered_fault(
                available.order(),
                config@.shares,
                i as int,
            ),
        decreases n - i,
    {
        let id = available.at(i);
        if !is_hash(id.as_str()) {
            return Some(SessionError::InvalidIdentity);
        }
        if config.find(id.as_str()).is_none() {
            return Some(SessionError::UnknownShare);
        }
        i = i + 1;
    }
    None
}

/// The first request with an identity.
pub open spec fn find_request(list: Seq<RequestView>, id: Chars) -> Option<RequestView>
    decreases list.len(),
{
    if list.len() == 0 {
        None
    } else {
        match find_request(list.drop_last(), id) {
            Some(r) => Some(r),
            None => if list.last().request_id == id {
                Some(list.last())
            } else {
                None
            },
        }
    }
}

/// The first Share that came of a request.
pub open spec fn find_accepted(shares: Seq<ShareView>, id: Chars) -> Option<ShareView>
    decreases shares.len(),
{
    if shares.len() == 0 {
        None
    } else {
        match find_accepted(shares.drop_last(), id) {
            Some(s) => Some(s),
            None => if shares.last().request_id == Some(id) {
                Some(shares.last())
            } else {
                None
            },
        }
    }
}

/// The requests whose identity is not among `ids`.
pub open spec fn without_ids(list: Seq<RequestView>, ids: Set<Chars>) -> Seq<RequestView>
    decreases list.len(),
{
    if list.len() == 0 {
        Seq::empty()
    } else {
        let rest = without_ids(list.drop_last(), ids);
        if ids.contains(list.last().request_id) {
            rest
        } else {
            rest.push(list.last())
        }
    }
}

/// The requests as they stand while the phone's are gone through.
#[verifier::ext_equal]
pub struct Settling {
    pub open: Seq<RequestView>,
    pub refused: Seq<RequestView>,
    pub accepted: Seq<Chars>,
    pub rejected: Seq<Chars>,
}

/// What a request of the phone changes: a known one must be what it was, one
/// that became a Share is accepted, a rejected one stays rejected, and a new
/// one is kept.
pub open spec fn request_step(s: Settling, shares: Seq<ShareView>, r: RequestView) -> Result<
    Settling,
    SessionError,
> {
    let stored = find_request(s.open + s.refused, r.request_id);
    let share = find_accepted(shares, r.request_id);
    if !valid_hash(r.request_id) {
        Err(SessionError::InvalidIdentity)
    } else if !sound_name(r.name) {
        Err(SessionError::InvalidRequestName)
    } else if stored is Some && (stored->0.name != r.name || stored->0.mode != r.mode) {
        Err(SessionError::ReusedRequest)
    } else if share is Some {
        if share->0.name != r.name || share->0.mode != r.mode {
            Err(SessionError::ReusedAcceptedRequest)
        } else {
            Ok(Settling { accepted: s.accepted.push(r.request_id), ..s })
        }
    } else if find_request(s.refused, r.request_id) is Some {
        Ok(Settling { rejected: s.rejected.push(r.request_id), ..s })
    } else if find_request(s.open, r.request_id) is Some {
        Ok(s)
    } else {
        Ok(Settling { open: s.open.push(r), ..s })
    }
}

/// What all requests of the phone change.
pub open spec fn requests_settled(
    s: Settling,
    shares: Seq<ShareView>,
    requests: Seq<RequestView>,
) -> Result<Settling, SessionError>
    decreases requests.len(),
{
    if requests.len() == 0 {
        Ok(s)
    } else {
        match requests_settled(s, shares, requests.drop_last()) {
            Err(e) => Err(e),
            Ok(t) => request_step(t, shares, requests.last()),
        }
    }
}

/// The requests before the phone's are gone through: the cancelled ones are
/// forgotten.
pub open spec fn uncancelled(c: ConfigView, cancels: Seq<Chars>) -> Settling {
    Settling {
        open: without_ids(c.share_requests, cancels.to_set()),
        refused: without_ids(c.rejected_requests, cancels.to_set()),
        accepted: Seq::empty(),
        rejected: Seq::empty(),
    }
}

/// The configuration after the phone's requests. A rejection is kept for as
/// long as the phone repeats the request.
pub open spec fn settled_requests(
    c: ConfigView,
    requests: Seq<RequestView>,
    cancels: Seq<Chars>,
) -> Result<(ConfigView, Settling), SessionError> {
    if exists|i: int| 0 <= i < cancels.len() && !valid_hash(#[trigger] cancels[i]) {
        Err(SessionError::InvalidIdentity)
    } else {
        match requests_settled(uncancelled(c, cancels), c.shares, requests) {
            Err(e) => Err(e),
            Ok(s) => {
                let gone = request_ids(requests).to_set().complement();
                let refused = without_ids(s.refused, gone);
                if s.open.len() + refused.len() > MAX_REQUESTS {
                    Err(SessionError::TooManyRequests)
                } else {
                    Ok(
                        (
                            ConfigView { share_requests: s.open, rejected_requests: refused, ..c },
                            s,
                        ),
                    )
                }
            },
        }
    }
}

/// What the phone is told of its requests.
pub struct Settled {
    pub accepted: Vec<String>,
    pub rejected: Vec<String>,
    pub cancelled: Vec<String>,
}

fn without_listed(list: &Vec<ShareRequest>, ids: &Vec<String>, keep: bool) -> (r: Vec<ShareRequest>)
    ensures
        !keep ==> seen(r@) == without_ids(seen(list@), views(ids@).to_set()),
        keep ==> seen(r@) == without_ids(seen(list@), views(ids@).to_set().complement()),
{
    let ghost all = seen(list@);
    let ghost gone = if keep {
        views(ids@).to_set().complement()
    } else {
        views(ids@).to_set()
    };
    let mut r: Vec<ShareRequest> = Vec::new();
    let mut i: usize = 0;
    assert(seen(r@) =~= Seq::<RequestView>::empty());
    assert(all.take(0) =~= Seq::<RequestView>::empty());
    while i < list.len()
        invariant
            i <= list@.len(),
            all == seen(list@),
            gone == if keep {
                views(ids@).to_set().complement()
            } else {
                views(ids@).to_set()
            },
            seen(r@) == without_ids(all.take(i as int), gone),
        decreases list@.len() - i,
    {
        proof {
            assert(all.take(i + 1).drop_last() =~= all.take(i as int));
            assert(all.take(i + 1).last() == list@[i as int]@);
        }
        if names(ids, list[i].request_id.as_str()) == keep {
            let request = list[i].duplicate();
            proof {
                lemma_seen_push(r@, request);
            }
            r.push(request);
        }
        i = i + 1;
    }
    assert(all.take(i as int) =~= all);
    r
}

proof fn lemma_find_request(list: Seq<RequestView>, id: Chars, i: int)
    requires
        0 <= i < list.len(),
        list[i].request_id == id,
        forall|k: int| 0 <= k < i ==> (#[trigger] list[k]).request_id != id,
    ensures
        find_request(list, id) == Some(list[i]),
    decreases list.len(),
{
    let less = list.drop_last();
    if i < less.len() {
        assert(less[i] == list[i]);
        assert forall|k: int| 0 <= k < i implies (#[trigger] less[k]).request_id != id by {
            assert(less[k] == list[k]);
        }
        lemma_find_request(less, id, i);
    } else {
        assert forall|k: int| 0 <= k < less.len() implies (#[trigger] less[k]).request_id != id by {
            assert(less[k] == list[k]);
        }
        lemma_find_nothing(less, id);
    }
}

proof fn lemma_find_nothing(list: Seq<RequestView>, id: Chars)
    requires
        forall|k: int| 0 <= k < list.len() ==> (#[trigger] list[k]).request_id != id,
    ensures
        find_request(list, id) is None,
    decreases list.len(),
{
    if list.len() > 0 {
        let less = list.drop_last();
        assert forall|k: int| 0 <= k < less.len() implies (#[trigger] less[k]).request_id != id by {
            assert(less[k] == list[k]);
        }
        lemma_find_nothing(less, id);
        assert(list[list.len() - 1].request_id != id);
    }
}

proof fn lemma_find_accepted(shares: Seq<ShareView>, id: Chars, i: int)
    requires
        0 <= i <= shares.len(),
        i < shares.len() ==> shares[i].request_id == Some(id),
        forall|k: int| 0 <= k < i ==> (#[trigger] shares[k]).request_id != Some(id),
    ensures
        find_accepted(shares, id) == if i < shares.len() {
            Some(shares[i])
        } else {
            None
        },
    decreases shares.len(),
{
    if shares.len() > 0 {
        let less = shares.drop_last();
        assert forall|k: int| 0 <= k < i && k < less.len() implies (
        #[trigger] less[k]).request_id != Some(id) by {
            assert(less[k] == shares[k]);
        }
        if i < shares.len() {
            if i < less.len() {
                assert(less[i] == shares[i]);
            }
            lemma_find_accepted(less, id, i);
        } else {
            lemma_find_accepted(less, id, less.len() as int);
            assert(shares[shares.len() - 1].request_id != Some(id));
        }
    }
}

proof fn lemma_find_concat(a: Seq<RequestView>, b: Seq<RequestView>, id: Chars)
    ensures
        find_request(a + b, id) == match find_request(a, id) {
            Some(r) => Some(r),
            None => find_request(b, id),
        },
    decreases b.len(),
{
    if b.len() == 0 {
        assert(a + b =~= a);
    } else {
        lemma_find_concat(a, b.drop_last(), id);
        assert((a + b).drop_last() =~= a + b.drop_last());
    }
}

fn lookup(list: &Vec<ShareRequest>, id: &str) -> (r: Option<usize>)
    ensures
        match r {
            Some(i) => i < list@.len() && find_request(seen(list@), id@) == Some(list@[i as int]@),
            None => find_request(seen(list@), id@) is None,
        },
{
    let mut i: usize = 0;
    while i < list.len()
        invariant
            i <= list@.len(),
            forall|k: int| 0 <= k < i ==> (#[trigger] seen(list@)[k]).request_id != id@,
        decreases list@.len() - i,
    {
        assert(seen(list@)[i as int] == list@[i as int]@);
        if same(list[i].request_id.as_str(), id) {
            proof {
                lemma_find_request(seen(list@), id@, i as int);
            }
            return Some(i);
        }
        i = i + 1;
    }
    proof {
        lemma_find_nothing(seen(list@), id@);
    }
    None
}

fn lookup_accepted(shares: &Vec<ShareConfig>, id: &str) -> (r: Option<usize>)
    ensures
        match r {
            Some(i) => i < shares@.len() && find_accepted(seen(shares@), id@) == Some(
                shares@[i as int]@,
            ),
            None => find_accepted(seen(shares@), id@) is None,
        },
{
    let mut i: usize = 0;
    while i < shares.len()
        invariant
            i <= shares@.len(),
            forall|k: int| 0 <= k < i ==> (#[trigger] seen(shares@)[k]).request_id != Some(id@),
        decreases shares@.len() - i,
    {
        assert(seen(shares@)[i as int] == shares@[i as int]@);
        if let Some(request) = &shares[i].request_id {
            if same(request.as_str(), id) {
                proof {
                    lemma_find_accepted(seen(shares@), id@, i as int);
                }
                return Some(i);
            }
        }
        i = i + 1;
    }
    proof {
        lemma_find_accepted(seen(shares@), id@, shares@.len() as int);
    }
    None
}

fn same_payload(name: &str, mode: SyncMode, r: &ShareRequest) -> (b: bool)
    ensures
        b == (name@ == r@.name && mode == r@.mode),
{
    same(name, r.name.as_str()) && mode == r.mode
}

struct Desk {
    open: Vec<ShareRequest>,
    refused: Vec<ShareRequest>,
    accepted: Vec<String>,
    rejected: Vec<String>,
}

impl Desk {
    spec fn view(&self) -> Settling {
        Settling {
            open: seen(self.open@),
            refused: seen(self.refused@),
            accepted: views(self.accepted@),
            rejected: views(self.rejected@),
        }
    }

    fn take(&mut self, shares: &Vec<ShareConfig>, request: &ShareRequest) -> (r: Result<
        (),
        SessionError,
    >)
        ensures
            match request_step(old(self).view(), seen(shares@), request@) {
                Ok(s) => r is Ok && final(self).view() == s,
                Err(e) => r == Err::<(), SessionError>(e),
            },
    {
        let id = request.request_id.as_str();
        if !is_hash(id) {
            return Err(SessionError::InvalidIdentity);
        }
        if !is_sound_name(request.name.as_str()) {
            return Err(SessionError::InvalidRequestName);
        }
        proof {
            lemma_find_concat(seen(self.open@), seen(self.refused@), id@);
        }
        let in_open = lookup(&self.open, id);
        let in_refused = lookup(&self.refused, id);
        match in_open {
            Some(i) => {
                if !same_payload(self.open[i].name.as_str(), self.open[i].mode, request) {
                    return Err(SessionError::ReusedRequest);
                }
            },
            None => {
                if let Some(i) = in_refused {
                    if !same_payload(self.refused[i].name.as_str(), self.refused[i].mode, request) {
                        return Err(SessionError::ReusedRequest);
                    }
                }
            },
        }
        if let Some(i) = lookup_accepted(shares, id) {
            if !same_payload(shares[i].name.as_str(), shares[i].mode, request) {
                return Err(SessionError::ReusedAcceptedRequest);
            }
            proof {
                lemma_views_push(self.accepted@, request.request_id);
            }
            self.accepted.push(request.request_id.clone());
            return Ok(());
        }
        if in_refused.is_some() {
            proof {
                lemma_views_push(self.rejected@, request.request_id);
            }
            self.rejected.push(request.request_id.clone());
        } else if in_open.is_none() {
            let copy = request.duplicate();
            proof {
                lemma_seen_push(self.open@, copy);
            }
            self.open.push(copy);
        }
        Ok(())
    }
}

/// Settles the phone's requests and cancellations.
pub fn settle_requests(
    config: &mut DeviceConfig,
    requests: &Vec<ShareRequest>,
    cancels: &Vec<String>,
) -> (r: Result<Settled, SessionError>)
    ensures
        match settled_requests(old(config)@, seen(requests@), views(cancels@)) {
            Err(e) => r == Err::<Settled, SessionError>(e) && *final(config) == *old(config),
            Ok((c, s)) => final(config)@ == c && (r matches Ok(told) && views(told.accepted@)
                == s.accepted && views(told.rejected@) == s.rejected && views(told.cancelled@)
                == views(cancels@)),
        },
{
    let mut i: usize = 0;
    while i < cancels.len()
        invariant
            i <= cancels@.len(),
            forall|k: int| 0 <= k < i ==> valid_hash(#[trigger] views(cancels@)[k]),
        decreases cancels@.len() - i,
    {
        assert(views(cancels@)[i as int] == cancels@[i as int]@);
        if !is_hash(cancels[i].as_str()) {
            return Err(SessionError::InvalidIdentity);
        }
        i = i + 1;
    }
    let mut desk = Desk {
        open: without_listed(&config.share_requests, cancels, false),
        refused: without_listed(&config.rejected_requests, cancels, false),
        accepted: Vec::new(),
        rejected: Vec::new(),
    };
    let ghost first = uncancelled(config@, views(cancels@));
    let ghost shares = config@.shares;
    let ghost all = seen(requests@);
    assert(views(desk.accepted@) =~= Seq::<Chars>::empty());
    assert(views(desk.rejected@) =~= Seq::<Chars>::empty());
    assert(desk.view() =~= first);
    assert(all.take(0) =~= Seq::<RequestView>::empty());
    let mut k: usize = 0;
    while k < requests.len()
        invariant
            k <= requests@.len(),
            all == seen(requests@),
            *config == *old(config),
            shares == config@.shares,
            first == uncancelled(config@, views(cancels@)),
            requests_settled(first, shares, all.take(k as int)) == Ok::<Settling, SessionError>(
                desk.view(),
            ),
            !exists|j: int| 0 <= j < views(cancels@).len() && !valid_hash(#[trigger] views(cancels@)[j]),
        decreases requests@.len() - k,
    {
        proof {
            assert(all.take(k + 1).drop_last() =~= all.take(k as int));
            assert(all.take(k + 1).last() == requests@[k as int]@);
        }
        if let Err(e) = desk.take(&config.shares, &requests[k]) {
            proof {
                assert(requests_settled(first, shares, all.take(k + 1)) == Err::<
                    Settling,
                    SessionError,
                >(e));
                lemma_settled_fails(first, shares, all, k + 1, e);
            }
            return Err(e);
        }
        k = k + 1;
    }
    assert(all.take(k as int) =~= all);
    let ids = ids_of(requests);
    let refused = without_listed(&desk.refused, &ids, true);
    let room: usize = if desk.open.len() <= MAX_REQUESTS {
        MAX_REQUESTS - desk.open.len()
    } else {
        return Err(SessionError::TooManyRequests);
    };
    if refused.len() > room {
        return Err(SessionError::TooManyRequests);
    }
    config.share_requests = desk.open;
    config.rejected_requests = refused;
    Ok(
        Settled {
            accepted: desk.accepted,
            rejected: desk.rejected,
            cancelled: copy_strings(cancels),
        },
    )
}

proof fn lemma_settled_fails(
    s: Settling,
    shares: Seq<ShareView>,
    all: Seq<RequestView>,
    n: int,
    e: SessionError,
)
    requires
        0 <= n <= all.len(),
        requests_settled(s, shares, all.take(n)) == Err::<Settling, SessionError>(e),
    ensures
        requests_settled(s, shares, all) == Err::<Settling, SessionError>(e),
    decreases all.len() - n,
{
    if n == all.len() {
        assert(all.take(n) =~= all);
    } else {
        assert(all.take(n + 1).drop_last() =~= all.take(n));
        lemma_settled_fails(s, shares, all, n + 1, e);
    }
}

proof fn lemma_find_push(list: Seq<RequestView>, r: RequestView, id: Chars)
    ensures
        find_request(list.push(r), id) == match find_request(list, id) {
            Some(x) => Some(x),
            None => if r.request_id == id {
                Some(r)
            } else {
                None
            },
        },
{
    assert(list.push(r).drop_last() =~= list);
}

proof fn lemma_find_without(list: Seq<RequestView>, ids: Set<Chars>, id: Chars)
    ensures
        find_request(without_ids(list, ids), id) == if ids.contains(id) {
            None
        } else {
            find_request(list, id)
        },
    decreases list.len(),
{
    if list.len() > 0 {
        let less = list.drop_last();
        lemma_find_without(less, ids, id);
        lemma_find_push(without_ids(less, ids), list.last(), id);
    }
}

/// What a step of settling leaves alone: the rejections, and every request
/// that is known.
proof fn lemma_step(s: Settling, shares: Seq<ShareView>, r: RequestView)
    requires
        request_step(s, shares, r) is Ok,
    ensures
        ({
            let t = request_step(s, shares, r)->Ok_0;
            &&& t.refused == s.refused
            &&& forall|id: Chars| #[trigger] find_request(t.open, id) == match find_request(
                s.open,
                id,
            ) {
                Some(x) => Some(x),
                None => if id == r.request_id && find_accepted(shares, id) is None && find_request(
                    s.refused,
                    id,
                ) is None {
                    Some(r)
                } else {
                    None
                },
            }
        }),
{
    let t = request_step(s, shares, r)->Ok_0;
    assert forall|id: Chars| #[trigger] find_request(t.open, id) == match find_request(s.open, id) {
        Some(x) => Some(x),
        None => if id == r.request_id && find_accepted(shares, id) is None && find_request(
            s.refused,
            id,
        ) is None {
            Some(r)
        } else {
            None
        },
    } by {
        lemma_find_push(s.open, r, id);
    }
}

/// The requests of one pass, as they stand behind it.
proof fn lemma_pass(s: Settling, shares: Seq<ShareView>, requests: Seq<RequestView>)
    requires
        requests_settled(s, shares, requests) is Ok,
        request_ids(requests).no_duplicates(),
    ensures
        ({
            let t = requests_settled(s, shares, requests)->Ok_0;
            &&& t.refused == s.refused
            &&& forall|id: Chars|
                !request_ids(requests).contains(id) ==> #[trigger] find_request(t.open, id)
                    == find_request(s.open, id)
            &&& forall|i: int| #![trigger requests[i]]
                0 <= i < requests.len() ==> {
                    let r = requests[i];
                    let known = find_request(t.open + t.refused, r.request_id);
                    let share = find_accepted(shares, r.request_id);
                    &&& valid_hash(r.request_id)
                    &&& sound_name(r.name)
                    &&& known is Some ==> known->0.name == r.name && known->0.mode == r.mode
                    &&& share is Some ==> share->0.name == r.name && share->0.mode == r.mode
                    &&& share is None ==> known is Some
                    &&& (share is None && find_request(t.refused, r.request_id) is None)
                        ==> find_request(t.open, r.request_id) is Some
                }
        }),
    decreases requests.len(),
{
    if requests.len() > 0 {
        let less = requests.drop_last();
        let last = requests.last();
        let ids = request_ids(requests);
        assert(request_ids(less) =~= ids.drop_last());
        assert(request_ids(less).no_duplicates());
        lemma_pass(s, shares, less);
        let m = requests_settled(s, shares, less)->Ok_0;
        let t = requests_settled(s, shares, requests)->Ok_0;
        lemma_step(m, shares, last);
        assert(ids[requests.len() - 1] == last.request_id);
        assert forall|id: Chars| !ids.contains(id) implies #[trigger] find_request(t.open, id)
            == find_request(s.open, id) by {
            if request_ids(less).contains(id) {
                let k = choose|k: int| 0 <= k < request_ids(less).len() && request_ids(less)[k] == id;
                assert(ids[k] == id);
            }
            assert(id != last.request_id) by {
                assert(ids.contains(last.request_id));
            }
            assert(find_request(m.open, id) == find_request(s.open, id));
        }
        assert forall|i: int| #![trigger requests[i]] 0 <= i < requests.len() implies {
            let r = requests[i];
            let known = find_request(t.open + t.refused, r.request_id);
            let share = find_accepted(shares, r.request_id);
            &&& valid_hash(r.request_id)
            &&& sound_name(r.name)
            &&& known is Some ==> known->0.name == r.name && known->0.mode == r.mode
            &&& share is Some ==> share->0.name == r.name && share->0.mode == r.mode
            &&& share is None ==> known is Some
            &&& (share is None && find_request(t.refused, r.request_id) is None) ==> find_request(
                t.open,
                r.request_id,
            ) is Some
        } by {
            let r = requests[i];
            let id = r.request_id;
            lemma_find_concat(t.open, t.refused, id);
            lemma_find_concat(m.open, m.refused, id);
            if i < less.len() {
                assert(less[i] == r);
                assert(ids[i] != ids[requests.len() - 1]);
                assert(id != last.request_id);
                assert(find_request(t.open, id) == find_request(m.open, id));
            } else {
                assert(r == last);
            }
        }
    }
}

proof fn lemma_again(
    s: Settling,
    shares: Seq<ShareView>,
    requests: Seq<RequestView>,
    n: int,
)
    requires
        0 <= n <= requests.len(),
        forall|i: int| #![trigger requests[i]]
            0 <= i < requests.len() ==> {
                let r = requests[i];
                let known = find_request(s.open + s.refused, r.request_id);
                let share = find_accepted(shares, r.request_id);
                &&& valid_hash(r.request_id)
                &&& sound_name(r.name)
                &&& known is Some ==> known->0.name == r.name && known->0.mode == r.mode
                &&& share is Some ==> share->0.name == r.name && share->0.mode == r.mode
                &&& (share is None && find_request(s.refused, r.request_id) is None)
                    ==> find_request(s.open, r.request_id) is Some
            },
    ensures
        ({
            let t = requests_settled(s, shares, requests.take(n));
            t is Ok && t->Ok_0.open == s.open && t->Ok_0.refused == s.refused
        }),
    decreases n,
{
    let some = requests.take(n);
    if n > 0 {
        lemma_again(s, shares, requests, n - 1);
        assert(some.drop_last() =~= requests.take(n - 1));
        assert(some.last() == requests[n - 1]);
    }
}

/// No request of a list has one of these identities.
spec fn clear_of(list: Seq<RequestView>, ids: Set<Chars>) -> bool {
    forall|k: int| 0 <= k < list.len() ==> !ids.contains((#[trigger] list[k]).request_id)
}

proof fn lemma_clear(list: Seq<RequestView>, ids: Set<Chars>, gone: Set<Chars>)
    ensures
        clear_of(without_ids(list, ids), ids),
        clear_of(list, ids) ==> without_ids(list, ids) == list,
        clear_of(list, ids) ==> clear_of(without_ids(list, gone), ids),
    decreases list.len(),
{
    if list.len() > 0 {
        let less = list.drop_last();
        lemma_clear(less, ids, gone);
        assert(less.push(list.last()) =~= list);
        if clear_of(list, ids) {
            assert forall|k: int| 0 <= k < less.len() implies !ids.contains(
                (#[trigger] less[k]).request_id,
            ) by {
                assert(less[k] == list[k]);
            }
            assert(!ids.contains(list[list.len() - 1].request_id));
        }
    }
}

proof fn lemma_open_clear(
    s: Settling,
    shares: Seq<ShareView>,
    requests: Seq<RequestView>,
    ids: Set<Chars>,
)
    requires
        requests_settled(s, shares, requests) is Ok,
        clear_of(s.open, ids),
        clear_of(requests, ids),
    ensures
        clear_of(requests_settled(s, shares, requests)->Ok_0.open, ids),
    decreases requests.len(),
{
    if requests.len() > 0 {
        let less = requests.drop_last();
        assert forall|k: int| 0 <= k < less.len() implies !ids.contains(
            (#[trigger] less[k]).request_id,
        ) by {
            assert(less[k] == requests[k]);
        }
        lemma_open_clear(s, shares, less, ids);
        assert(!ids.contains(requests[requests.len() - 1].request_id));
    }
}

/// A phone that repeats its requests and cancellations finds them as it left
/// them: the second time changes nothing, however often the answer gets lost.
pub proof fn law_repeated_requests(c: ConfigView, requests: Seq<RequestView>, cancels: Seq<Chars>)
    requires
        lists_fault(requests, cancels) is None,
        settled_requests(c, requests, cancels) is Ok,
    ensures
        ({
            let once = settled_requests(c, requests, cancels)->Ok_0.0;
            let again = settled_requests(once, requests, cancels);
            again is Ok && again->Ok_0.0 == once
        }),
{
    let first = uncancelled(c, cancels);
    let dead = cancels.to_set();
    let s = requests_settled(first, c.shares, requests)->Ok_0;
    lemma_pass(first, c.shares, requests);
    let ids = request_ids(requests).to_set();
    let gone = ids.complement();
    let refused = without_ids(s.refused, gone);
    let once = settled_requests(c, requests, cancels)->Ok_0.0;
    let begin = uncancelled(once, cancels);
    assert(clear_of(requests, dead)) by {
        assert forall|k: int| 0 <= k < requests.len() implies !dead.contains(
            (#[trigger] requests[k]).request_id,
        ) by {
            let id = requests[k].request_id;
            assert(request_ids(requests)[k] == id);
            if dead.contains(id) {
                let j = choose|j: int| 0 <= j < cancels.len() && cancels[j] == id;
                assert(!request_ids(requests).contains(cancels[j]));
            }
        }
    }
    lemma_clear(c.share_requests, dead, gone);
    lemma_clear(c.rejected_requests, dead, gone);
    lemma_open_clear(first, c.shares, requests, dead);
    lemma_clear(s.open, dead, gone);
    lemma_clear(s.refused, dead, gone);
    lemma_clear(refused, dead, gone);
    assert(begin.open == s.open && begin.refused == refused);
    assert forall|i: int| #![trigger requests[i]] 0 <= i < requests.len() implies {
        let r = requests[i];
        let known = find_request(begin.open + begin.refused, r.request_id);
        let share = find_accepted(c.shares, r.request_id);
        &&& valid_hash(r.request_id)
        &&& sound_name(r.name)
        &&& known is Some ==> known->0.name == r.name && known->0.mode == r.mode
        &&& share is Some ==> share->0.name == r.name && share->0.mode == r.mode
        &&& (share is None && find_request(begin.refused, r.request_id) is None) ==> find_request(
            begin.open,
            r.request_id,
        ) is Some
    } by {
        let id = requests[i].request_id;
        assert(request_ids(requests)[i] == id);
        assert(ids.contains(id));
        lemma_find_without(s.refused, gone, id);
        lemma_find_concat(begin.open, begin.refused, id);
        lemma_find_concat(s.open, s.refused, id);
    }
    lemma_again(begin, c.shares, requests, requests.len() as int);
    assert(requests.take(requests.len() as int) =~= requests);
    lemma_without_twice(s.refused, gone);
}

proof fn lemma_without_none(list: Seq<RequestView>, ids: Set<Chars>)
    requires
        forall|x: Chars| !ids.contains(x),
    ensures
        without_ids(list, ids) == list,
    decreases list.len(),
{
    if list.len() > 0 {
        lemma_without_none(list.drop_last(), ids);
        assert(list.drop_last().push(list.last()) =~= list);
    }
}

proof fn lemma_without_twice(list: Seq<RequestView>, ids: Set<Chars>)
    ensures
        without_ids(without_ids(list, ids), ids) == without_ids(list, ids),
    decreases list.len(),
{
    if list.len() > 0 {
        let less = list.drop_last();
        lemma_without_twice(less, ids);
        let rest = without_ids(less, ids);
        if !ids.contains(list.last().request_id) {
            assert(rest.push(list.last()).drop_last() =~= rest);
        }
    }
}

/// A rejection lasts until the phone has heard of it: while the phone repeats
/// the request, it is told that it was rejected, and the request does not open
/// again.
pub proof fn law_rejection_lasts(c: ConfigView, requests: Seq<RequestView>, i: int)
    requires
        request_ids(requests).no_duplicates(),
        settled_requests(c, requests, Seq::empty()) is Ok,
        0 <= i < requests.len(),
        find_request(c.rejected_requests, requests[i].request_id) is Some,
        find_request(c.share_requests, requests[i].request_id) is None,
        find_accepted(c.shares, requests[i].request_id) is None,
    ensures
        ({
            let (after, told) = settled_requests(c, requests, Seq::empty())->Ok_0;
            let id = requests[i].request_id;
            &&& find_request(after.rejected_requests, id) == find_request(c.rejected_requests, id)
            &&& find_request(after.share_requests, id) is None
            &&& told.rejected.contains(id)
        }),
{
    let none = Seq::<Chars>::empty();
    let first = uncancelled(c, none);
    lemma_without_none(c.share_requests, none.to_set());
    lemma_without_none(c.rejected_requests, none.to_set());
    let s = requests_settled(first, c.shares, requests)->Ok_0;
    let id = requests[i].request_id;
    lemma_told(first, c.shares, requests, i);
    let gone = request_ids(requests).to_set().complement();
    assert(request_ids(requests)[i] == id);
    lemma_find_without(s.refused, gone, id);
}

proof fn lemma_told(s: Settling, shares: Seq<ShareView>, requests: Seq<RequestView>, i: int)
    requires
        requests_settled(s, shares, requests) is Ok,
        0 <= i < requests.len(),
        find_request(s.refused, requests[i].request_id) is Some,
        find_request(s.open, requests[i].request_id) is None,
        find_accepted(shares, requests[i].request_id) is None,
    ensures
        ({
            let t = requests_settled(s, shares, requests)->Ok_0;
            &&& t.rejected.contains(requests[i].request_id)
            &&& t.refused == s.refused
            &&& find_request(t.open, requests[i].request_id) is None
        }),
    decreases requests.len(),
{
    let less = requests.drop_last();
    let last = requests.last();
    let id = requests[i].request_id;
    let m = requests_settled(s, shares, less)->Ok_0;
    let t = requests_settled(s, shares, requests)->Ok_0;
    if i < less.len() {
        lemma_told(s, shares, less, i);
    } else {
        lemma_quiet(s, shares, less, id);
    }
    lemma_step(m, shares, last);
    assert(find_request(t.open, id) is None);
    if i < less.len() {
        let k = choose|k: int| 0 <= k < m.rejected.len() && m.rejected[k] == id;
        assert(t.rejected[k] == id);
    } else {
        assert(t.rejected[m.rejected.len() as int] == id);
    }
}

proof fn lemma_quiet(s: Settling, shares: Seq<ShareView>, requests: Seq<RequestView>, id: Chars)
    requires
        requests_settled(s, shares, requests) is Ok,
        find_request(s.refused, id) is Some,
        find_request(s.open, id) is None,
    ensures
        ({
            let t = requests_settled(s, shares, requests)->Ok_0;
            t.refused == s.refused && find_request(t.open, id) is None
        }),
    decreases requests.len(),
{
    if requests.len() > 0 {
        lemma_quiet(s, shares, requests.drop_last(), id);
        lemma_step(
            requests_settled(s, shares, requests.drop_last())->Ok_0,
            shares,
            requests.last(),
        );
    }
}

/// A cancelled request is forgotten, whether it was open or rejected.
pub proof fn law_cancelled_is_forgotten(
    c: ConfigView,
    requests: Seq<RequestView>,
    cancels: Seq<Chars>,
    i: int,
)
    requires
        lists_fault(requests, cancels) is None,
        settled_requests(c, requests, cancels) is Ok,
        0 <= i < cancels.len(),
    ensures
        ({
            let after = settled_requests(c, requests, cancels)->Ok_0.0;
            &&& find_request(after.share_requests, cancels[i]) is None
            &&& find_request(after.rejected_requests, cancels[i]) is None
        }),
{
    let first = uncancelled(c, cancels);
    lemma_find_without(c.share_requests, cancels.to_set(), cancels[i]);
    lemma_find_without(c.rejected_requests, cancels.to_set(), cancels[i]);
    lemma_pass(first, c.shares, requests);
    let s = requests_settled(first, c.shares, requests)->Ok_0;
    let gone = request_ids(requests).to_set().complement();
    lemma_find_without(s.refused, gone, cancels[i]);
    assert(!request_ids(requests).contains(cancels[i]));
    assert(find_request(s.open, cancels[i]) == find_request(first.open, cancels[i]));
    assert(cancels.to_set().contains(cancels[i]));
}

/// A Share is served in a round: it is on, the phone has a folder for it and
/// asks for it, and it is the one that was called for, where one was.
pub open spec fn is_ready(
    s: ShareView,
    requested: Seq<Chars>,
    available: Set<Chars>,
    next: Option<Chars>,
) -> bool {
    s.enabled && requested.contains(s.share_id) && available.contains(s.share_id) && (next is Some
        ==> next->0 == s.share_id)
}

/// The Shares that a round serves, in the order of the configuration.
pub open spec fn ready_list(
    shares: Seq<ShareView>,
    requested: Seq<Chars>,
    available: Set<Chars>,
    next: Option<Chars>,
) -> Seq<ShareView>
    decreases shares.len(),
{
    if shares.len() == 0 {
        Seq::empty()
    } else {
        let rest = ready_list(shares.drop_last(), requested, available, next);
        if is_ready(shares.last(), requested, available, next) {
            rest.push(shares.last())
        } else {
            rest
        }
    }
}

/// The names of the Shares that wait for a folder on the phone.
pub open spec fn waiting_list(shares: Seq<ShareView>, available: Set<Chars>) -> Seq<Chars>
    decreases shares.len(),
{
    if shares.len() == 0 {
        Seq::empty()
    } else {
        let rest = waiting_list(shares.drop_last(), available);
        if shares.last().enabled && !available.contains(shares.last().share_id) {
            rest.push(shares.last().name)
        } else {
            rest
        }
    }
}

/// The Shares that a round serves, in the order of the configuration.
pub fn ready_shares(config: &DeviceConfig, offer: &Offer, next: &Option<String>) -> (r: Vec<
    ShareConfig,
>)
    ensures
        seen(r@) == ready_list(
            config@.shares,
            views(offer.requested@),
            offer.available@,
            owned_text(*next),
        ),
{
    let ghost all = config@.shares;
    let mut r: Vec<ShareConfig> = Vec::new();
    let mut i: usize = 0;
    assert(seen(r@) =~= Seq::<ShareView>::empty());
    assert(all.take(0) =~= Seq::<ShareView>::empty());
    while i < config.shares.len()
        invariant
            i <= config.shares@.len(),
            all == config@.shares,
            seen(r@) == ready_list(
                all.take(i as int),
                views(offer.requested@),
                offer.available@,
                owned_text(*next),
            ),
        decreases config.shares@.len() - i,
    {
        let share = &config.shares[i];
        let id = share.share_id.as_str();
        proof {
            assert(all.take(i + 1).drop_last() =~= all.take(i as int));
            assert(all.take(i + 1).last() == share@);
        }
        let called = match next {
            Some(wanted) => same(wanted.as_str(), id),
            None => true,
        };
        if share.enabled && names(&offer.requested, id) && offer.available.contains(id) && called {
            let copy = share.duplicate();
            proof {
                lemma_seen_push(r@, copy);
            }
            r.push(copy);
        }
        i = i + 1;
    }
    assert(all.take(i as int) =~= all);
    r
}

/// The names of the Shares that wait for a folder on the phone.
pub fn waiting_names(config: &DeviceConfig, available: &StringSet) -> (r: Vec<String>)
    ensures
        views(r@) == waiting_list(config@.shares, available@),
{
    let ghost all = config@.shares;
    let mut r: Vec<String> = Vec::new();
    let mut i: usize = 0;
    assert(views(r@) =~= Seq::<Chars>::empty());
    assert(all.take(0) =~= Seq::<ShareView>::empty());
    while i < config.shares.len()
        invariant
            i <= config.shares@.len(),
            all == config@.shares,
            views(r@) == waiting_list(all.take(i as int), available@),
        decreases config.shares@.len() - i,
    {
        let share = &config.shares[i];
        proof {
            assert(all.take(i + 1).drop_last() =~= all.take(i as int));
            assert(all.take(i + 1).last() == share@);
        }
        if share.enabled && !available.contains(share.share_id.as_str()) {
            proof {
                lemma_views_push(r@, share.name);
            }
            r.push(share.name.clone());
        }
        i = i + 1;
    }
    assert(all.take(i as int) =~= all);
    r
}

/// What a round counted.
pub struct RoundMetrics {
    /// When the first byte of a file moved, counted from the round's start.
    pub ttfb_ms: Option<u128>,
    pub total_ms: u128,
    pub shares_processed: usize,
    pub shares_changed: usize,
    pub bytes_transferred: u64,
    pub per_share: StringMap<ShareMetrics>,
}

/// [`RoundMetrics`] as a mathematical value.
#[verifier::ext_equal]
pub struct MetricsView {
    pub ttfb_ms: Option<u128>,
    pub total_ms: u128,
    pub shares_processed: usize,
    pub shares_changed: usize,
    pub bytes_transferred: u64,
    pub per_share: Map<Chars, ShareMetrics>,
}

impl View for RoundMetrics {
    type V = MetricsView;

    open spec fn view(&self) -> MetricsView {
        MetricsView {
            ttfb_ms: self.ttfb_ms,
            total_ms: self.total_ms,
            shares_processed: self.shares_processed,
            shares_changed: self.shares_changed,
            bytes_transferred: self.bytes_transferred,
            per_share: self.per_share@,
        }
    }
}

/// A round that serves Share after Share.
pub struct ServerRound {
    ready: Vec<ShareConfig>,
    index: usize,
    audit: bool,
    preempted: bool,
    deferred: Option<Vec<String>>,
    remaps: Vec<String>,
    metrics: RoundMetrics,
}

/// A [`ServerRound`] as a mathematical value.
#[verifier::ext_equal]
pub struct ServerView {
    pub ready: Seq<ShareView>,
    /// How many Shares have had their turn.
    pub index: int,
    /// The round looks at all Shares.
    pub audit: bool,
    /// A round that looked at all Shares was cut short, and none was completed
    /// since.
    pub preempted: bool,
    /// The Shares in whose favour this round was cut short.
    pub deferred: Option<Seq<Chars>>,
    /// The Shares whose remapping is complete.
    pub remaps: Seq<Chars>,
    pub metrics: MetricsView,
}

impl View for ServerRound {
    type V = ServerView;

    closed spec fn view(&self) -> ServerView {
        ServerView {
            ready: seen(self.ready@),
            index: self.index as int,
            audit: self.audit,
            preempted: self.preempted,
            deferred: match self.deferred {
                Some(ids) => Some(views(ids@)),
                None => None,
            },
            remaps: views(self.remaps@),
            metrics: self.metrics@,
        }
    }
}

/// Nothing was counted.
pub open spec fn no_round_metrics() -> MetricsView {
    MetricsView {
        ttfb_ms: None,
        total_ms: 0,
        shares_processed: 0,
        shares_changed: 0,
        bytes_transferred: 0,
        per_share: Map::empty(),
    }
}

/// The round is cut short: it looks at all Shares, and others have changed.
pub open spec fn cut_short(s: ServerView, urgent: Map<Chars, bool>) -> bool {
    s.index < s.ready.len() && s.audit && !s.preempted && urgent.dom().len() > 0
}

/// Every urgent Share is on its way to the phone.
pub open spec fn all_delivered(urgent: Map<Chars, bool>) -> Map<Chars, bool> {
    Map::new(|k: Chars| urgent.dom().contains(k), |k: Chars| true)
}

/// A round as it stands after a Share was synchronised.
pub open spec fn tallied(m: MetricsView, id: Chars, report: Report, wait_ms: u128) -> MetricsView {
    MetricsView {
        ttfb_ms: if m.ttfb_ms is None {
            match report.metrics.first_byte_ms {
                Some(ms) => Some((wait_ms + ms) as u128),
                None => None,
            }
        } else {
            m.ttfb_ms
        },
        total_ms: m.total_ms,
        shares_processed: (m.shares_processed + 1) as usize,
        shares_changed: (m.shares_changed + if report.transferred > 0 || report.conflicts > 0 {
            1int
        } else {
            0
        }) as usize,
        bytes_transferred: (m.bytes_transferred + report.metrics.bytes_transferred) as u64,
        per_share: m.per_share.insert(
            id,
            ShareMetrics { share_queue_wait_ms: wait_ms, ..report.metrics },
        ),
    }
}

fn deliver(urgent: &mut StringMap<bool>) -> (r: Vec<String>)
    ensures
        final(urgent)@ == all_delivered(old(urgent)@),
        lists(views(r@), old(urgent)@.dom()),
{
    let keys = urgent.keys();
    let mut marked: StringMap<bool> = StringMap::new();
    let n: usize = keys.len();
    let ghost order = keys.order();
    let mut i: usize = 0;
    while i < n
        invariant
            i <= n == order.len(),
            order == keys.order(),
            lists(order, keys@),
            *urgent == *old(urgent),
            keys@ == urgent@.dom(),
            forall|k: Chars| #[trigger] marked@.dom().contains(k) <==> order.take(i as int).contains(k),
            forall|k: Chars| #[trigger] marked@.dom().contains(k) ==> marked@[k],
        decreases n - i,
    {
        let ghost was = marked@;
        marked.insert(keys.at(i).clone(), true);
        assert forall|k: Chars| #[trigger] marked@.dom().contains(k) <==> order.take(
            i + 1,
        ).contains(k) by {
            let less = order.take(i as int);
            let more = order.take(i + 1);
            assert(was.dom().contains(k) <==> less.contains(k));
            if less.contains(k) {
                let j = choose|j: int| 0 <= j < less.len() && less[j] == k;
                assert(more[j] == k);
            }
            if more.contains(k) {
                let j = choose|j: int| 0 <= j < more.len() && more[j] == k;
                if j < i {
                    assert(less[j] == k);
                }
            }
            assert(more[i as int] == order[i as int]);
        }
        i = i + 1;
    }
    let r = keys.to_list();
    assert(order.take(i as int) =~= order);
    assert(marked@ =~= all_delivered(old(urgent)@)) by {
        assert forall|k: Chars| marked@.dom().contains(k) == all_delivered(
            old(urgent)@,
        ).dom().contains(k) by {
            assert(order.contains(k) <==> keys@.contains(k));
        }
    }
    *urgent = marked;
    r
}

impl ServerRound {
    #[verifier::type_invariant]
    spec fn inv(self) -> bool {
        &&& self.index <= self.ready@.len()
        &&& self.metrics.shares_processed <= self.index
        &&& self.metrics.shares_changed <= self.index
    }

    /// A round before its first Share.
    pub fn new(ready: Vec<ShareConfig>, audit: bool, preempted: bool) -> (r: Self)
        ensures
            r@ == (ServerView {
                ready: seen(ready@),
                index: 0,
                audit,
                preempted,
                deferred: None,
                remaps: Seq::empty(),
                metrics: no_round_metrics(),
            }),
    {
        let remaps: Vec<String> = Vec::new();
        let per_share: StringMap<ShareMetrics> = StringMap::new();
        assert(views(remaps@) =~= Seq::<Chars>::empty());
        ServerRound {
            ready,
            index: 0,
            audit,
            preempted,
            deferred: None,
            remaps,
            metrics: RoundMetrics {
                ttfb_ms: None,
                total_ms: 0,
                shares_processed: 0,
                shares_changed: 0,
                bytes_transferred: 0,
                per_share,
            },
        }
    }

    /// The Share whose turn it is; none where the round is over or cut short.
    /// A round that looks at all Shares gives way to changes, but not twice in
    /// a row.
    pub fn next(&mut self, urgent: &mut StringMap<bool>) -> (r: Option<ShareConfig>)
        ensures
            if cut_short(old(self)@, old(urgent)@) {
                &&& r is None
                &&& final(urgent)@ == all_delivered(old(urgent)@)
                &&& exists|ids: Seq<Chars>| #[trigger] lists(ids, old(urgent)@.dom()) && final(self)@
                    == (ServerView {
                    deferred: Some(ids),
                    preempted: true,
                    index: old(self)@.ready.len() as int,
                    ..old(self)@
                })
            } else {
                &&& final(urgent)@ == old(urgent)@
                &&& r is Some <==> old(self)@.index < old(self)@.ready.len()
                &&& r is Some ==> r->0@ == old(self)@.ready[old(self)@.index] && final(self)@ == (
                ServerView { index: old(self)@.index + 1, ..old(self)@ })
                &&& r is None ==> final(self)@ == old(self)@
            },
    {
        proof {
            use_type_invariant(&*self);
        }
        if self.index >= self.ready.len() {
            return None;
        }
        if self.audit && !self.preempted && urgent.len() > 0 {
            let ids = deliver(urgent);
            let ghost names = views(ids@);
            self.deferred = Some(ids);
            self.preempted = true;
            self.index = self.ready.len();
            assert(lists(names, old(urgent)@.dom()));
            assert(self@ =~= ServerView {
                deferred: Some(names),
                preempted: true,
                index: old(self)@.ready.len() as int,
                ..old(self)@
            });
            return None;
        }
        let share = self.ready[self.index].duplicate();
        self.index = self.index + 1;
        Some(share)
    }

    /// The Share whose turn it is was synchronised; it had waited for
    /// `wait_ms`.
    pub fn served(&mut self, share: &ShareConfig, report: &Report, wait_ms: u128)
        requires
            old(self)@.metrics.shares_processed < old(self)@.index,
            old(self)@.metrics.shares_changed < old(self)@.index,
            old(self)@.metrics.bytes_transferred + report.metrics.bytes_transferred <= u64::MAX,
            report.metrics.first_byte_ms is Some ==> wait_ms + report.metrics.first_byte_ms->0
                <= u128::MAX,
        ensures
            final(self)@ == (ServerView {
                metrics: tallied(old(self)@.metrics, share@.share_id, *report, wait_ms),
                remaps: if share@.remap_policy is Some {
                    old(self)@.remaps.push(share@.share_id)
                } else {
                    old(self)@.remaps
                },
                ..old(self)@
            }),
    {
        proof {
            use_type_invariant(&*self);
        }
        let mut metrics = report.metrics;
        metrics.share_queue_wait_ms = wait_ms;
        if self.metrics.ttfb_ms.is_none() {
            if let Some(ms) = report.metrics.first_byte_ms {
                self.metrics.ttfb_ms = Some(wait_ms + ms);
            }
        }
        self.metrics.shares_processed = self.metrics.shares_processed + 1;
        if report.transferred > 0 || report.conflicts > 0 {
            self.metrics.shares_changed = self.metrics.shares_changed + 1;
        }
        self.metrics.bytes_transferred = self.metrics.bytes_transferred
            + report.metrics.bytes_transferred;
        let mut per_share: StringMap<ShareMetrics> = StringMap::new();
        std::mem::swap(&mut per_share, &mut self.metrics.per_share);
        per_share.insert(share.share_id.clone(), metrics);
        self.metrics.per_share = per_share;
        if share.remap_policy.is_some() {
            let mut remaps = copy_strings(&self.remaps);
            proof {
                lemma_views_push(remaps@, share.share_id);
            }
            remaps.push(share.share_id.clone());
            self.remaps = remaps;
        }
        assert(self@ =~= ServerView {
            metrics: tallied(old(self)@.metrics, share@.share_id, *report, wait_ms),
            remaps: if share@.remap_policy is Some {
                old(self)@.remaps.push(share@.share_id)
            } else {
                old(self)@.remaps
            },
            ..old(self)@
        });
    }

    /// The round is over: what it counted, the Shares whose remapping is
    /// complete, the last message, and whether the next round that looks at
    /// all Shares may be cut short.
    pub fn finish(self, total_ms: u128) -> (r: (RoundMetrics, Vec<String>, Message, bool))
        ensures
            r.0@ == (MetricsView { total_ms, ..self@.metrics }),
            views(r.1@) == self@.remaps,
            match self@.deferred {
                Some(ids) => r.2 matches Message::RoundDeferred { shares } && views(shares@) == ids,
                None => r.2 is SessionDone,
            },
            r.3 == (self@.preempted && !(self@.audit && self@.deferred is None)),
    {
        let last = self.deferred.is_none();
        let message = match &self.deferred {
            Some(ids) => Message::RoundDeferred { shares: copy_strings(ids) },
            None => Message::SessionDone,
        };
        let metrics = RoundMetrics {
            ttfb_ms: self.metrics.ttfb_ms,
            total_ms,
            shares_processed: self.metrics.shares_processed,
            shares_changed: self.metrics.shares_changed,
            bytes_transferred: self.metrics.bytes_transferred,
            per_share: self.metrics.per_share.duplicate(),
        };
        (metrics, copy_strings(&self.remaps), message, self.preempted && !(self.audit && last))
    }
}

/// The Shares with their completed remappings forgotten.
pub open spec fn remapped(shares: Seq<ShareView>, done: Seq<Chars>) -> Seq<ShareView> {
    shares.map_values(
        |s: ShareView|
            if done.contains(s.share_id) {
                ShareView { remap_policy: None, ..s }
            } else {
                s
            },
    )
}

/// Forgets completed remappings.
pub fn clear_remaps(config: &mut DeviceConfig, done: &Vec<String>)
    ensures
        final(config)@ == (ConfigView {
            shares: remapped(old(config)@.shares, views(done@)),
            ..old(config)@
        }),
{
    let ghost all = remapped(config@.shares, views(done@));
    let mut shares: Vec<ShareConfig> = Vec::new();
    let mut i: usize = 0;
    assert(seen(shares@) =~= all.take(0));
    while i < config.shares.len()
        invariant
            i <= config.shares@.len(),
            *config == *old(config),
            all == remapped(config@.shares, views(done@)),
            seen(shares@) == all.take(i as int),
        decreases config.shares@.len() - i,
    {
        let mut share = config.shares[i].duplicate();
        if names(done, share.share_id.as_str()) {
            share.remap_policy = None;
        }
        proof {
            lemma_seen_push(shares@, share);
            assert(share@ =~= all[i as int]);
            assert(all.take(i + 1) =~= all.take(i as int).push(all[i as int]));
        }
        shares.push(share);
        i = i + 1;
    }
    assert(all.take(i as int) =~= all);
    config.shares = shares;
}

/// Changes on the PC come before a look at all Shares, but cannot keep it off
/// for ever: once it was cut short, no round is cut short again until one that
/// looks at all Shares has come to its end.
pub proof fn law_audit_not_starved(s: ServerView, urgent: Map<Chars, bool>)
    requires
        s.preempted,
    ensures
        !cut_short(s, urgent),
{
}
/// What is seen of the line to the phone when nothing of it is decrypted yet.
#[derive(Clone, Copy, Debug, PartialEq, Eq, Structural)]
pub enum Line {
    /// The phone has closed it.
    Closed,
    /// Something has arrived.
    Arrived,
    /// Nothing has arrived.
    Quiet,
}

/// What a session does next.
#[derive(Clone, Copy, Debug, PartialEq, Eq, Structural)]
pub enum Attention {
    /// It ends.
    Leave,
    /// It reads a message whose first byte was taken already.
    ReadRest,
    /// It reads a message.
    Read,
    /// It passes on what changed meanwhile.
    Idle,
}

/// What a session does next: it ends when it is told to, takes what is
/// decrypted before it looks at the line, and ends with the line.
pub fn attend(stop: bool, buffered: bool, line: Line) -> (r: Attention)
    ensures
        r == (if stop {
            Attention::Leave
        } else if buffered {
            Attention::ReadRest
        } else {
            match line {
                Line::Closed => Attention::Leave,
                Line::Arrived => Attention::Read,
                Line::Quiet => Attention::Idle,
            }
        }),
{
    if stop {
        return Attention::Leave;
    }
    if buffered {
        return Attention::ReadRest;
    }
    match line {
        Line::Closed => Attention::Leave,
        Line::Arrived => Attention::Read,
        Line::Quiet => Attention::Idle,
    }
}

/// How long a session waits for changes that were passed on to be stored.
pub const HINT_WAIT_MS: u64 = 5000;

/// Whether a session may go on after a round: not before every change that was
/// passed on is stored, and not for longer than [`HINT_WAIT_MS`].
pub fn hints_stored(urgent: &StringMap<bool>, waited_ms: u64) -> (r: Result<bool, SessionError>)
    ensures
        ({
            let passed_on = exists|id: Chars| #[trigger] urgent@.dom().contains(id) && urgent@[id];
            r == if !passed_on {
                Ok::<bool, SessionError>(true)
            } else if waited_ms < HINT_WAIT_MS {
                Ok::<bool, SessionError>(false)
            } else {
                Err::<bool, SessionError>(SessionError::HintNotStored)
            }
        }),
{
    let n: usize = urgent.len();
    let mut i: usize = 0;
    while i < n
        invariant
            n == urgent.order().len(),
            i <= n,
            forall|j: int| 0 <= j < i ==> !urgent@[#[trigger] urgent.order()[j]],
        decreases n - i,
    {
        if *urgent.value_at(i) {
            assert(urgent@.dom().contains(urgent.order()[i as int]));
            return if waited_ms < HINT_WAIT_MS {
                Ok(false)
            } else {
                Err(SessionError::HintNotStored)
            };
        }
        i = i + 1;
    }
    proof {
        assert forall|id: Chars| urgent@.dom().contains(id) implies !#[trigger] urgent@[id] by {
            assert(urgent.order().contains(id));
        }
    }
    Ok(true)
}

/// The Shares that messages wake.
pub open spec fn woken(messages: Seq<Message>) -> Seq<Chars> {
    messages.map_values(|m: Message| m->WakeShare_share_id@)
}

/// The messages that wake the phone for the Shares that changed, each named
/// once and in ascending order.
pub fn wake_messages(changed: &Vec<String>) -> (r: Vec<Message>)
    ensures
        forall|i: int| 0 <= i < r@.len() ==> #[trigger] r@[i] is WakeShare,
        lists(woken(r@), views(changed@).to_set()),
{
    let mut pending = StringSet::new();
    let mut i: usize = 0;
    assert(views(changed@).take(0).to_set() =~= Set::<Chars>::empty());
    while i < changed.len()
        invariant
            i <= changed@.len(),
            pending@ == views(changed@).take(i as int).to_set(),
        decreases changed@.len() - i,
    {
        proof {
            lemma_take_contains(views(changed@), i as int);
            assert(views(changed@).take(i + 1).to_set() =~= views(changed@).take(
                i as int,
            ).to_set().insert(changed@[i as int]@));
        }
        pending.insert(changed[i].clone());
        i = i + 1;
    }
    assert(views(changed@).take(i as int) =~= views(changed@));
    let ids = pending.to_list();
    let mut r: Vec<Message> = Vec::new();
    let mut k: usize = 0;
    assert(woken(r@) =~= views(ids@).take(0));
    while k < ids.len()
        invariant
            k <= ids@.len(),
            forall|i: int| 0 <= i < r@.len() ==> #[trigger] r@[i] is WakeShare,
            woken(r@) == views(ids@).take(k as int),
        decreases ids@.len() - k,
    {
        let ghost sent = r@;
        let m = Message::WakeShare { share_id: ids[k].clone() };
        r.push(m);
        proof {
            assert(woken(sent.push(m)) =~= woken(sent).push(ids@[k as int]@));
            assert(views(ids@).take(k + 1) =~= views(ids@).take(k as int).push(ids@[k as int]@));
        }
        k = k + 1;
    }
    assert(views(ids@).take(k as int) =~= views(ids@));
    r
}

/// The phone's word that it has forgotten the PC.
pub fn unlink_acknowledged(message: &Message) -> (r: Result<(), SessionError>)
    ensures
        r is Ok <==> message is UnlinkAck,
        r is Err ==> r->Err_0 == SessionError::UnlinkUnacknowledged,
{
    match message {
        Message::UnlinkAck => Ok(()),
        _ => Err(SessionError::UnlinkUnacknowledged),
    }
}

/// The phone's word that it can synchronise the Share it was asked for.
pub fn share_ready(message: &Message) -> (r: Result<(), SessionError>)
    ensures
        r is Ok <==> message is Ready,
        r is Err ==> r->Err_0 == SessionError::ShareNotReady,
{
    match message {
        Message::Ready => Ok(()),
        _ => Err(SessionError::ShareNotReady),
    }
}

/// What a Share that failed was doing, for the record.
pub fn failed_operation(share: &ShareConfig) -> (r: &'static str)
    ensures
        r@ == if share@.remap_policy is Some {
            "remap"@
        } else {
            "sync"@
        },
{
    match share.remap_policy {
        Some(_) => "remap",
        None => "sync",
    }
}

/// What follows from the failure of a Share: the round ends if the phone was
/// asked for the Share already, otherwise the phone is told to leave it out.
pub fn after_failure(share: &ShareConfig, selected: bool, reason: &str) -> (r: Option<Message>)
    ensures
        r is None <==> selected,
        r is Some ==> (r->0 matches Message::ShareSkipped { share_id, reason: told } && share_id@
            == share@.share_id && told@ == reason@),
{
    if selected {
        return None;
    }
    Some(
        Message::ShareSkipped { share_id: share.share_id.clone(), reason: reason.to_string() },
    )
}

/// How long progress stays unreported.
pub const PROGRESS_MS: u64 = 250;

/// Whether progress is reported: of the end, which names no path, always; of a
/// path if nothing was reported for [`PROGRESS_MS`].
pub fn progress_due(path: &str, since_ms: Option<u64>) -> (r: bool)
    ensures
        r == (path@.len() == 0 || since_ms is None || since_ms->0 >= PROGRESS_MS),
{
    if path.unicode_len() == 0 {
        return true;
    }
    match since_ms {
        None => true,
        Some(ms) => ms >= PROGRESS_MS,
    }
}

/// Whether the Share that was to come first has had its turn.
pub fn next_served(next: &Option<String>, processed: usize) -> (r: bool)
    ensures
        r == (*next is Some && processed > 0),
{
    next.is_some() && processed > 0
}

/// What ends a round before any Share is served: nothing is synchronised while
/// synchronisation is paused as a whole.
pub fn paused_reply(config: &DeviceConfig) -> (r: Option<Message>)
    ensures
        r == if config@.sync_paused {
            Some(Message::SessionDone)
        } else {
            None
        },
{
    if config.sync_paused {
        Some(Message::SessionDone)
    } else {
        None
    }
}

/// The policy of the PC reaches the phone: a Share that is on and whose policy
/// was read is on for the phone and carries that very text, so that the phone
/// leaves alone what the PC leaves alone; its name, mode, revision and the rest
/// are those of the Share. A Share that is off, or whose policy cannot be read,
/// is off for the phone.
pub proof fn law_policy_reaches_the_phone(s: ShareView, text: Chars, path: Chars, directory: bool)
    ensures
        ({
            let d = advertised(s, Some(text));
            let hidden = advertised(s, None);
            &&& s.enabled ==> d.enabled && d.ignore_rules == text
            &&& s.enabled ==> (crate::ignore::ignored(
                crate::ignore::patterns_of(crate::text::lines_of(d.ignore_rules)),
                path,
                directory,
            ) <==> crate::ignore::ignored(
                crate::ignore::patterns_of(crate::text::lines_of(text)),
                path,
                directory,
            ))
            &&& !s.enabled ==> !d.enabled
            &&& !hidden.enabled
            &&& d.share_id == s.share_id && hidden.share_id == s.share_id
            &&& d.name == s.name && d.mode == s.mode && d.binding_revision == s.binding_revision
            &&& d.request_id == s.request_id && d.remap_policy == s.remap_policy
            &&& hidden.name == s.name && hidden.mode == s.mode && hidden.binding_revision
                == s.binding_revision && hidden.remap_policy == s.remap_policy && hidden.request_id
                == s.request_id
        }),
{
}

/// A list holds a request with this identity.
pub open spec fn holds_request(list: Seq<RequestView>, id: Chars) -> bool {
    exists|k: int| 0 <= k < list.len() && (#[trigger] list[k]).request_id == id
}

/// A Share came from the request with this identity.
pub open spec fn came_from(shares: Seq<ShareView>, id: Chars) -> bool {
    exists|k: int| 0 <= k < shares.len() && (#[trigger] shares[k]).request_id == Some(id)
}

proof fn lemma_request_found(list: Seq<RequestView>, id: Chars)
    ensures
        find_request(list, id) is Some <==> holds_request(list, id),
        find_request(list, id) is Some ==> list.contains(find_request(list, id)->0) && find_request(
            list,
            id,
        )->0.request_id == id,
    decreases list.len(),
{
    if list.len() > 0 {
        let less = list.drop_last();
        lemma_request_found(less, id);
        if holds_request(less, id) {
            let k = choose|k: int| 0 <= k < less.len() && (#[trigger] less[k]).request_id == id;
            assert(list[k].request_id == id);
            let x = find_request(less, id)->0;
            let m = choose|m: int| 0 <= m < less.len() && less[m] == x;
            assert(list[m] == x);
        } else {
            if holds_request(list, id) {
                let k = choose|k: int| 0 <= k < list.len() && (#[trigger] list[k]).request_id == id;
                if k < less.len() {
                    assert(less[k].request_id == id);
                }
            }
            if list.last().request_id == id {
                assert(list[list.len() - 1].request_id == id);
            }
        }
    }
}

proof fn lemma_accepted_found(shares: Seq<ShareView>, id: Chars)
    ensures
        find_accepted(shares, id) is Some <==> came_from(shares, id),
        find_accepted(shares, id) is Some ==> shares.contains(find_accepted(shares, id)->0)
            && find_accepted(shares, id)->0.request_id == Some(id),
    decreases shares.len(),
{
    if shares.len() > 0 {
        let less = shares.drop_last();
        lemma_accepted_found(less, id);
        if came_from(less, id) {
            let k = choose|k: int| 0 <= k < less.len() && (#[trigger] less[k]).request_id == Some(id);
            assert(shares[k].request_id == Some(id));
            let x = find_accepted(less, id)->0;
            let m = choose|m: int| 0 <= m < less.len() && less[m] == x;
            assert(shares[m] == x);
        } else {
            if came_from(shares, id) {
                let k = choose|k: int|
                    0 <= k < shares.len() && (#[trigger] shares[k]).request_id == Some(id);
                if k < less.len() {
                    assert(less[k].request_id == Some(id));
                }
            }
            if shares.last().request_id == Some(id) {
                assert(shares[shares.len() - 1].request_id == Some(id));
            }
        }
    }
}

/// A pass over requests files those that nothing is known of, behind those that
/// are open, and tells of the others what became of them.
proof fn lemma_filed(s: Settling, shares: Seq<ShareView>, requests: Seq<RequestView>)
    requires
        requests_settled(s, shares, requests) is Ok,
        request_ids(requests).no_duplicates(),
    ensures
        ({
            let t = requests_settled(s, shares, requests)->Ok_0;
            &&& t.refused == s.refused
            &&& s.open.is_prefix_of(t.open)
            &&& forall|k: int| #![trigger t.open[k]]
                s.open.len() <= k < t.open.len() ==> requests.contains(t.open[k]) && !came_from(
                    shares,
                    t.open[k].request_id,
                ) && !holds_request(s.refused, t.open[k].request_id) && !holds_request(
                    s.open,
                    t.open[k].request_id,
                )
            &&& forall|i: int| #![trigger requests[i]]
                0 <= i < requests.len() ==> {
                    let id = requests[i].request_id;
                    &&& came_from(shares, id) ==> t.accepted.contains(id)
                    &&& !came_from(shares, id) && holds_request(s.refused, id)
                        ==> t.rejected.contains(id)
                    &&& !came_from(shares, id) && !holds_request(s.refused, id) && !holds_request(
                        s.open,
                        id,
                    ) ==> t.open.contains(requests[i])
                }
            &&& forall|id: Chars| #[trigger]
                t.accepted.contains(id) ==> s.accepted.contains(id) || (request_ids(
                    requests,
                ).contains(id) && came_from(shares, id))
            &&& forall|id: Chars| #[trigger]
                t.rejected.contains(id) ==> s.rejected.contains(id) || (request_ids(
                    requests,
                ).contains(id) && holds_request(s.refused, id) && !came_from(shares, id))
        }),
    decreases requests.len(),
{
    if requests.len() > 0 {
        let less = requests.drop_last();
        let r = requests.last();
        let n = requests.len() - 1;
        let ids = request_ids(requests);
        assert(request_ids(less) =~= ids.drop_last());
        lemma_filed(s, shares, less);
        let m = requests_settled(s, shares, less)->Ok_0;
        let t = requests_settled(s, shares, requests)->Ok_0;
        let id = r.request_id;
        assert(ids[n] == id);
        lemma_request_found(m.refused, id);
        lemma_request_found(m.open, id);
        lemma_accepted_found(shares, id);
        assert forall|x: Chars| request_ids(less).contains(x) implies ids.contains(x) && x != id by {
            let k = choose|k: int| 0 <= k < less.len() && request_ids(less)[k] == x;
            assert(ids[k] == x);
        }
        assert(ids.contains(id));
        assert(holds_request(m.open, id) <==> holds_request(s.open, id)) by {
            if holds_request(s.open, id) {
                let k = choose|k: int|
                    0 <= k < s.open.len() && (#[trigger] s.open[k]).request_id == id;
                assert(m.open[k].request_id == id);
            }
            if holds_request(m.open, id) && !holds_request(s.open, id) {
                let k = choose|k: int|
                    0 <= k < m.open.len() && (#[trigger] m.open[k]).request_id == id;
                if k < s.open.len() {
                    assert(s.open[k].request_id == id);
                } else {
                    let q = choose|q: int| 0 <= q < less.len() && less[q] == m.open[k];
                    assert(request_ids(less)[q] == id);
                }
            }
        }
        assert forall|k: int| #![trigger t.open[k]]
            s.open.len() <= k < t.open.len() implies requests.contains(t.open[k]) && !came_from(
            shares,
            t.open[k].request_id,
        ) && !holds_request(s.refused, t.open[k].request_id) && !holds_request(
            s.open,
            t.open[k].request_id,
        ) by {
            if k < m.open.len() {
                assert(t.open[k] == m.open[k]);
                let q = choose|q: int| 0 <= q < less.len() && less[q] == m.open[k];
                assert(requests[q] == m.open[k]);
            } else {
                assert(requests[n] == t.open[k]);
            }
        }
        assert forall|i: int| #![trigger requests[i]] 0 <= i < requests.len() implies {
            let x = requests[i].request_id;
            &&& came_from(shares, x) ==> t.accepted.contains(x)
            &&& !came_from(shares, x) && holds_request(s.refused, x) ==> t.rejected.contains(x)
            &&& !came_from(shares, x) && !holds_request(s.refused, x) && !holds_request(s.open, x)
                ==> t.open.contains(requests[i])
        } by {
            let x = requests[i].request_id;
            if i < n {
                assert(less[i] == requests[i]);
                if m.accepted.contains(x) {
                    let k = choose|k: int| 0 <= k < m.accepted.len() && m.accepted[k] == x;
                    assert(t.accepted[k] == x);
                }
                if m.rejected.contains(x) {
                    let k = choose|k: int| 0 <= k < m.rejected.len() && m.rejected[k] == x;
                    assert(t.rejected[k] == x);
                }
                if m.open.contains(requests[i]) {
                    let k = choose|k: int| 0 <= k < m.open.len() && m.open[k] == requests[i];
                    assert(t.open[k] == requests[i]);
                }
            } else {
                if came_from(shares, x) {
                    assert(t.accepted.last() == x);
                } else if holds_request(s.refused, x) {
                    assert(t.rejected.last() == x);
                } else if !holds_request(s.open, x) {
                    assert(t.open.last() == requests[i]);
                }
            }
        }
        assert forall|x: Chars| #[trigger] t.accepted.contains(x) implies s.accepted.contains(x) || (
        ids.contains(x) && came_from(shares, x)) by {
            let k = choose|k: int| 0 <= k < t.accepted.len() && t.accepted[k] == x;
            if k < m.accepted.len() {
                assert(m.accepted[k] == x);
                assert(m.accepted.contains(x));
            }
        }
        assert forall|x: Chars| #[trigger] t.rejected.contains(x) implies s.rejected.contains(x) || (
        ids.contains(x) && holds_request(s.refused, x) && !came_from(shares, x)) by {
            let k = choose|k: int| 0 <= k < t.rejected.len() && t.rejected[k] == x;
            if k < m.rejected.len() {
                assert(m.rejected[k] == x);
                assert(m.rejected.contains(x));
            }
        }
    }
}

/// Leaving requests out keeps the others in their order.
pub proof fn law_leaving_out_requests(
    a: Seq<RequestView>,
    b: Seq<RequestView>,
    r: RequestView,
    ids: Set<Chars>,
)
    ensures
        without_ids(a + b, ids) == without_ids(a, ids) + without_ids(b, ids),
        ids.contains(r.request_id) ==> without_ids(seq![r], ids) == Seq::<RequestView>::empty(),
        !ids.contains(r.request_id) ==> without_ids(seq![r], ids) == seq![r],
    decreases b.len(),
{
    let one = seq![r];
    assert(one.drop_last() =~= Seq::empty());
    assert(without_ids(one.drop_last(), ids) == Seq::<RequestView>::empty());
    assert(without_ids(one, ids) =~= if ids.contains(r.request_id) {
        Seq::<RequestView>::empty()
    } else {
        one
    });
    if b.len() == 0 {
        assert(a + b =~= a);
        assert(without_ids(a, ids) + without_ids(b, ids) =~= without_ids(a, ids));
    } else {
        law_leaving_out_requests(a, b.drop_last(), r, ids);
        assert((a + b).drop_last() =~= a + b.drop_last());
        assert((a + b).last() == b.last());
        assert(without_ids(a + b, ids) =~= without_ids(a, ids) + without_ids(b, ids));
    }
}

proof fn lemma_left(list: Seq<RequestView>, ids: Set<Chars>)
    ensures
        forall|r: RequestView| #[trigger]
            without_ids(list, ids).contains(r) <==> list.contains(r) && !ids.contains(r.request_id),
    decreases list.len(),
{
    if list.len() > 0 {
        let less = list.drop_last();
        lemma_left(less, ids);
        let rest = without_ids(less, ids);
        let all = without_ids(list, ids);
        assert forall|r: RequestView| #[trigger] all.contains(r) <==> list.contains(r)
            && !ids.contains(r.request_id) by {
            if rest.contains(r) {
                let k = choose|k: int| 0 <= k < rest.len() && rest[k] == r;
                assert(all[k] == r);
                let m = choose|m: int| 0 <= m < less.len() && less[m] == r;
                assert(list[m] == r);
            }
            if all.contains(r) && !rest.contains(r) {
                let k = choose|k: int| 0 <= k < all.len() && all[k] == r;
                if k < rest.len() {
                    assert(rest[k] == r);
                }
                assert(list[list.len() - 1] == r);
            }
            if list.contains(r) && !ids.contains(r.request_id) {
                let k = choose|k: int| 0 <= k < list.len() && list[k] == r;
                if k < less.len() {
                    assert(less[k] == r);
                    assert(less.contains(r));
                } else {
                    assert(all[rest.len() as int] == r);
                }
            }
        }
    }
}

/// What becomes of a request of the phone: where a Share came from it, the
/// phone is told that it was accepted; where it was rejected, that; where
/// nothing is known of it, it is open from now on, just as the phone sent it.
/// The phone is told nothing else. Open requests stay open unless they were
/// cancelled, and no Share changes.
pub proof fn law_requests_are_answered(
    c: ConfigView,
    requests: Seq<RequestView>,
    cancels: Seq<Chars>,
    i: int,
)
    requires
        request_ids(requests).no_duplicates(),
        apart(cancels, request_ids(requests)),
        settled_requests(c, requests, cancels) is Ok,
        0 <= i < requests.len(),
    ensures
        ({
            let (after, told) = settled_requests(c, requests, cancels)->Ok_0;
            let r = requests[i];
            let accepted = came_from(c.shares, r.request_id);
            let refused = holds_request(c.rejected_requests, r.request_id);
            let open = holds_request(c.share_requests, r.request_id);
            &&& told.accepted.contains(r.request_id) <==> accepted
            &&& told.rejected.contains(r.request_id) <==> refused && !accepted
            &&& !accepted && !refused && !open ==> after.share_requests.contains(r)
            &&& forall|k: int| #![trigger c.share_requests[k]]
                0 <= k < c.share_requests.len() && !cancels.contains(c.share_requests[k].request_id)
                    ==> after.share_requests.contains(c.share_requests[k])
            &&& forall|x: RequestView| #[trigger]
                after.share_requests.contains(x) ==> c.share_requests.contains(x)
                    || requests.contains(x)
            &&& forall|x: RequestView| #[trigger]
                after.rejected_requests.contains(x) ==> c.rejected_requests.contains(x)
            &&& after == (ConfigView {
                share_requests: after.share_requests,
                rejected_requests: after.rejected_requests,
                ..c
            })
        }),
{
    let dead = cancels.to_set();
    let first = uncancelled(c, cancels);
    let (after, told) = settled_requests(c, requests, cancels)->Ok_0;
    lemma_filed(first, c.shares, requests);
    lemma_left(c.share_requests, dead);
    lemma_left(c.rejected_requests, dead);
    let id = requests[i].request_id;
    assert(request_ids(requests)[i] == id);
    assert(!cancels.contains(id)) by {
        if cancels.contains(id) {
            let k = choose|k: int| 0 <= k < cancels.len() && cancels[k] == id;
            assert(request_ids(requests).contains(cancels[k]));
        }
    }
    lemma_same_holder(c.share_requests, dead, id);
    lemma_same_holder(c.rejected_requests, dead, id);
    lemma_left(told.refused, request_ids(requests).to_set().complement());
    assert forall|k: int| #![trigger c.share_requests[k]]
        0 <= k < c.share_requests.len() && !cancels.contains(
            c.share_requests[k].request_id,
        ) implies after.share_requests.contains(c.share_requests[k]) by {
        let x = c.share_requests[k];
        assert(c.share_requests.contains(x));
        assert(first.open.contains(x));
        let m = choose|m: int| 0 <= m < first.open.len() && first.open[m] == x;
        assert(after.share_requests[m] == x);
    }
    assert forall|x: RequestView| #[trigger] after.share_requests.contains(
        x,
    ) implies c.share_requests.contains(x) || requests.contains(x) by {
        let m = choose|m: int| 0 <= m < after.share_requests.len() && after.share_requests[m] == x;
        if m < first.open.len() {
            assert(first.open[m] == x);
            assert(first.open.contains(x));
        } else {
            assert(told.open[m] == x);
        }
    }
    assert(!first.accepted.contains(id) && !first.rejected.contains(id));
}

proof fn lemma_same_holder(list: Seq<RequestView>, ids: Set<Chars>, id: Chars)
    requires
        !ids.contains(id),
    ensures
        holds_request(without_ids(list, ids), id) <==> holds_request(list, id),
{
    lemma_find_without(list, ids, id);
    lemma_request_found(list, id);
    lemma_request_found(without_ids(list, ids), id);
}

/// The Shares that a round deals with are those that are on, asked for and
/// reachable, and only the next one after a round that was cut short; in the
/// order of the configuration.
pub proof fn law_ready_shares(
    a: Seq<ShareView>,
    b: Seq<ShareView>,
    s: ShareView,
    requested: Seq<Chars>,
    available: Set<Chars>,
    next: Option<Chars>,
)
    ensures
        ready_list(a + b, requested, available, next) == ready_list(a, requested, available, next)
            + ready_list(b, requested, available, next),
        ready_list(seq![s], requested, available, next) == if s.enabled && requested.contains(
            s.share_id,
        ) && available.contains(s.share_id) && (next is None || next == Some(s.share_id)) {
            seq![s]
        } else {
            Seq::empty()
        },
        ready_list(Seq::empty(), requested, available, next) == Seq::<ShareView>::empty(),
    decreases b.len(),
{
    let one = seq![s];
    assert(one.drop_last() =~= Seq::empty());
    assert(ready_list(one.drop_last(), requested, available, next) == Seq::<ShareView>::empty());
    assert(ready_list(one, requested, available, next) =~= if is_ready(
        s,
        requested,
        available,
        next,
    ) {
        one
    } else {
        Seq::empty()
    });
    if b.len() == 0 {
        assert(a + b =~= a);
        assert(ready_list(a + b, requested, available, next) =~= ready_list(
            a,
            requested,
            available,
            next,
        ) + ready_list(b, requested, available, next));
    } else {
        law_ready_shares(a, b.drop_last(), s, requested, available, next);
        assert((a + b).drop_last() =~= a + b.drop_last());
        assert((a + b).last() == b.last());
        assert(ready_list(a + b, requested, available, next) =~= ready_list(
            a,
            requested,
            available,
            next,
        ) + ready_list(b, requested, available, next));
    }
}

/// The Shares that wait are those that are on and not reachable on the phone,
/// by their names and in the order of the configuration.
pub proof fn law_waiting_shares(
    a: Seq<ShareView>,
    b: Seq<ShareView>,
    s: ShareView,
    available: Set<Chars>,
)
    ensures
        waiting_list(a + b, available) == waiting_list(a, available) + waiting_list(b, available),
        waiting_list(seq![s], available) == if s.enabled && !available.contains(s.share_id) {
            seq![s.name]
        } else {
            Seq::empty()
        },
        waiting_list(Seq::empty(), available) == Seq::<Chars>::empty(),
    decreases b.len(),
{
    let one = seq![s];
    assert(one.drop_last() =~= Seq::empty());
    assert(waiting_list(one.drop_last(), available) == Seq::<Chars>::empty());
    assert(waiting_list(one, available) =~= if s.enabled && !available.contains(s.share_id) {
        seq![s.name]
    } else {
        Seq::empty()
    });
    if b.len() == 0 {
        assert(a + b =~= a);
        assert(waiting_list(a + b, available) =~= waiting_list(a, available) + waiting_list(
            b,
            available,
        ));
    } else {
        law_waiting_shares(a, b.drop_last(), s, available);
        assert((a + b).drop_last() =~= a + b.drop_last());
        assert((a + b).last() == b.last());
        assert(waiting_list(a + b, available) =~= waiting_list(a, available) + waiting_list(
            b,
            available,
        ));
    }
}

/// An audit gives way to an urgent change, once: it is cut short exactly where
/// something urgent waits, Shares are left, and it was not cut short before. A
/// round that is no audit never is.
pub proof fn law_audit_gives_way_once(s: ServerView, urgent: Map<Chars, bool>, id: Chars)
    requires
        urgent.dom().finite(),
        urgent.dom().contains(id),
    ensures
        s.audit && !s.preempted && s.index < s.ready.len() ==> cut_short(s, urgent),
        !s.audit || s.preempted || s.index >= s.ready.len() ==> !cut_short(s, urgent),
        !cut_short(s, Map::empty()),
{
    assert(urgent.dom().len() > 0) by {
        if urgent.dom().len() == 0 {
            assert(urgent.dom() =~= Set::empty());
        }
    }
}

/// What was remapped needs no remapping any more; every other Share, and
/// everything else of those, stays as it was.
pub proof fn law_remap_is_done_once(shares: Seq<ShareView>, done: Seq<Chars>, i: int)
    requires
        0 <= i < shares.len(),
    ensures
        ({
            let after = remapped(shares, done);
            &&& after.len() == shares.len()
            &&& done.contains(shares[i].share_id) ==> after[i].remap_policy is None
            &&& !done.contains(shares[i].share_id) ==> after[i] == shares[i]
            &&& after[i] == (ShareView { remap_policy: after[i].remap_policy, ..shares[i] })
        }),
{
}

/// The counters of a round add up: a Share more, one that changed if anything
/// was moved or in conflict, its bytes, and its own numbers under its identity.
/// The first byte counts from the first Share that has one.
pub proof fn law_round_counters_add_up(
    m: MetricsView,
    id: Chars,
    other: Chars,
    report: Report,
    wait_ms: u128,
)
    requires
        m.shares_processed < usize::MAX,
        m.shares_changed < usize::MAX,
        m.bytes_transferred + report.metrics.bytes_transferred <= u64::MAX,
        report.metrics.first_byte_ms is Some ==> wait_ms + report.metrics.first_byte_ms->0
            <= u128::MAX,
        other != id,
    ensures
        ({
            let t = tallied(m, id, report, wait_ms);
            let quiet = report.transferred == 0 && report.conflicts == 0;
            &&& t.shares_processed == m.shares_processed + 1
            &&& quiet ==> t.shares_changed == m.shares_changed
            &&& !quiet ==> t.shares_changed == m.shares_changed + 1
            &&& t.bytes_transferred == m.bytes_transferred + report.metrics.bytes_transferred
            &&& t.per_share.dom().contains(id)
            &&& t.per_share[id].share_queue_wait_ms == wait_ms
            &&& t.per_share[id] == (ShareMetrics { share_queue_wait_ms: wait_ms, ..report.metrics })
            &&& t.per_share.dom().contains(other) == m.per_share.dom().contains(other)
            &&& m.per_share.dom().contains(other) ==> t.per_share[other] == m.per_share[other]
            &&& m.ttfb_ms is Some ==> t.ttfb_ms == m.ttfb_ms
            &&& m.ttfb_ms is None && report.metrics.first_byte_ms is None ==> t.ttfb_ms is None
            &&& m.ttfb_ms is None && report.metrics.first_byte_ms is Some ==> t.ttfb_ms is Some
                && t.ttfb_ms->0 == wait_ms + report.metrics.first_byte_ms->0
            &&& t.total_ms == m.total_ms
        }),
{
}

proof fn lemma_requested_sound(requested: Seq<Chars>, available: Set<Chars>, i: int)
    requires
        0 <= i,
    ensures
        requested_fault(requested, available, i) is None <==> forall|k: int|
            i <= k < requested.len() ==> valid_hash(#[trigger] requested[k]) && available.contains(
                requested[k],
            ),
    decreases requested.len() - i,
{
    if i < requested.len() {
        lemma_requested_sound(requested, available, i + 1);
        if requested_fault(requested, available, i) is None {
            assert forall|k: int| i <= k < requested.len() implies valid_hash(
                #[trigger] requested[k],
            ) && available.contains(requested[k]) by {}
        }
    }
}

proof fn lemma_offered_sound(order: Seq<Chars>, shares: Seq<ShareView>, i: int)
    requires
        0 <= i,
    ensures
        offered_fault(order, shares, i) is None <==> forall|k: int|
            i <= k < order.len() ==> valid_hash(#[trigger] order[k]) && position(
                shares,
                order[k],
            ) is Some,
    decreases order.len() - i,
{
    if i < order.len() {
        lemma_offered_sound(order, shares, i + 1);
        if offered_fault(order, shares, i) is None {
            assert forall|k: int| i <= k < order.len() implies valid_hash(#[trigger] order[k])
                && position(shares, order[k]) is Some by {}
        }
    }
}

/// What the phone says of itself is taken as it is, where it is sound: the
/// phone is the paired one, nobody wants to unlink, it asks only for Shares
/// that it can reach, it reaches only Shares of the configuration, and its
/// requests and cancellations name each request once. Anything else is
/// refused, but for a wish to unlink, which comes first.
pub proof fn law_sound_phone_proceeds(
    m: Message,
    device: Chars,
    c: ConfigView,
    r: Result<Capable, SessionError>,
)
    requires
        m is Capabilities,
        answered(m, device, c, r),
    ensures
        ({
            let available = views(m->available_shares@);
            let requested = views(m->requested_share_ids@);
            let requests = request_ids(seen(m->share_requests@));
            let cancels = views(m->cancel_intents@);
            let same_phone = m->Capabilities_device_id@ == device;
            let unlink = c.pending_unlink || m->unlink_requested;
            let reachable = forall|k: int|
                0 <= k < requested.len() ==> valid_hash(#[trigger] requested[k])
                    && available.contains(requested[k]);
            let known = forall|id: Chars| #[trigger]
                available.contains(id) ==> valid_hash(id) && exists|k: int|
                    0 <= k < c.shares.len() && (#[trigger] c.shares[k]).share_id == id;
            let once = requests.no_duplicates() && cancels.no_duplicates() && forall|k: int|
                0 <= k < cancels.len() ==> !requests.contains(#[trigger] cancels[k]);
            &&& !same_phone ==> r is Err
            &&& same_phone && unlink ==> r is Ok && r->Ok_0 is Unlink
            &&& same_phone && !unlink ==> (r is Ok <==> reachable && known && once)
            &&& same_phone && !unlink && r is Ok ==> r->Ok_0 is Proceed && {
                let o = r->Ok_0->Proceed_0;
                &&& seen(o.share_requests@) == seen(m->share_requests@)
                &&& views(o.cancel_intents@) == cancels
                &&& o.available@ == available.to_set()
                &&& views(o.requested@) == requested
                &&& o.audit == m->audit
            }
        }),
{
    let list = views(m->available_shares@);
    let available = list.to_set();
    let requested = views(m->requested_share_ids@);
    let same_phone = m->Capabilities_device_id@ == device;
    let unlink = c.pending_unlink || m->unlink_requested;
    lemma_requested_sound(requested, available, 0);
    assert forall|id: Chars| available.contains(id) == list.contains(id) by {}
    if same_phone && !unlink && requested_fault(requested, available, 0) is None {
        let order = choose|order: Seq<Chars>|
            lists(order, available) && match #[trigger] offered_fault(order, c.shares, 0) {
                Some(e) => r == Err::<Capable, SessionError>(e),
                None => match lists_fault(
                    seen(m->share_requests@),
                    views(m->cancel_intents@),
                ) {
                    Some(e) => r == Err::<Capable, SessionError>(e),
                    None => r matches Ok(Capable::Proceed(o)) && seen(o.share_requests@) == seen(
                        m->share_requests@,
                    ) && views(o.cancel_intents@) == views(m->cancel_intents@) && o.available@
                        == available && views(o.requested@) == requested && o.audit == m->audit,
                },
            };
        lemma_offered_sound(order, c.shares, 0);
        assert forall|id: Chars| #[trigger] list.contains(id) implies order.contains(id) by {
            assert(available.contains(id));
        }
        if offered_fault(order, c.shares, 0) is None {
            assert forall|id: Chars| #[trigger] list.contains(id) implies valid_hash(id) && exists|
                k: int,
            |
                0 <= k < c.shares.len() && (#[trigger] c.shares[k]).share_id == id by {
                assert(order.contains(id));
                let k = choose|k: int| 0 <= k < order.len() && order[k] == id;
                assert(valid_hash(order[k]));
                crate::device::lemma_position(c.shares, id);
                let at = position(c.shares, id)->0;
                assert(c.shares[at].share_id == id);
            }
        } else {
            let k = choose|k: int|
                0 <= k < order.len() && !(valid_hash(#[trigger] order[k]) && position(
                    c.shares,
                    order[k],
                ) is Some);
            crate::device::lemma_position(c.shares, order[k]);
            assert(order.contains(order[k]));
            assert(available.contains(order[k]));
            assert(list.contains(order[k]));
        }
    }
}

proof fn lemma_taken(s: Settling, shares: Seq<ShareView>, requests: Seq<RequestView>)
    requires
        request_ids(requests).no_duplicates(),
        forall|i: int| #![trigger requests[i]]
            0 <= i < requests.len() ==> valid_hash(requests[i].request_id) && sound_name(
                requests[i].name,
            ),
        forall|i: int, k: int| #![trigger requests[i], s.open[k]]
            0 <= i < requests.len() && 0 <= k < s.open.len() && s.open[k].request_id
                == requests[i].request_id ==> s.open[k].name == requests[i].name && s.open[k].mode
                == requests[i].mode,
        forall|i: int, k: int| #![trigger requests[i], s.refused[k]]
            0 <= i < requests.len() && 0 <= k < s.refused.len() && s.refused[k].request_id
                == requests[i].request_id ==> s.refused[k].name == requests[i].name
                && s.refused[k].mode == requests[i].mode,
        forall|i: int, k: int| #![trigger requests[i], shares[k]]
            0 <= i < requests.len() && 0 <= k < shares.len() && shares[k].request_id == Some(
                requests[i].request_id,
            ) ==> shares[k].name == requests[i].name && shares[k].mode == requests[i].mode,
    ensures
        requests_settled(s, shares, requests) is Ok,
        requests_settled(s, shares, requests)->Ok_0.open.len() <= s.open.len() + requests.len(),
    decreases requests.len(),
{
    if requests.len() > 0 {
        let less = requests.drop_last();
        let n = requests.len() - 1;
        let ids = request_ids(requests);
        assert(request_ids(less) =~= ids.drop_last());
        assert forall|i: int| #![trigger less[i]] 0 <= i < less.len() implies less[i]
            == requests[i] by {}
        lemma_taken(s, shares, less);
        lemma_filed(s, shares, less);
        let m = requests_settled(s, shares, less)->Ok_0;
        let r = requests[n];
        let id = r.request_id;
        let both = m.open + m.refused;
        lemma_request_found(both, id);
        lemma_accepted_found(shares, id);
        if find_request(both, id) is Some {
            let x = find_request(both, id)->0;
            let k = choose|k: int| 0 <= k < both.len() && both[k] == x;
            if k >= m.open.len() {
                assert(s.refused[k - m.open.len()] == x);
            } else if k < s.open.len() {
                assert(m.open[k] == s.open[k]);
                assert(s.open[k] == x);
            } else {
                assert(m.open[k] == x);
                let q = choose|q: int| 0 <= q < less.len() && less[q] == x;
                assert(ids[q] == id && ids[n] == id);
            }
            assert(x.name == r.name && x.mode == r.mode);
        }
        if find_accepted(shares, id) is Some {
            let x = find_accepted(shares, id)->0;
            let k = choose|k: int| 0 <= k < shares.len() && shares[k] == x;
            assert(shares[k].request_id == Some(id));
        }
    }
}

proof fn lemma_fewer(list: Seq<RequestView>, ids: Set<Chars>)
    ensures
        without_ids(list, ids).len() <= list.len(),
    decreases list.len(),
{
    if list.len() > 0 {
        lemma_fewer(list.drop_last(), ids);
    }
}

/// Sound requests are taken: their identities and names are sound, each names a
/// request once, none says another thing than what is known of it, and there
/// is room for all of them.
pub proof fn law_sound_requests_are_taken(
    c: ConfigView,
    requests: Seq<RequestView>,
    cancels: Seq<Chars>,
)
    requires
        request_ids(requests).no_duplicates(),
        forall|i: int| 0 <= i < cancels.len() ==> valid_hash(#[trigger] cancels[i]),
        forall|i: int| #![trigger requests[i]]
            0 <= i < requests.len() ==> valid_hash(requests[i].request_id) && sound_name(
                requests[i].name,
            ),
        forall|i: int, k: int| #![trigger requests[i], c.share_requests[k]]
            0 <= i < requests.len() && 0 <= k < c.share_requests.len()
                && c.share_requests[k].request_id == requests[i].request_id
                ==> c.share_requests[k].name == requests[i].name && c.share_requests[k].mode
                == requests[i].mode,
        forall|i: int, k: int| #![trigger requests[i], c.rejected_requests[k]]
            0 <= i < requests.len() && 0 <= k < c.rejected_requests.len()
                && c.rejected_requests[k].request_id == requests[i].request_id
                ==> c.rejected_requests[k].name == requests[i].name && c.rejected_requests[k].mode
                == requests[i].mode,
        forall|i: int, k: int| #![trigger requests[i], c.shares[k]]
            0 <= i < requests.len() && 0 <= k < c.shares.len() && c.shares[k].request_id == Some(
                requests[i].request_id,
            ) ==> c.shares[k].name == requests[i].name && c.shares[k].mode == requests[i].mode,
        c.share_requests.len() + c.rejected_requests.len() + requests.len() <= 512,
    ensures
        settled_requests(c, requests, cancels) is Ok,
{
    let s = uncancelled(c, cancels);
    let dead = cancels.to_set();
    lemma_left(c.share_requests, dead);
    lemma_left(c.rejected_requests, dead);
    lemma_fewer(c.share_requests, dead);
    lemma_fewer(c.rejected_requests, dead);
    assert forall|i: int, k: int| #![trigger requests[i], s.open[k]]
        0 <= i < requests.len() && 0 <= k < s.open.len() && s.open[k].request_id
            == requests[i].request_id implies s.open[k].name == requests[i].name && s.open[k].mode
        == requests[i].mode by {
        assert(s.open.contains(s.open[k]));
        let m = choose|m: int| 0 <= m < c.share_requests.len() && c.share_requests[m] == s.open[k];
        assert(c.share_requests[m] == s.open[k]);
    }
    assert forall|i: int, k: int| #![trigger requests[i], s.refused[k]]
        0 <= i < requests.len() && 0 <= k < s.refused.len() && s.refused[k].request_id
            == requests[i].request_id implies s.refused[k].name == requests[i].name
        && s.refused[k].mode == requests[i].mode by {
        assert(s.refused.contains(s.refused[k]));
        let m = choose|m: int|
            0 <= m < c.rejected_requests.len() && c.rejected_requests[m] == s.refused[k];
        assert(c.rejected_requests[m] == s.refused[k]);
    }
    lemma_taken(s, c.shares, requests);
    lemma_filed(s, c.shares, requests);
    let t = requests_settled(s, c.shares, requests)->Ok_0;
    lemma_fewer(t.refused, request_ids(requests).to_set().complement());
}

proof fn lemma_all_sound(s: Settling, shares: Seq<ShareView>, requests: Seq<RequestView>, i: int)
    requires
        requests_settled(s, shares, requests) is Ok,
        request_ids(requests).no_duplicates(),
        0 <= i < requests.len(),
    ensures
        valid_hash(requests[i].request_id),
        sound_name(requests[i].name),
        forall|k: int| #![trigger shares[k]]
            0 <= k < shares.len() && shares[k].request_id == Some(requests[i].request_id) && (
            forall|m: int|
                0 <= m < k ==> (#[trigger] shares[m]).request_id != Some(requests[i].request_id))
                ==> shares[k].name == requests[i].name && shares[k].mode == requests[i].mode,
        forall|k: int| #![trigger s.open[k]]
            0 <= k < s.open.len() && s.open[k].request_id == requests[i].request_id && (forall|
                m: int,
            |
                0 <= m < k ==> (#[trigger] s.open[m]).request_id != requests[i].request_id)
                ==> s.open[k].name == requests[i].name && s.open[k].mode == requests[i].mode,
    decreases requests.len(),
{
    let less = requests.drop_last();
    let n = requests.len() - 1;
    let ids = request_ids(requests);
    assert(request_ids(less) =~= ids.drop_last());
    if i < n {
        lemma_all_sound(s, shares, less, i);
        assert(less[i] == requests[i]);
    } else {
        lemma_filed(s, shares, less);
        let m = requests_settled(s, shares, less)->Ok_0;
        let id = requests[i].request_id;
        assert forall|k: int| #![trigger shares[k]]
            0 <= k < shares.len() && shares[k].request_id == Some(id) && (forall|q: int|
                0 <= q < k ==> (#[trigger] shares[q]).request_id != Some(id)) implies shares[k].name
            == requests[i].name && shares[k].mode == requests[i].mode by {
            lemma_find_accepted(shares, id, k);
        }
        assert forall|k: int| #![trigger s.open[k]]
            0 <= k < s.open.len() && s.open[k].request_id == id && (forall|q: int|
                0 <= q < k ==> (#[trigger] s.open[q]).request_id != id) implies s.open[k].name
            == requests[i].name && s.open[k].mode == requests[i].mode by {
            let both = m.open + m.refused;
            assert(both[k] == s.open[k]);
            assert forall|q: int| 0 <= q < k implies (#[trigger] both[q]).request_id != id by {
                assert(both[q] == s.open[q]);
            }
            lemma_find_request(both, id, k);
        }
    }
}

/// A request that is not sound, or that says another thing than what is known
/// of it, is not taken, and neither are the others.
pub proof fn law_unsound_requests_are_refused(
    c: ConfigView,
    requests: Seq<RequestView>,
    i: int,
    k: int,
)
    requires
        request_ids(requests).no_duplicates(),
        0 <= i < requests.len(),
        ({
            let r = requests[i];
            ||| !valid_hash(r.request_id)
            ||| !sound_name(r.name)
            ||| 0 <= k < c.shares.len() && c.shares[k].request_id == Some(r.request_id) && (
            c.shares[k].name != r.name || c.shares[k].mode != r.mode) && forall|m: int|
                0 <= m < k ==> (#[trigger] c.shares[m]).request_id != Some(r.request_id)
            ||| 0 <= k < c.share_requests.len() && c.share_requests[k].request_id == r.request_id && (
            c.share_requests[k].name != r.name || c.share_requests[k].mode != r.mode) && forall|
                m: int,
            |
                0 <= m < k ==> (#[trigger] c.share_requests[m]).request_id != r.request_id
        }),
    ensures
        settled_requests(c, requests, Seq::empty()) is Err,
{
    let none = Seq::<Chars>::empty();
    let first = uncancelled(c, none);
    lemma_without_none(c.share_requests, none.to_set());
    lemma_without_none(c.rejected_requests, none.to_set());
    if requests_settled(first, c.shares, requests) is Ok {
        lemma_all_sound(first, c.shares, requests, i);
        assert(first.open == c.share_requests);
    }
}

/// A rejection is remembered just as long as the phone repeats its request, and
/// does not take it back.
pub proof fn law_rejections_last_as_long_as_requests(
    c: ConfigView,
    requests: Seq<RequestView>,
    cancels: Seq<Chars>,
    x: RequestView,
)
    requires
        request_ids(requests).no_duplicates(),
        settled_requests(c, requests, cancels) is Ok,
    ensures
        ({
            let after = settled_requests(c, requests, cancels)->Ok_0.0;
            after.rejected_requests.contains(x) <==> c.rejected_requests.contains(x)
                && !cancels.contains(x.request_id) && exists|i: int|
                0 <= i < requests.len() && (#[trigger] requests[i]).request_id == x.request_id
        }),
{
    let dead = cancels.to_set();
    let first = uncancelled(c, cancels);
    let (after, told) = settled_requests(c, requests, cancels)->Ok_0;
    let ids = request_ids(requests);
    lemma_filed(first, c.shares, requests);
    lemma_left(c.rejected_requests, dead);
    lemma_left(told.refused, ids.to_set().complement());
    assert(ids.contains(x.request_id) <==> exists|i: int|
        0 <= i < requests.len() && (#[trigger] requests[i]).request_id == x.request_id) by {
        if ids.contains(x.request_id) {
            let i = choose|i: int| 0 <= i < ids.len() && ids[i] == x.request_id;
            assert(requests[i].request_id == x.request_id);
        }
        if exists|i: int|
            0 <= i < requests.len() && (#[trigger] requests[i]).request_id == x.request_id {
            let i = choose|i: int|
                0 <= i < requests.len() && (#[trigger] requests[i]).request_id == x.request_id;
            assert(ids[i] == x.request_id);
        }
    }
}

} // verus!
