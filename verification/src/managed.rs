//! The phone's side of a session: which Shares it asks for, what it answers to
//! the PC's messages, and when it tries again without a Share that failed.

use crate::collections::{lemma_take_contains, lists, Duplicate, StringMap, StringSet};
use crate::config::{
    copy_list, seen, DefinitionView, RequestView, ShareDefinition, ShareRequest,
};
use crate::ignore::{ignored, law_every_line_counts, law_folder_pattern, patterns_of};
use crate::model::{
    is_hash, lemma_no_separator, lemma_pieces_concat, path_fault, valid_hash, validate_path, ModelError,
};
use crate::paths::{parts_of, path_parts};
use crate::protocol::Message;
use crate::sync::{no_share_metrics, Report, ShareMetrics};
use crate::text::{
    copy_strings, decimal, join, joined, lemma_pieces_shape, lemma_views_push, lines_of, names, number,
    pieces, same, trimmed, views, without_return, Chars,
};
use vstd::prelude::*;

verus! {

/// How many Shares a device may have.
pub const MAX_SHARES: usize = 256;

/// Why a session ends early.
#[derive(Clone, Debug)]
pub enum ManagedError {
    TooManyShares,
    InvalidIdentity,
    DuplicateIdentity,
    ExpectedConfiguration,
    UnknownAvailable,
    ExpectedStatus,
    UnlinkUnconfirmed,
    UnexpectedSkip,
    UnexpectedSelection,
    UnexpectedMessage,
    /// How many Shares failed, and why each of them did.
    SharesFailed(String),
    InvalidPath(ModelError),
    UnknownShare,
    UnboundShare,
    /// What the device itself reports.
    Device(String),
}

/// What is wrong with the Shares from the `i`th on, if anything is.
pub open spec fn shares_fault_from(ids: Seq<Chars>, i: int) -> Option<ManagedError>
    decreases ids.len() - i,
{
    if i >= ids.len() || i < 0 {
        None
    } else if !valid_hash(ids[i]) {
        Some(ManagedError::InvalidIdentity)
    } else if ids.take(i).contains(ids[i]) {
        Some(ManagedError::DuplicateIdentity)
    } else {
        shares_fault_from(ids, i + 1)
    }
}

/// The identities of Shares.
pub open spec fn share_ids(shares: Seq<DefinitionView>) -> Seq<Chars> {
    shares.map_values(|s: DefinitionView| s.share_id)
}

/// What is wrong with a set of Shares, if anything is.
pub open spec fn shares_fault(shares: Seq<DefinitionView>) -> Option<ManagedError> {
    if shares.len() > MAX_SHARES {
        Some(ManagedError::TooManyShares)
    } else {
        shares_fault_from(share_ids(shares), 0)
    }
}

/// Sound Shares: not too many, each with an identity of its own.
pub open spec fn sound_shares(shares: Seq<DefinitionView>) -> bool {
    &&& shares.len() <= MAX_SHARES
    &&& forall|i: int| 0 <= i < shares.len() ==> valid_hash((#[trigger] shares[i]).share_id)
    &&& share_ids(shares).no_duplicates()
}

proof fn lemma_fault_from(ids: Seq<Chars>, i: int)
    requires
        0 <= i <= ids.len(),
        ids.take(i).no_duplicates(),
        forall|k: int| 0 <= k < i ==> valid_hash(#[trigger] ids[k]),
    ensures
        shares_fault_from(ids, i) is None <==> ids.no_duplicates() && forall|k: int|
            0 <= k < ids.len() ==> valid_hash(#[trigger] ids[k]),
    decreases ids.len() - i,
{
    if i == ids.len() {
        assert(ids.take(i) =~= ids);
    } else if !valid_hash(ids[i]) {
    } else if ids.take(i).contains(ids[i]) {
        let k = choose|k: int| 0 <= k < ids.take(i).len() && ids.take(i)[k] == ids[i];
        assert(ids[k] == ids[i] && k != i);
    } else {
        let more = ids.take(i + 1);
        assert(more.no_duplicates()) by {
            assert forall|a: int, b: int| 0 <= a < b < more.len() implies more[a] != more[b] by {
                if b == i {
                    assert(ids.take(i)[a] == more[a]);
                } else {
                    assert(ids.take(i)[a] == more[a] && ids.take(i)[b] == more[b]);
                }
            }
        }
        lemma_fault_from(ids, i + 1);
    }
}

/// No fault is found exactly where the Shares are sound.
pub proof fn lemma_shares_fault(shares: Seq<DefinitionView>)
    ensures
        shares_fault(shares) is None <==> sound_shares(shares),
{
    let ids = share_ids(shares);
    if shares.len() <= MAX_SHARES {
        assert(ids.take(0) =~= Seq::<Chars>::empty());
        lemma_fault_from(ids, 0);
        if ids.no_duplicates() && forall|k: int| 0 <= k < ids.len() ==> valid_hash(
            #[trigger] ids[k],
        ) {
            assert forall|i: int| 0 <= i < shares.len() implies valid_hash(
                (#[trigger] shares[i]).share_id,
            ) by {
                assert(valid_hash(ids[i]));
            }
        }
        if sound_shares(shares) {
            assert forall|k: int| 0 <= k < ids.len() implies valid_hash(#[trigger] ids[k]) by {
                assert(valid_hash(shares[k].share_id));
            }
        }
    }
}

/// Refuses Shares that are too many or share an identity.
pub fn validate_shares(shares: &Vec<ShareDefinition>) -> (r: Result<(), ManagedError>)
    ensures
        r is Ok <==> sound_shares(seen(shares@)),
        r is Err ==> Some(r->Err_0) == shares_fault(seen(shares@)),
{
    let ghost ids = share_ids(seen(shares@));
    proof {
        lemma_shares_fault(seen(shares@));
    }
    if shares.len() > MAX_SHARES {
        return Err(ManagedError::TooManyShares);
    }
    let mut known = StringSet::new();
    let mut i: usize = 0;
    assert(ids.take(0) =~= Seq::<Chars>::empty());
    while i < shares.len()
        invariant
            i <= shares@.len() <= MAX_SHARES,
            ids == share_ids(seen(shares@)),
            known@ == ids.take(i as int).to_set(),
            shares_fault(seen(shares@)) == shares_fault_from(ids, i as int),
            shares_fault(seen(shares@)) is None <==> sound_shares(seen(shares@)),
        decreases shares@.len() - i,
    {
        let id = &shares[i].share_id;
        assert(ids[i as int] == id@);
        if !is_hash(id.as_str()) {
            return Err(ManagedError::InvalidIdentity);
        }
        proof {
            assert(known@.contains(id@) <==> ids.take(i as int).contains(id@));
            lemma_take_contains(ids, i as int);
        }
        if !known.insert(id.clone()) {
            return Err(ManagedError::DuplicateIdentity);
        }
        proof {
            assert(ids.take(i + 1) =~= ids.take(i as int).push(id@));
            assert(known@ =~= ids.take(i + 1).to_set()) by {
                assert forall|x: Chars| known@.contains(x) == ids.take(i + 1).to_set().contains(x) by {
                    if ids.take(i as int).contains(x) {
                        let k = choose|k: int|
                            0 <= k < ids.take(i as int).len() && ids.take(i as int)[k] == x;
                        assert(ids.take(i + 1)[k] == x);
                    }
                    assert(ids.take(i + 1)[i as int] == id@);
                }
            }
        }
        i = i + 1;
    }
    Ok(())
}

/// A Share takes part in a round: it is on, the phone has a folder for it,
/// and it is among those that the round is about, where it is about some.
pub open spec fn takes_part(
    share: DefinitionView,
    available: Seq<Chars>,
    focus: Option<Set<Chars>>,
) -> bool {
    share.enabled && available.contains(share.share_id) && (focus is Some
        ==> focus->0.contains(share.share_id))
}

/// The Shares of a round, in the order of the configuration.
pub open spec fn queued(
    shares: Seq<DefinitionView>,
    available: Seq<Chars>,
    focus: Option<Set<Chars>>,
) -> Seq<Chars>
    decreases shares.len(),
{
    if shares.len() == 0 {
        Seq::empty()
    } else {
        let rest = queued(shares.drop_last(), available, focus);
        if takes_part(shares.last(), available, focus) {
            rest.push(shares.last().share_id)
        } else {
            rest
        }
    }
}

/// What a round is about, as a mathematical value.
pub open spec fn focus_set(focus: Option<StringSet>) -> Option<Set<Chars>> {
    match focus {
        Some(ids) => Some(ids@),
        None => None,
    }
}

/// The Shares of a round, in the order of the configuration.
pub fn share_queue(
    shares: &Vec<ShareDefinition>,
    available: &Vec<String>,
    focus: &Option<StringSet>,
) -> (r: Vec<String>)
    ensures
        views(r@) == queued(seen(shares@), views(available@), focus_set(*focus)),
{
    let mut r: Vec<String> = Vec::new();
    let mut i: usize = 0;
    assert(views(r@) =~= Seq::<Chars>::empty());
    assert(seen(shares@).take(0) =~= Seq::<DefinitionView>::empty());
    while i < shares.len()
        invariant
            i <= shares@.len(),
            views(r@) == queued(
                seen(shares@).take(i as int),
                views(available@),
                focus_set(*focus),
            ),
        decreases shares@.len() - i,
    {
        let share = &shares[i];
        let mut part = share.enabled && names(available, share.share_id.as_str());
        if let Some(ids) = focus {
            part = part && ids.contains(share.share_id.as_str());
        }
        proof {
            let more = seen(shares@).take(i + 1);
            assert(more.drop_last() =~= seen(shares@).take(i as int));
            assert(more.last() == share@);
            assert(part == takes_part(share@, views(available@), focus_set(*focus)));
        }
        if part {
            proof {
                lemma_views_push(r@, share.share_id);
            }
            r.push(share.share_id.clone());
            assert(views(r@) =~= queued(
                seen(shares@).take(i + 1),
                views(available@),
                focus_set(*focus),
            ));
        }
        i = i + 1;
    }
    assert(seen(shares@).take(i as int) =~= seen(shares@));
    r
}

/// What the phone knows when a session begins.
#[derive(Clone, Debug)]
pub struct ClientState {
    /// The Shares that changed; none where all are to be looked at.
    pub focus_shares: Option<Vec<String>>,
    pub available_shares: Vec<String>,
    pub share_requests: Vec<ShareRequest>,
    pub cancel_intents: Vec<String>,
    pub unlink_requested: bool,
}

/// A [`ClientState`] as a mathematical value.
#[verifier::ext_equal]
pub struct ClientView {
    pub focus: Option<Seq<Chars>>,
    pub available: Seq<Chars>,
    pub requests: Seq<RequestView>,
    pub cancels: Seq<Chars>,
    pub unlink: bool,
}

impl View for ClientState {
    type V = ClientView;

    open spec fn view(&self) -> ClientView {
        ClientView {
            focus: match self.focus_shares {
                Some(ids) => Some(views(ids@)),
                None => None,
            },
            available: views(self.available_shares@),
            requests: seen(self.share_requests@),
            cancels: views(self.cancel_intents@),
            unlink: self.unlink_requested,
        }
    }
}

/// What a device that takes part in sessions does.
pub trait ManagedClient {
    /// Takes over the PC's Shares.
    fn configure(&mut self, shares: &Vec<ShareDefinition>) -> (r: Result<(), ManagedError>);

    /// What the device knows now.
    fn session_state(&mut self) -> (r: Result<ClientState, ManagedError>);

    /// Prepares a Share for synchronisation.
    fn select(&mut self, share_id: &str) -> (r: Result<(), ManagedError>);

    /// Takes over what became of requests for Shares.
    fn acknowledge_share_requests(
        &mut self,
        accepted: &Vec<String>,
        rejected: &Vec<String>,
        cancelled: &Vec<String>,
    ) -> (r: Result<(), ManagedError>);

    /// Notes that the pairing is about to end.
    fn prepare_unlink(&mut self) -> (r: Result<(), ManagedError>);

    /// Ends the pairing.
    fn finish_unlink(&mut self) -> (r: Result<(), ManagedError>);
}

/// Where a session stands.
#[derive(Clone, Copy, Debug, PartialEq, Eq, Structural)]
pub enum Phase {
    /// The PC is to be told to start.
    Starting,
    /// The PC is to send its Shares.
    Shares,
    /// The device takes them over.
    Configuring,
    /// The device is asked what it knows.
    Asking,
    /// The PC is to say what became of requests for Shares.
    Announced,
    /// The device takes that over.
    Settling,
    /// The PC is to name a Share, or to end the session.
    Serving,
    /// The device prepares the Share.
    Selecting,
    /// The Share is synchronised.
    Responding,
    /// The device notes that the pairing is about to end.
    Unlinking,
    /// The PC is to confirm it.
    Unlinked,
    /// The device ends the pairing.
    Leaving,
    /// The session is over.
    Closed,
}

/// What is to be done next.
pub enum Turn {
    /// Take a message from the PC.
    Receive,
    /// Send a message, then take one.
    Send(Message),
    /// Let the device take these Shares over.
    Configure(Vec<ShareDefinition>),
    /// Ask the device what it knows.
    Ask,
    /// Let the device take over what became of requests.
    Acknowledge { accepted: Vec<String>, rejected: Vec<String>, cancelled: Vec<String> },
    /// Let the device prepare this Share.
    Select(String),
    /// Send this message, then synchronise this Share.
    Respond(Message, String),
    PrepareUnlink,
    FinishUnlink,
    /// The session is over.
    Finish(Report),
}

/// A session on the phone.
pub struct ClientRound {
    root: String,
    skipped: StringSet,
    phase: Phase,
    shares: Vec<ShareDefinition>,
    queue: Vec<String>,
    failed: Option<String>,
    wakes: StringSet,
    errors: Vec<String>,
    transferred: usize,
    conflicts: usize,
    processed: usize,
    deferred: bool,
    configure_ms: u128,
}

/// A [`ClientRound`] as a mathematical value.
#[verifier::ext_equal]
pub struct SessionView {
    pub root: Chars,
    pub skipped: Set<Chars>,
    pub phase: Phase,
    pub shares: Seq<DefinitionView>,
    pub queue: Seq<Chars>,
    pub failed: Option<Chars>,
    pub wakes: Set<Chars>,
    pub errors: Seq<Chars>,
    pub transferred: usize,
    pub conflicts: usize,
    pub processed: usize,
    pub deferred: bool,
    pub configure_ms: u128,
}

impl View for ClientRound {
    type V = SessionView;

    closed spec fn view(&self) -> SessionView {
        SessionView {
            root: self.root@,
            skipped: self.skipped@,
            phase: self.phase,
            shares: seen(self.shares@),
            queue: views(self.queue@),
            failed: crate::config::owned_text(self.failed),
            wakes: self.wakes@,
            errors: views(self.errors@),
            transferred: self.transferred,
            conflicts: self.conflicts,
            processed: self.processed,
            deferred: self.deferred,
            configure_ms: self.configure_ms,
        }
    }
}

/// A session before its first message.
pub open spec fn fresh_session(root: Chars, skipped: Set<Chars>) -> SessionView {
    SessionView {
        root,
        skipped,
        phase: Phase::Starting,
        shares: Seq::empty(),
        queue: Seq::empty(),
        failed: None,
        wakes: Set::empty(),
        errors: Seq::empty(),
        transferred: 0,
        conflicts: 0,
        processed: 0,
        deferred: false,
        configure_ms: 0,
    }
}

/// A session whose PC was told to start.
pub open spec fn started_session(s: SessionView) -> SessionView {
    SessionView { phase: Phase::Shares, ..s }
}

/// A session whose device has taken the Shares over.
pub open spec fn configured_session(s: SessionView, elapsed_ms: u128) -> SessionView {
    SessionView {
        phase: Phase::Asking,
        configure_ms: (s.configure_ms + elapsed_ms) as u128,
        ..s
    }
}

/// A session in which the PC is told to start, and no Share is left out.
pub fn client_round_on(root: &str) -> (r: ClientRound)
    ensures
        r@ == fresh_session(root@, Set::empty()),
{
    client_round_on_excluding(root, StringSet::new())
}

/// A session in which the PC is told to start, and some Shares are left out.
pub fn client_round_on_excluding(root: &str, skipped: StringSet) -> (r: ClientRound)
    ensures
        r@ == fresh_session(root@, skipped@),
{
    let r = ClientRound {
        root: root.to_string(),
        skipped,
        phase: Phase::Starting,
        shares: Vec::new(),
        queue: Vec::new(),
        failed: None,
        wakes: StringSet::new(),
        errors: Vec::new(),
        transferred: 0,
        conflicts: 0,
        processed: 0,
        deferred: false,
        configure_ms: 0,
    };
    assert(r@ =~= fresh_session(root@, skipped@));
    r
}

/// The text of several failures.
pub open spec fn failure_text(errors: Seq<Chars>) -> Chars {
    decimal(errors.len()) + " Share(s) failed: "@ + joined(errors, "; "@)
}

/// A failure of one Share.
pub open spec fn failure_of(id: Chars, reason: Chars) -> Chars {
    id + ": "@ + reason
}

fn failures(errors: &Vec<String>) -> (r: String)
    ensures
        r@ == failure_text(views(errors@)),
{
    let size: usize = errors.len();
    let mut r = number(size as u64);
    r.append(" Share(s) failed: ");
    let text = join(errors, "; ");
    r.append(text.as_str());
    r
}

fn failure(id: &str, reason: &str) -> (r: String)
    ensures
        r@ == failure_of(id@, reason@),
{
    let mut r = id.to_string();
    r.append(": ");
    r.append(reason);
    r
}

/// A session that ends with this error.
pub open spec fn refused(
    s: SessionView,
    t: SessionView,
    r: Result<Turn, ManagedError>,
    e: ManagedError,
) -> bool {
    t == (SessionView { phase: Phase::Closed, ..s }) && r == Err::<Turn, ManagedError>(e)
}

/// The report of a session: what it moved, and the Shares that want another
/// one, in order.
pub open spec fn reports(s: SessionView, report: Report, wakes: Set<Chars>) -> bool {
    &&& report.transferred == s.transferred
    &&& report.conflicts == s.conflicts
    &&& report.shares_processed == s.processed
    &&& report.round_deferred == s.deferred
    &&& lists(views(report.pending_wakes@), wakes)
    &&& report.metrics == (ShareMetrics { configure_ms: s.configure_ms, ..no_share_metrics() })
}

/// The PC ended the session.
pub open spec fn over(s: SessionView, t: SessionView, r: Result<Turn, ManagedError>) -> bool {
    &&& t == (SessionView { phase: Phase::Closed, queue: Seq::empty(), ..s })
    &&& if s.errors.len() > 0 {
        r matches Err(ManagedError::SharesFailed(text)) && text@ == failure_text(s.errors)
    } else {
        r matches Ok(Turn::Finish(report)) && reports(s, report, s.wakes)
    }
}

/// The session waits for a message.
pub open spec fn listening(phase: Phase) -> bool {
    phase == Phase::Shares || phase == Phase::Announced || phase == Phase::Serving || phase
        == Phase::Unlinked
}

/// The Share whose turn it is.
pub open spec fn at_front(s: SessionView, id: Chars) -> bool {
    s.queue.len() > 0 && s.queue[0] == id
}

/// What a message changes, and what is to be done about it.
pub open spec fn reply(
    s: SessionView,
    m: Message,
    t: SessionView,
    r: Result<Turn, ManagedError>,
) -> bool {
    match s.phase {
        Phase::Shares => match m {
            Message::WakeShare { share_id } => t == (SessionView {
                wakes: s.wakes.insert(share_id@),
                ..s
            }) && r is Ok && r->Ok_0 is Receive,
            Message::Shares { shares } => match shares_fault(seen(shares@)) {
                Some(e) => refused(s, t, r, e),
                None => t == (SessionView {
                    phase: Phase::Configuring,
                    shares: seen(shares@),
                    ..s
                }) && (r matches Ok(Turn::Configure(x)) && seen(x@) == seen(shares@)),
            },
            _ => refused(s, t, r, ManagedError::ExpectedConfiguration),
        },
        Phase::Announced => match m {
            Message::ShareRequestStatus { accepted: a, rejected: b, cancelled: c } => t == (
            SessionView { phase: Phase::Settling, ..s }) && (r matches Ok(
                Turn::Acknowledge { accepted, rejected, cancelled },
            ) && accepted == a && rejected == b && cancelled == c),
            Message::DeviceUnlinked => t == (SessionView { phase: Phase::Unlinking, ..s }) && r is Ok
                && r->Ok_0 is PrepareUnlink,
            _ => refused(s, t, r, ManagedError::ExpectedStatus),
        },
        Phase::Unlinked => match m {
            Message::UnlinkComplete => t == (SessionView { phase: Phase::Leaving, ..s }) && r is Ok
                && r->Ok_0 is FinishUnlink,
            _ => refused(s, t, r, ManagedError::UnlinkUnconfirmed),
        },
        Phase::Serving => match m {
            Message::ShareSkipped { share_id, reason } => if at_front(s, share_id@) {
                t == (SessionView {
                    queue: s.queue.skip(1),
                    errors: s.errors.push(failure_of(share_id@, reason@)),
                    ..s
                }) && r is Ok && r->Ok_0 is Receive
            } else {
                refused(s, t, r, ManagedError::UnexpectedSkip)
            },
            Message::SelectShare { share_id } => if at_front(s, share_id@) {
                t == (SessionView { phase: Phase::Selecting, failed: Some(share_id@), ..s }) && (
                r matches Ok(Turn::Select(id)) && id@ == share_id@)
            } else {
                refused(s, t, r, ManagedError::UnexpectedSelection)
            },
            Message::SessionDone => over(s, t, r),
            Message::RoundDeferred { shares } => if exists|i: int|
                0 <= i < shares@.len() && !valid_hash(#[trigger] views(shares@)[i]) {
                refused(s, t, r, ManagedError::InvalidIdentity)
            } else {
                over(
                    SessionView {
                        wakes: s.wakes.union(views(shares@).to_set()),
                        deferred: true,
                        ..s
                    },
                    t,
                    r,
                )
            },
            _ => refused(s, t, r, ManagedError::UnexpectedMessage),
        },
        _ => false,
    }
}

/// What is wrong with the device's answer, if anything is.
pub open spec fn answer_fault(shares: Seq<DefinitionView>, c: ClientView) -> Option<ManagedError> {
    if c.focus is Some && exists|i: int|
        0 <= i < c.focus->0.len() && !valid_hash(#[trigger] c.focus->0[i]) {
        Some(ManagedError::InvalidIdentity)
    } else {
        available_fault(shares, c.available, 0)
    }
}

/// What is wrong with the folders that the device has, from the `i`th on.
pub open spec fn available_fault(
    shares: Seq<DefinitionView>,
    available: Seq<Chars>,
    i: int,
) -> Option<ManagedError>
    decreases available.len() - i,
{
    if i < 0 || i >= available.len() {
        None
    } else if !valid_hash(available[i]) {
        Some(ManagedError::InvalidIdentity)
    } else if !share_ids(shares).contains(available[i]) {
        Some(ManagedError::UnknownAvailable)
    } else {
        available_fault(shares, available, i + 1)
    }
}

/// Those of a list that a set leaves out.
pub open spec fn excluding(ids: Seq<Chars>, skipped: Set<Chars>) -> Seq<Chars>
    decreases ids.len(),
{
    if ids.len() == 0 {
        Seq::empty()
    } else {
        let rest = excluding(ids.drop_last(), skipped);
        if skipped.contains(ids.last()) {
            rest
        } else {
            rest.push(ids.last())
        }
    }
}

/// The Shares that the session asks for.
pub open spec fn wanted(s: SessionView, c: ClientView) -> Seq<Chars> {
    excluding(
        queued(
            s.shares,
            c.available,
            match c.focus {
                Some(ids) => Some(ids.to_set()),
                None => None,
            },
        ),
        s.skipped,
    )
}

/// What the PC is told of a device that has said what it knows.
pub open spec fn tells(m: Message, root: Chars, c: ClientView, requested: Seq<Chars>) -> bool {
    m matches Message::Capabilities {
        device_id,
        share_requests,
        cancel_intents,
        available_shares,
        requested_share_ids,
        audit,
        unlink_requested,
    } && device_id@ == root && seen(share_requests@) == c.requests && views(cancel_intents@)
        == c.cancels && views(available_shares@) == c.available && views(requested_share_ids@)
        == requested && audit == (c.focus is None) && unlink_requested == c.unlink
}

/// What the device's answer changes, and what is to be done about it.
pub open spec fn announced_session(
    s: SessionView,
    c: ClientView,
    t: SessionView,
    r: Result<Turn, ManagedError>,
) -> bool {
    match answer_fault(s.shares, c) {
        Some(e) => refused(s, t, r, e),
        None => t == (SessionView { phase: Phase::Announced, queue: wanted(s, c), ..s }) && (
        r matches Ok(Turn::Send(m)) && tells(m, s.root, c, wanted(s, c))),
    }
}

fn valid_hashes(ids: &Vec<String>) -> (r: bool)
    ensures
        r == !exists|i: int| 0 <= i < ids@.len() && !valid_hash(#[trigger] views(ids@)[i]),
{
    let mut i: usize = 0;
    while i < ids.len()
        invariant
            i <= ids@.len(),
            forall|k: int| 0 <= k < i ==> valid_hash(#[trigger] views(ids@)[k]),
        decreases ids@.len() - i,
    {
        if !is_hash(ids[i].as_str()) {
            assert(!valid_hash(views(ids@)[i as int]));
            return false;
        }
        assert(views(ids@)[i as int] == ids@[i as int]@);
        i = i + 1;
    }
    true
}

fn set_of(ids: &Vec<String>) -> (r: StringSet)
    ensures
        r@ == views(ids@).to_set(),
{
    let mut r = StringSet::new();
    add_all(&mut r, ids);
    assert(r@ =~= views(ids@).to_set());
    r
}

fn add_all(set: &mut StringSet, ids: &Vec<String>)
    ensures
        final(set)@ == old(set)@.union(views(ids@).to_set()),
{
    let mut i: usize = 0;
    assert(set@ =~= old(set)@.union(views(ids@).take(0).to_set()));
    while i < ids.len()
        invariant
            i <= ids@.len(),
            set@ == old(set)@.union(views(ids@).take(i as int).to_set()),
        decreases ids@.len() - i,
    {
        set.insert(ids[i].clone());
        proof {
            let all = views(ids@);
            let more = all.take(i + 1);
            assert(more =~= all.take(i as int).push(all[i as int]));
            assert(set@ =~= old(set)@.union(more.to_set())) by {
                assert forall|x: Chars| set@.contains(x) == old(set)@.union(
                    more.to_set(),
                ).contains(x) by {
                    if all.take(i as int).contains(x) {
                        let k = choose|k: int|
                            0 <= k < all.take(i as int).len() && all.take(i as int)[k] == x;
                        assert(more[k] == x);
                    }
                    assert(more[i as int] == all[i as int]);
                }
            }
        }
        i = i + 1;
    }
    assert(views(ids@).take(i as int) =~= views(ids@));
}

fn without(ids: &Vec<String>, skipped: &StringSet) -> (r: Vec<String>)
    ensures
        views(r@) == excluding(views(ids@), skipped@),
{
    let mut r: Vec<String> = Vec::new();
    let mut i: usize = 0;
    assert(views(r@) =~= Seq::<Chars>::empty());
    while i < ids.len()
        invariant
            i <= ids@.len(),
            views(r@) == excluding(views(ids@).take(i as int), skipped@),
        decreases ids@.len() - i,
    {
        proof {
            let more = views(ids@).take(i + 1);
            assert(more.drop_last() =~= views(ids@).take(i as int));
            assert(more.last() == ids@[i as int]@);
        }
        if !skipped.contains(ids[i].as_str()) {
            proof {
                lemma_views_push(r@, ids@[i as int]);
            }
            r.push(ids[i].clone());
            assert(views(r@) =~= excluding(views(ids@).take(i + 1), skipped@));
        }
        i = i + 1;
    }
    assert(views(ids@).take(i as int) =~= views(ids@));
    r
}

fn shift(queue: &Vec<String>) -> (r: Vec<String>)
    requires
        queue@.len() > 0,
    ensures
        views(r@) == views(queue@).skip(1),
{
    let mut r: Vec<String> = Vec::new();
    let mut i: usize = 1;
    assert(views(r@) =~= views(queue@).subrange(1, 1));
    while i < queue.len()
        invariant
            1 <= i <= queue@.len(),
            views(r@) == views(queue@).subrange(1, i as int),
        decreases queue@.len() - i,
    {
        proof {
            lemma_views_push(r@, queue@[i as int]);
            assert(views(queue@).subrange(1, i + 1) =~= views(queue@).subrange(1, i as int).push(
                queue@[i as int]@,
            ));
        }
        r.push(queue[i].clone());
        i = i + 1;
    }
    assert(views(queue@).subrange(1, i as int) =~= views(queue@).skip(1));
    r
}

impl ClientRound {
    /// The Share that is being synchronised, if any: it is to blame when the
    /// session breaks.
    pub fn failed(&self) -> (r: Option<String>)
        ensures
            crate::config::owned_text(r) == self@.failed,
    {
        crate::config::copy_text(&self.failed)
    }

    fn refuse(&mut self, e: ManagedError) -> (r: Result<Turn, ManagedError>)
        ensures
            refused(old(self)@, final(self)@, r, e),
    {
        self.phase = Phase::Closed;
        assert(self@ =~= SessionView { phase: Phase::Closed, ..old(self)@ });
        Err(e)
    }

    #[verifier::type_invariant]
    spec fn inv(self) -> bool {
        self.phase == Phase::Selecting || self.phase == Phase::Responding ==> self.failed is Some
            && self.queue@.len() > 0
    }

    fn report(&self, wakes: Vec<String>) -> (r: Report)
        ensures
            forall|set: Set<Chars>| lists(views(wakes@), set) ==> reports(self@, r, set),
    {
        let mut metrics = ShareMetrics::default();
        metrics.configure_ms = self.configure_ms;
        Report {
            transferred: self.transferred,
            conflicts: self.conflicts,
            shares_processed: self.processed,
            pending_wakes: wakes,
            round_deferred: self.deferred,
            metrics,
        }
    }

    fn end(&mut self) -> (r: Result<Turn, ManagedError>)
        ensures
            over(old(self)@, final(self)@, r),
    {
        self.phase = Phase::Closed;
        self.queue = Vec::new();
        assert(views(self.queue@) =~= Seq::<Chars>::empty());
        assert(self@ =~= SessionView { phase: Phase::Closed, queue: Seq::empty(), ..old(self)@ });
        if self.errors.len() > 0 {
            return Err(ManagedError::SharesFailed(failures(&self.errors)));
        }
        let wakes = self.wakes.to_list();
        Ok(Turn::Finish(self.report(wakes)))
    }

    /// Starts the session: the PC is told to start before anything else is said.
    pub fn start(&mut self) -> (r: Turn)
        requires
            old(self)@.phase == Phase::Starting,
        ensures
            final(self)@ == started_session(old(self)@),
            r == Turn::Send(Message::StartRound),
    {
        self.phase = Phase::Shares;
        assert(self@ =~= started_session(old(self)@));
        Turn::Send(Message::StartRound)
    }

    /// Takes a message of the PC.
    pub fn received(&mut self, message: Message) -> (r: Result<Turn, ManagedError>)
        requires
            listening(old(self)@.phase),
        ensures
            reply(old(self)@, message, final(self)@, r),
    {
        match self.phase {
            Phase::Shares => self.take_shares(message),
            Phase::Announced => self.take_status(message),
            Phase::Unlinked => match message {
                Message::UnlinkComplete => {
                    self.phase = Phase::Leaving;
                    assert(self@ =~= SessionView { phase: Phase::Leaving, ..old(self)@ });
                    Ok(Turn::FinishUnlink)
                },
                _ => self.refuse(ManagedError::UnlinkUnconfirmed),
            },
            _ => self.serve(message),
        }
    }

    fn take_shares(&mut self, message: Message) -> (r: Result<Turn, ManagedError>)
        requires
            old(self)@.phase == Phase::Shares,
        ensures
            reply(old(self)@, message, final(self)@, r),
    {
        proof {
            use_type_invariant(&*self);
        }
        match message {
            Message::WakeShare { share_id } => {
                let mut wakes = StringSet::new();
                std::mem::swap(&mut wakes, &mut self.wakes);
                wakes.insert(share_id);
                self.wakes = wakes;
                assert(self@ =~= SessionView {
                    wakes: old(self)@.wakes.insert(share_id@),
                    ..old(self)@
                });
                Ok(Turn::Receive)
            },
            Message::Shares { shares } => {
                proof {
                    lemma_shares_fault(seen(shares@));
                }
                match validate_shares(&shares) {
                    Err(e) => self.refuse(e),
                    Ok(()) => {
                        self.shares = copy_list(&shares);
                        self.phase = Phase::Configuring;
                        assert(self@ =~= SessionView {
                            phase: Phase::Configuring,
                            shares: seen(shares@),
                            ..old(self)@
                        });
                        Ok(Turn::Configure(shares))
                    },
                }
            },
            _ => self.refuse(ManagedError::ExpectedConfiguration),
        }
    }

    fn take_status(&mut self, message: Message) -> (r: Result<Turn, ManagedError>)
        requires
            old(self)@.phase == Phase::Announced,
        ensures
            reply(old(self)@, message, final(self)@, r),
    {
        match message {
            Message::ShareRequestStatus { accepted, rejected, cancelled } => {
                self.phase = Phase::Settling;
                assert(self@ =~= SessionView { phase: Phase::Settling, ..old(self)@ });
                Ok(Turn::Acknowledge { accepted, rejected, cancelled })
            },
            Message::DeviceUnlinked => {
                self.phase = Phase::Unlinking;
                assert(self@ =~= SessionView { phase: Phase::Unlinking, ..old(self)@ });
                Ok(Turn::PrepareUnlink)
            },
            _ => self.refuse(ManagedError::ExpectedStatus),
        }
    }

    fn is_front(&self, id: &str) -> (r: bool)
        ensures
            r == at_front(self@, id@),
    {
        self.queue.len() > 0 && same(self.queue[0].as_str(), id)
    }

    fn serve(&mut self, message: Message) -> (r: Result<Turn, ManagedError>)
        requires
            old(self)@.phase == Phase::Serving,
        ensures
            reply(old(self)@, message, final(self)@, r),
    {
        proof {
            use_type_invariant(&*self);
        }
        match message {
            Message::ShareSkipped { share_id, reason } => {
                if !self.is_front(share_id.as_str()) {
                    return self.refuse(ManagedError::UnexpectedSkip);
                }
                let error = failure(share_id.as_str(), reason.as_str());
                let mut errors = copy_strings(&self.errors);
                proof {
                    lemma_views_push(errors@, error);
                }
                errors.push(error);
                self.errors = errors;
                self.queue = shift(&self.queue);
                assert(self@ =~= SessionView {
                    queue: old(self)@.queue.skip(1),
                    errors: old(self)@.errors.push(failure_of(share_id@, reason@)),
                    ..old(self)@
                });
                Ok(Turn::Receive)
            },
            Message::SelectShare { share_id } => {
                if !self.is_front(share_id.as_str()) {
                    return self.refuse(ManagedError::UnexpectedSelection);
                }
                self.failed = Some(share_id.clone());
                self.phase = Phase::Selecting;
                assert(self@ =~= SessionView {
                    phase: Phase::Selecting,
                    failed: Some(share_id@),
                    ..old(self)@
                });
                Ok(Turn::Select(share_id))
            },
            Message::SessionDone => self.end(),
            Message::RoundDeferred { shares } => {
                if !valid_hashes(&shares) {
                    return self.refuse(ManagedError::InvalidIdentity);
                }
                let mut wakes = StringSet::new();
                std::mem::swap(&mut wakes, &mut self.wakes);
                add_all(&mut wakes, &shares);
                self.wakes = wakes;
                self.deferred = true;
                assert(self@ =~= SessionView {
                    wakes: old(self)@.wakes.union(views(shares@).to_set()),
                    deferred: true,
                    ..old(self)@
                });
                self.end()
            },
            _ => self.refuse(ManagedError::UnexpectedMessage),
        }
    }

    /// The device has taken the Shares over, which took some time.
    pub fn configured(&mut self, elapsed_ms: u128) -> (r: Turn)
        requires
            old(self)@.phase == Phase::Configuring,
            old(self)@.configure_ms + elapsed_ms <= u128::MAX,
        ensures
            final(self)@ == configured_session(old(self)@, elapsed_ms),
            r is Ask,
    {
        self.phase = Phase::Asking;
        self.configure_ms = self.configure_ms + elapsed_ms;
        Turn::Ask
    }

    /// The device has said what it knows: the session asks for the Shares that
    /// take part.
    pub fn asked(&mut self, state: ClientState) -> (r: Result<Turn, ManagedError>)
        requires
            old(self)@.phase == Phase::Asking,
        ensures
            announced_session(old(self)@, state@, final(self)@, r),
    {
        proof {
            use_type_invariant(&*self);
        }
        let audit = state.focus_shares.is_none();
        let mut focus: Option<StringSet> = None;
        if let Some(ids) = &state.focus_shares {
            if !valid_hashes(ids) {
                return self.refuse(ManagedError::InvalidIdentity);
            }
            focus = Some(set_of(ids));
        }
        if let Some(e) = self.check_available(&state.available_shares) {
            return self.refuse(e);
        }
        let all = share_queue(&self.shares, &state.available_shares, &focus);
        self.queue = without(&all, &self.skipped);
        self.phase = Phase::Announced;
        assert(self@ =~= SessionView {
            phase: Phase::Announced,
            queue: wanted(old(self)@, state@),
            ..old(self)@
        });
        Ok(
            Turn::Send(
                Message::Capabilities {
                    device_id: self.root.clone(),
                    share_requests: state.share_requests,
                    cancel_intents: state.cancel_intents,
                    available_shares: state.available_shares,
                    requested_share_ids: copy_strings(&self.queue),
                    audit,
                    unlink_requested: state.unlink_requested,
                },
            ),
        )
    }

    fn check_available(&self, available: &Vec<String>) -> (r: Option<ManagedError>)
        ensures
            r == available_fault(self@.shares, views(available@), 0),
    {
        let mut i: usize = 0;
        while i < available.len()
            invariant
                i <= available@.len(),
                available_fault(self@.shares, views(available@), 0) == available_fault(
                    self@.shares,
                    views(available@),
                    i as int,
                ),
            decreases available@.len() - i,
        {
            assert(views(available@)[i as int] == available@[i as int]@);
            if !is_hash(available[i].as_str()) {
                return Some(ManagedError::InvalidIdentity);
            }
            if !knows(&self.shares, available[i].as_str()) {
                return Some(ManagedError::UnknownAvailable);
            }
            i = i + 1;
        }
        None
    }

    /// The device has taken over what became of its requests.
    pub fn acknowledged(&mut self) -> (r: Turn)
        requires
            old(self)@.phase == Phase::Settling,
        ensures
            final(self)@ == (SessionView { phase: Phase::Serving, ..old(self)@ }),
            r is Receive,
    {
        self.phase = Phase::Serving;
        Turn::Receive
    }

    /// The device has prepared the Share.
    pub fn selected(&mut self) -> (r: Turn)
        requires
            old(self)@.phase == Phase::Selecting,
        ensures
            final(self)@ == (SessionView { phase: Phase::Responding, ..old(self)@ }),
            r matches Turn::Respond(message, id) && message == Message::Ready && Some(id@)
                == old(self)@.failed,
    {
        proof {
            use_type_invariant(&*self);
        }
        self.phase = Phase::Responding;
        match &self.failed {
            Some(id) => Turn::Respond(Message::Ready, id.clone()),
            None => Turn::Receive,
        }
    }

    /// The Share is synchronised.
    pub fn responded(&mut self, report: &Report) -> (r: Turn)
        requires
            old(self)@.phase == Phase::Responding,
            old(self)@.transferred + report.transferred <= usize::MAX,
            old(self)@.conflicts + report.conflicts <= usize::MAX,
            old(self)@.processed + report.shares_processed <= usize::MAX,
        ensures
            final(self)@ == (SessionView {
                phase: Phase::Serving,
                queue: old(self)@.queue.skip(1),
                failed: None,
                transferred: (old(self)@.transferred + report.transferred) as usize,
                conflicts: (old(self)@.conflicts + report.conflicts) as usize,
                processed: (old(self)@.processed + report.shares_processed) as usize,
                ..old(self)@
            }),
            r is Receive,
    {
        proof {
            use_type_invariant(&*self);
        }
        self.phase = Phase::Serving;
        self.transferred = self.transferred + report.transferred;
        self.conflicts = self.conflicts + report.conflicts;
        self.processed = self.processed + report.shares_processed;
        self.queue = shift(&self.queue);
        self.failed = None;
        Turn::Receive
    }

    /// The device has noted that the pairing is about to end.
    pub fn unlink_prepared(&mut self) -> (r: Turn)
        requires
            old(self)@.phase == Phase::Unlinking,
        ensures
            final(self)@ == (SessionView { phase: Phase::Unlinked, ..old(self)@ }),
            r == Turn::Send(Message::UnlinkAck),
    {
        self.phase = Phase::Unlinked;
        Turn::Send(Message::UnlinkAck)
    }

    /// The pairing has ended, and the session with it.
    pub fn unlink_finished(&mut self) -> (r: Turn)
        requires
            old(self)@.phase == Phase::Leaving,
        ensures
            final(self)@ == (SessionView { phase: Phase::Closed, ..old(self)@ }),
            r matches Turn::Finish(report) && reports(old(self)@, report, Set::empty()),
    {
        self.phase = Phase::Closed;
        let none: Vec<String> = Vec::new();
        assert(views(none@) =~= Seq::<Chars>::empty());
        assert(lists(views(none@), Set::empty()));
        Turn::Finish(self.report(none))
    }
}

fn knows(shares: &Vec<ShareDefinition>, id: &str) -> (r: bool)
    ensures
        r == share_ids(seen(shares@)).contains(id@),
{
    let ghost ids = share_ids(seen(shares@));
    let mut i: usize = 0;
    while i < shares.len()
        invariant
            i <= shares@.len(),
            ids == share_ids(seen(shares@)),
            forall|k: int| 0 <= k < i ==> #[trigger] ids[k] != id@,
        decreases shares@.len() - i,
    {
        assert(ids[i as int] == shares@[i as int].share_id@);
        if same(shares[i].share_id.as_str(), id) {
            return true;
        }
        i = i + 1;
    }
    false
}

/// Sessions with the PC, one after another: a Share that breaks a session is
/// left out of the next one, and reported at the end.
pub struct Attempts {
    root: String,
    skipped: StringSet,
    errors: Vec<String>,
}

/// [`Attempts`] as a mathematical value.
#[verifier::ext_equal]
pub struct AttemptsView {
    pub root: Chars,
    pub skipped: Set<Chars>,
    pub errors: Seq<Chars>,
}

impl View for Attempts {
    type V = AttemptsView;

    closed spec fn view(&self) -> AttemptsView {
        AttemptsView { root: self.root@, skipped: self.skipped@, errors: views(self.errors@) }
    }
}

/// The sessions of a device, none of which has been tried yet.
pub fn client_round(root: &str) -> (r: Attempts)
    ensures
        r@ == (AttemptsView { root: root@, skipped: Set::empty(), errors: Seq::empty() }),
{
    let r = Attempts { root: root.to_owned(), skipped: StringSet::new(), errors: Vec::new() };
    assert(views(r.errors@) =~= Seq::<Chars>::empty());
    r
}

impl Attempts {
    /// The next session.
    pub fn session(&self) -> (r: ClientRound)
        ensures
            r@ == fresh_session(self@.root, self@.skipped),
    {
        client_round_on_excluding(self.root.as_str(), self.skipped.duplicate())
    }

    /// A session came to its end: all is well where no Share was left out.
    pub fn ended(&self) -> (r: Result<(), ManagedError>)
        ensures
            r is Ok <==> self@.errors.len() == 0,
            r is Err ==> (r->Err_0 matches ManagedError::SharesFailed(text) && text@
                == failure_text(self@.errors)),
    {
        if self.errors.len() > 0 {
            return Err(ManagedError::SharesFailed(failures(&self.errors)));
        }
        Ok(())
    }

    /// A session broke: there is another one where a Share is to blame that
    /// was not left out before.
    pub fn broke(&mut self, failed: Option<String>, error: &str) -> (r: bool)
        ensures
            r <==> failed is Some && !old(self)@.skipped.contains(failed->0@),
            r ==> final(self)@ == (AttemptsView {
                skipped: old(self)@.skipped.insert(failed->0@),
                errors: old(self)@.errors.push(failure_of(failed->0@, error@)),
                ..old(self)@
            }),
            !r ==> final(self)@ == old(self)@,
    {
        match failed {
            None => false,
            Some(id) => {
                let text = failure(id.as_str(), error);
                if self.skipped.insert(id) {
                    proof {
                        lemma_views_push(self.errors@, text);
                    }
                    self.errors.push(text);
                    true
                } else {
                    assert(self@ =~= old(self)@);
                    false
                }
            },
        }
    }
}

proof fn lemma_excluding_more(ids: Seq<Chars>, skipped: Set<Chars>, id: Chars)
    ensures
        excluding(ids, skipped.insert(id)) == excluding(
            excluding(ids, skipped),
            Set::empty().insert(id),
        ),
    decreases ids.len(),
{
    if ids.len() > 0 {
        lemma_excluding_more(ids.drop_last(), skipped, id);
        let rest = excluding(ids.drop_last(), skipped);
        let last = ids.last();
        if !skipped.contains(last) {
            assert(rest.push(last).drop_last() =~= rest);
            assert(rest.push(last).last() == last);
        }
    }
}

/// A Share that broke a session takes nothing away from the others: the next
/// session asks for the same Shares but that one, in the same order.
pub proof fn law_failed_share_left_out(s: SessionView, c: ClientView, id: Chars)
    ensures
        wanted(SessionView { skipped: s.skipped.insert(id), ..s }, c) == excluding(
            wanted(s, c),
            Set::empty().insert(id),
        ),
{
    lemma_excluding_more(
        queued(
            s.shares,
            c.available,
            match c.focus {
                Some(ids) => Some(ids.to_set()),
                None => None,
            },
        ),
        s.skipped,
        id,
    );
}

/// A round is about the Shares that take part in it, and each of them once.
pub proof fn law_queue(shares: Seq<DefinitionView>, available: Seq<Chars>, focus: Option<Set<Chars>>)
    ensures
        forall|x: Chars| #[trigger]
            queued(shares, available, focus).contains(x) <==> exists|i: int|
                0 <= i < shares.len() && #[trigger] takes_part(shares[i], available, focus)
                    && shares[i].share_id == x,
        share_ids(shares).no_duplicates() ==> queued(shares, available, focus).no_duplicates(),
    decreases shares.len(),
{
    let q = queued(shares, available, focus);
    if shares.len() > 0 {
        let less = shares.drop_last();
        let rest = queued(less, available, focus);
        let last = shares.last();
        law_queue(less, available, focus);
        assert forall|x: Chars| #[trigger] q.contains(x) <==> exists|i: int|
            0 <= i < shares.len() && #[trigger] takes_part(shares[i], available, focus)
                && shares[i].share_id == x by {
            if q.contains(x) {
                let k = choose|k: int| 0 <= k < q.len() && q[k] == x;
                if k < rest.len() {
                    assert(rest[k] == x);
                    assert(rest.contains(x));
                    let i = choose|i: int|
                        0 <= i < less.len() && #[trigger] takes_part(less[i], available, focus)
                            && less[i].share_id == x;
                    assert(takes_part(shares[i], available, focus));
                } else {
                    assert(takes_part(shares[shares.len() - 1], available, focus));
                }
            }
            if exists|i: int|
                0 <= i < shares.len() && #[trigger] takes_part(shares[i], available, focus)
                    && shares[i].share_id == x {
                let i = choose|i: int|
                    0 <= i < shares.len() && #[trigger] takes_part(shares[i], available, focus)
                        && shares[i].share_id == x;
                if i < less.len() {
                    assert(takes_part(less[i], available, focus));
                    assert(rest.contains(x));
                    let k = choose|k: int| 0 <= k < rest.len() && rest[k] == x;
                    assert(q[k] == x);
                } else {
                    assert(q[q.len() - 1] == x);
                }
            }
        }
        if share_ids(shares).no_duplicates() {
            let ids = share_ids(shares);
            assert(share_ids(less).no_duplicates()) by {
                assert(share_ids(less) =~= ids.drop_last());
            }
            assert forall|a: int, b: int| 0 <= a < b < q.len() implies q[a] != q[b] by {
                if b == rest.len() {
                    assert(rest[a] == q[a]);
                    assert(rest.contains(q[a]));
                    let i = choose|i: int|
                        0 <= i < less.len() && #[trigger] takes_part(less[i], available, focus)
                            && less[i].share_id == q[a];
                    assert(ids[i] == q[a] && ids[shares.len() - 1] == last.share_id);
                } else {
                    assert(rest[a] == q[a] && rest[b] == q[b]);
                }
            }
        }
    }
}

proof fn lemma_excluding_none(ids: Seq<Chars>)
    ensures
        excluding(ids, Set::empty()) == ids,
    decreases ids.len(),
{
    if ids.len() > 0 {
        lemma_excluding_none(ids.drop_last());
        assert(ids.drop_last().push(ids.last()) =~= ids);
    }
}

/// A session says nothing before it has told the PC to start. Of sound Shares
/// it lets the device take over just those that the PC sent, before it asks what
/// the device knows. Then it tells the PC what the device has and asks for the
/// Shares that take part, in the PC's order.
pub proof fn law_session_opens_in_order(
    root: Chars,
    shares: Vec<ShareDefinition>,
    offered: SessionView,
    first: Result<Turn, ManagedError>,
    elapsed_ms: u128,
    c: ClientView,
    asked: SessionView,
    second: Result<Turn, ManagedError>,
)
    requires
        reply(
            started_session(fresh_session(root, Set::empty())),
            Message::Shares { shares },
            offered,
            first,
        ),
        announced_session(configured_session(offered, elapsed_ms), c, asked, second),
        shares_fault(seen(shares@)) is None,
        answer_fault(seen(shares@), c) is None,
    ensures
        fresh_session(root, Set::empty()).phase == Phase::Starting,
        !listening(Phase::Starting),
        first matches Ok(Turn::Configure(taken)) && seen(taken@) == seen(shares@),
        second matches Ok(Turn::Send(m)) && tells(
            m,
            root,
            c,
            queued(
                seen(shares@),
                c.available,
                match c.focus {
                    Some(ids) => Some(ids.to_set()),
                    None => None,
                },
            ),
        ),
{
    lemma_excluding_none(
        queued(
            seen(shares@),
            c.available,
            match c.focus {
                Some(ids) => Some(ids.to_set()),
                None => None,
            },
        ),
    );
}

/// A device that keeps its Shares in folders below one folder.
pub struct LocalDevice {
    shares: Vec<ShareDefinition>,
    bindings: StringMap<String>,
    focus: Option<Vec<String>>,
    requests: Vec<ShareRequest>,
    active: Option<Selection>,
}

/// A Share that is ready to be synchronised.
pub struct Selection {
    /// The folder below the device's own, part by part.
    pub folder: Vec<String>,
    /// What the Share leaves alone.
    pub policy: String,
}

/// A [`LocalDevice`] as a mathematical value.
#[verifier::ext_equal]
pub struct DeviceView {
    pub shares: Seq<DefinitionView>,
    pub bindings: Map<Chars, Chars>,
    pub focus: Option<Seq<Chars>>,
    pub requests: Seq<RequestView>,
    pub active: Option<(Seq<Chars>, Chars)>,
}

impl View for LocalDevice {
    type V = DeviceView;

    closed spec fn view(&self) -> DeviceView {
        DeviceView {
            shares: seen(self.shares@),
            bindings: self.bindings@,
            focus: match self.focus {
                Some(ids) => Some(views(ids@)),
                None => None,
            },
            requests: seen(self.requests@),
            active: match self.active {
                Some(s) => Some((views(s.folder@), s.policy@)),
                None => None,
            },
        }
    }
}

/// The other Shares' folders, as rules for a Share that holds them all.
pub open spec fn nested_rules(order: Seq<Chars>, bindings: Map<Chars, Chars>) -> Chars
    decreases order.len(),
{
    if order.len() == 0 {
        Seq::empty()
    } else {
        let rest = nested_rules(order.drop_last(), bindings);
        let folder = bindings[order.last()];
        if folder.len() == 0 {
            rest
        } else {
            rest + "\n"@ + folder + "/"@
        }
    }
}

/// What a Share leaves alone: what its rules say and, where it lies in the
/// device's own folder, the folders of the others.
pub open spec fn selected_policy(
    rules: Chars,
    binding: Chars,
    order: Seq<Chars>,
    bindings: Map<Chars, Chars>,
) -> Chars {
    if binding.len() == 0 {
        rules + nested_rules(order, bindings)
    } else {
        rules
    }
}

/// The requests that nothing has become of.
pub open spec fn still_open(
    requests: Seq<RequestView>,
    accepted: Seq<Chars>,
    rejected: Seq<Chars>,
    cancelled: Seq<Chars>,
) -> Seq<RequestView>
    decreases requests.len(),
{
    if requests.len() == 0 {
        Seq::empty()
    } else {
        let rest = still_open(requests.drop_last(), accepted, rejected, cancelled);
        let id = requests.last().request_id;
        if accepted.contains(id) || rejected.contains(id) || cancelled.contains(id) {
            rest
        } else {
            rest.push(requests.last())
        }
    }
}

/// The Shares that the device has a folder for.
pub open spec fn bound_shares(shares: Seq<DefinitionView>, bindings: Map<Chars, Chars>) -> Seq<Chars>
    decreases shares.len(),
{
    if shares.len() == 0 {
        Seq::empty()
    } else {
        let rest = bound_shares(shares.drop_last(), bindings);
        if bindings.dom().contains(shares.last().share_id) {
            rest.push(shares.last().share_id)
        } else {
            rest
        }
    }
}

/// The first Share with an identity.
pub open spec fn share_at(shares: Seq<DefinitionView>, id: Chars, i: int) -> bool {
    &&& 0 <= i < shares.len()
    &&& shares[i].share_id == id
    &&& forall|k: int| 0 <= k < i ==> (#[trigger] shares[k]).share_id != id
}

impl LocalDevice {
    /// A device as it was stored.
    pub fn open(
        shares: Vec<ShareDefinition>,
        bindings: StringMap<String>,
        requests: Vec<ShareRequest>,
    ) -> (r: Self)
        ensures
            r@ == (DeviceView {
                shares: seen(shares@),
                bindings: bindings@,
                focus: None,
                requests: seen(requests@),
                active: None,
            }),
    {
        LocalDevice { shares, bindings, focus: None, requests, active: None }
    }

    /// Gives a Share a folder.
    pub fn bind(&mut self, share_id: &str, path: &str) -> (r: Result<(), ManagedError>)
        ensures
            match r {
                Ok(()) => valid_hash(share_id@) && (path@.len() == 0 || path_fault(path@) is None)
                    && final(self)@ == (DeviceView {
                    bindings: old(self)@.bindings.insert(share_id@, path@),
                    ..old(self)@
                }),
                Err(ManagedError::InvalidIdentity) => !valid_hash(share_id@) && final(self)@
                    == old(self)@,
                Err(ManagedError::InvalidPath(e)) => valid_hash(share_id@) && path@.len() > 0
                    && path_fault(path@) is Some && e@ == crate::model::ModelFault::Path(
                    path_fault(path@)->0,
                ) && final(self)@ == old(self)@,
                Err(_) => false,
            },
    {
        if !is_hash(share_id) {
            return Err(ManagedError::InvalidIdentity);
        }
        if path.unicode_len() > 0 {
            if let Err(e) = validate_path(path) {
                return Err(ManagedError::InvalidPath(e));
            }
        }
        self.bindings.insert(share_id.to_string(), path.to_string());
        assert(self@ =~= DeviceView {
            bindings: old(self)@.bindings.insert(share_id@, path@),
            ..old(self)@
        });
        Ok(())
    }

    /// Says which Shares changed.
    pub fn focus(&mut self, ids: Vec<String>)
        ensures
            final(self)@ == (DeviceView { focus: Some(views(ids@)), ..old(self)@ }),
    {
        self.focus = Some(ids);
    }

    /// The Shares that the device has taken over.
    pub fn shares(&self) -> (r: &Vec<ShareDefinition>)
        ensures
            seen(r@) == self@.shares,
    {
        &self.shares
    }

    /// The Share that is ready to be synchronised.
    pub fn active(&self) -> (r: Option<&Selection>)
        ensures
            match r {
                Some(s) => self@.active == Some((views(s.folder@), s.policy@)),
                None => self@.active is None,
            },
    {
        match &self.active {
            Some(s) => Some(s),
            None => None,
        }
    }

    fn nested(&self) -> (r: String)
        ensures
            forall|order: Seq<Chars>|
                lists(order, self@.bindings.dom()) ==> r@ == #[trigger] nested_rules(
                    order,
                    self@.bindings,
                ),
    {
        let mut r = String::new();
        let mut i: usize = 0;
        let n: usize = self.bindings.len();
        let ghost order = self.bindings.order();
        assert(order.take(0) =~= Seq::<Chars>::empty());
        assert(r@ =~= Seq::<char>::empty());
        while i < n
            invariant
                i <= n == order.len(),
                order == self.bindings.order(),
                r@ == nested_rules(order.take(i as int), self.bindings@),
            decreases n - i,
        {
            let folder = self.bindings.value_at(i);
            proof {
                assert(order.take(i + 1).drop_last() =~= order.take(i as int));
                assert(order.take(i + 1).last() == order[i as int]);
            }
            if folder.as_str().unicode_len() > 0 {
                r.append("\n");
                r.append(folder.as_str());
                r.append("/");
            }
            i = i + 1;
        }
        proof {
            assert(order.take(i as int) =~= order);
            assert forall|other: Seq<Chars>| lists(other, self@.bindings.dom()) implies r@
                == #[trigger] nested_rules(other, self@.bindings) by {
                crate::collections::lemma_listing_unique(other, order, self@.bindings.dom());
            }
        }
        r
    }

    fn find(&self, id: &str) -> (r: Option<usize>)
        ensures
            match r {
                Some(i) => share_at(self@.shares, id@, i as int),
                None => !share_ids(self@.shares).contains(id@),
            },
    {
        let mut i: usize = 0;
        while i < self.shares.len()
            invariant
                i <= self.shares@.len(),
                forall|k: int| 0 <= k < i ==> (#[trigger] self@.shares[k]).share_id != id@,
            decreases self.shares@.len() - i,
        {
            assert(self@.shares[i as int].share_id == self.shares@[i as int].share_id@);
            if same(self.shares[i].share_id.as_str(), id) {
                return Some(i);
            }
            i = i + 1;
        }
        proof {
            let ids = share_ids(self@.shares);
            if ids.contains(id@) {
                let k = choose|k: int| 0 <= k < ids.len() && ids[k] == id@;
                assert(self@.shares[k].share_id == id@);
            }
        }
        None
    }
}

impl ManagedClient for LocalDevice {
    /// Takes over sound Shares; a folder whose Share is gone stays as it is.
    fn configure(&mut self, shares: &Vec<ShareDefinition>) -> (r: Result<(), ManagedError>)
        ensures
            r is Ok <==> sound_shares(seen(shares@)),
            r is Ok ==> final(self)@ == (DeviceView { shares: seen(shares@), ..old(self)@ }),
            r is Err ==> Some(r->Err_0) == shares_fault(seen(shares@)) && final(self)@ == old(
                self,
            )@,
    {
        if let Err(e) = validate_shares(shares) {
            return Err(e);
        }
        self.shares = copy_list(shares);
        Ok(())
    }

    fn session_state(&mut self) -> (r: Result<ClientState, ManagedError>)
        ensures
            final(self)@ == old(self)@,
            r matches Ok(state) && state@ == (ClientView {
                focus: old(self)@.focus,
                available: bound_shares(old(self)@.shares, old(self)@.bindings),
                requests: old(self)@.requests,
                cancels: Seq::empty(),
                unlink: false,
            }),
    {
        let mut available: Vec<String> = Vec::new();
        let mut i: usize = 0;
        assert(views(available@) =~= Seq::<Chars>::empty());
        while i < self.shares.len()
            invariant
                i <= self.shares@.len(),
                self@ == old(self)@,
                views(available@) == bound_shares(self@.shares.take(i as int), self@.bindings),
            decreases self.shares@.len() - i,
        {
            proof {
                let more = self@.shares.take(i + 1);
                assert(more.drop_last() =~= self@.shares.take(i as int));
                assert(more.last() == self.shares@[i as int]@);
            }
            if self.bindings.contains(self.shares[i].share_id.as_str()) {
                proof {
                    lemma_views_push(available@, self.shares@[i as int].share_id);
                }
                available.push(self.shares[i].share_id.clone());
                assert(views(available@) =~= bound_shares(
                    self@.shares.take(i + 1),
                    self@.bindings,
                ));
            }
            i = i + 1;
        }
        assert(self@.shares.take(i as int) =~= self@.shares);
        let focus_shares = match &self.focus {
            Some(ids) => Some(copy_strings(ids)),
            None => None,
        };
        let none: Vec<String> = Vec::new();
        assert(views(none@) =~= Seq::<Chars>::empty());
        Ok(
            ClientState {
                focus_shares,
                available_shares: available,
                share_requests: copy_list(&self.requests),
                cancel_intents: none,
                unlink_requested: false,
            },
        )
    }

    fn select(&mut self, share_id: &str) -> (r: Result<(), ManagedError>)
        ensures
            match r {
                Ok(()) => old(self)@.bindings.dom().contains(share_id@) && (forall|i: int, order:
                    Seq<Chars>|
                    #![trigger share_at(old(self)@.shares, share_id@, i), lists(order, old(self)@.bindings.dom())]
                    share_at(old(self)@.shares, share_id@, i) && lists(
                        order,
                        old(self)@.bindings.dom(),
                    ) ==> final(self)@ == (DeviceView {
                        active: Some(
                            (
                                parts_of(old(self)@.bindings[share_id@]),
                                selected_policy(
                                    old(self)@.shares[i].ignore_rules,
                                    old(self)@.bindings[share_id@],
                                    order,
                                    old(self)@.bindings,
                                ),
                            ),
                        ),
                        ..old(self)@
                    })) && share_ids(old(self)@.shares).contains(share_id@),
                Err(ManagedError::UnknownShare) => !share_ids(old(self)@.shares).contains(share_id@)
                    && final(self)@ == (DeviceView { active: None, ..old(self)@ }),
                Err(ManagedError::UnboundShare) => share_ids(old(self)@.shares).contains(share_id@)
                    && !old(self)@.bindings.dom().contains(share_id@) && final(self)@ == (
                DeviceView { active: None, ..old(self)@ }),
                Err(_) => false,
            },
    {
        self.active = None;
        assert(self@ =~= DeviceView { active: None, ..old(self)@ });
        let at = match self.find(share_id) {
            Some(i) => i,
            None => {
                return Err(ManagedError::UnknownShare);
            },
        };
        proof {
            assert(share_ids(self@.shares)[at as int] == share_id@);
        }
        let binding = match self.bindings.get(share_id) {
            Some(b) => b.clone(),
            None => {
                return Err(ManagedError::UnboundShare);
            },
        };
        let ghost mid = self@;
        let folder = path_parts(binding.as_str());
        let mut policy = self.shares[at].ignore_rules.clone();
        if binding.as_str().unicode_len() == 0 {
            let more = self.nested();
            policy.append(more.as_str());
        }
        let ghost rules = policy@;
        self.active = Some(Selection { folder, policy });
        proof {
            assert forall|i: int, order: Seq<Chars>|
                #![trigger share_at(old(self)@.shares, share_id@, i), lists(order, old(self)@.bindings.dom())]
                share_at(old(self)@.shares, share_id@, i) && lists(
                    order,
                    old(self)@.bindings.dom(),
                ) implies self@ == (DeviceView {
                active: Some(
                    (
                        parts_of(old(self)@.bindings[share_id@]),
                        selected_policy(
                            old(self)@.shares[i].ignore_rules,
                            old(self)@.bindings[share_id@],
                            order,
                            old(self)@.bindings,
                        ),
                    ),
                ),
                ..old(self)@
            }) by {
                assert(i == at) by {
                    if i < at {
                        assert(old(self)@.shares[i].share_id != share_id@);
                    }
                    if at < i {
                        assert(old(self)@.shares[at as int].share_id != share_id@);
                    }
                }
                let more = nested_rules(order, mid.bindings);
                assert(rules == selected_policy(
                    mid.shares[i].ignore_rules,
                    mid.bindings[share_id@],
                    order,
                    mid.bindings,
                ));
                assert(self@ =~= DeviceView {
                    active: Some((parts_of(mid.bindings[share_id@]), rules)),
                    ..old(self)@
                });
            }
        }
        Ok(())
    }

    fn acknowledge_share_requests(
        &mut self,
        accepted: &Vec<String>,
        rejected: &Vec<String>,
        cancelled: &Vec<String>,
    ) -> (r: Result<(), ManagedError>)
        ensures
            r is Ok,
            final(self)@ == (DeviceView {
                requests: still_open(
                    old(self)@.requests,
                    views(accepted@),
                    views(rejected@),
                    views(cancelled@),
                ),
                ..old(self)@
            }),
    {
        let mut kept: Vec<ShareRequest> = Vec::new();
        let mut i: usize = 0;
        assert(seen(kept@) =~= Seq::<RequestView>::empty());
        while i < self.requests.len()
            invariant
                i <= self.requests@.len(),
                self@ == old(self)@,
                seen(kept@) == still_open(
                    self@.requests.take(i as int),
                    views(accepted@),
                    views(rejected@),
                    views(cancelled@),
                ),
            decreases self.requests@.len() - i,
        {
            let id = self.requests[i].request_id.as_str();
            proof {
                let more = self@.requests.take(i + 1);
                assert(more.drop_last() =~= self@.requests.take(i as int));
                assert(more.last() == self.requests@[i as int]@);
            }
            if !names(accepted, id) && !names(rejected, id) && !names(cancelled, id) {
                let request = self.requests[i].duplicate();
                proof {
                    crate::config::lemma_seen_push(kept@, request);
                }
                kept.push(request);
            }
            i = i + 1;
        }
        assert(self@.requests.take(i as int) =~= self@.requests);
        self.requests = kept;
        Ok(())
    }

    fn prepare_unlink(&mut self) -> (r: Result<(), ManagedError>)
        ensures
            r is Ok,
            final(self)@ == old(self)@,
    {
        Ok(())
    }

    fn finish_unlink(&mut self) -> (r: Result<(), ManagedError>)
        ensures
            r is Ok,
            final(self)@ == old(self)@,
    {
        Ok(())
    }
}

/// A round takes the Shares that are on, that the phone can reach and that it
/// wants now, each by its identity and in the order of the PC.
pub proof fn law_round_takes_the_wanted_shares(a: Seq<DefinitionView>, b: Seq<DefinitionView>, s: DefinitionView, available: Seq<Chars>, focus: Option<Set<Chars>>)
    ensures
        queued(a + b, available, focus) == queued(a, available, focus) + queued(b, available, focus),
        queued(seq![s], available, focus) == if s.enabled && available.contains(s.share_id) && (focus is None || focus->0.contains(s.share_id)) {
            seq![s.share_id]
        } else {
            Seq::empty()
        },
        queued(Seq::empty(), available, focus) == Seq::<Chars>::empty(),
    decreases b.len(),
{
    let one = seq![s];
    assert(one.drop_last() =~= Seq::empty());
    assert(queued(one.drop_last(), available, focus) == Seq::<Chars>::empty());
    assert(queued(one, available, focus) =~= if s.enabled && available.contains(s.share_id) && (focus is None || focus->0.contains(s.share_id)) {
        seq![s.share_id]
    } else {
        Seq::empty()
    });
    if b.len() == 0 {
        assert(a + b =~= a);
        assert(queued(a + b, available, focus) =~= queued(a, available, focus) + queued(b, available, focus));
    } else {
        law_round_takes_the_wanted_shares(a, b.drop_last(), s, available, focus);
        assert((a + b).drop_last() =~= a + b.drop_last());
        assert((a + b).last() == b.last());
        assert(queued(a + b, available, focus) =~= queued(a, available, focus) + queued(b, available, focus));
    }
}

/// Shares that are skipped are left out, and the others keep their order.
pub proof fn law_skipped_shares_are_left_out(a: Seq<Chars>, b: Seq<Chars>, s: Chars, skipped: Set<Chars>)
    ensures
        excluding(a + b, skipped) == excluding(a, skipped) + excluding(b, skipped),
        excluding(seq![s], skipped) == if !skipped.contains(s) {
            seq![s]
        } else {
            Seq::empty()
        },
        excluding(Seq::empty(), skipped) == Seq::<Chars>::empty(),
    decreases b.len(),
{
    let one = seq![s];
    assert(one.drop_last() =~= Seq::empty());
    assert(excluding(one.drop_last(), skipped) == Seq::<Chars>::empty());
    assert(excluding(one, skipped) =~= if !skipped.contains(s) {
        seq![s]
    } else {
        Seq::empty()
    });
    if b.len() == 0 {
        assert(a + b =~= a);
        assert(excluding(a + b, skipped) =~= excluding(a, skipped) + excluding(b, skipped));
    } else {
        law_skipped_shares_are_left_out(a, b.drop_last(), s, skipped);
        assert((a + b).drop_last() =~= a + b.drop_last());
        assert((a + b).last() == b.last());
        assert(excluding(a + b, skipped) =~= excluding(a, skipped) + excluding(b, skipped));
    }
}

/// A request stays open until it was accepted, rejected or cancelled, and
/// the others keep their order.
pub proof fn law_answered_requests_are_closed(a: Seq<RequestView>, b: Seq<RequestView>, s: RequestView, accepted: Seq<Chars>, rejected: Seq<Chars>, cancelled: Seq<Chars>)
    ensures
        still_open(a + b, accepted, rejected, cancelled) == still_open(a, accepted, rejected, cancelled) + still_open(b, accepted, rejected, cancelled),
        still_open(seq![s], accepted, rejected, cancelled) == if !accepted.contains(s.request_id) && !rejected.contains(s.request_id) && !cancelled.contains(s.request_id) {
            seq![s]
        } else {
            Seq::empty()
        },
        still_open(Seq::empty(), accepted, rejected, cancelled) == Seq::<RequestView>::empty(),
    decreases b.len(),
{
    let one = seq![s];
    assert(one.drop_last() =~= Seq::empty());
    assert(still_open(one.drop_last(), accepted, rejected, cancelled) == Seq::<RequestView>::empty());
    assert(still_open(one, accepted, rejected, cancelled) =~= if !accepted.contains(s.request_id) && !rejected.contains(s.request_id) && !cancelled.contains(s.request_id) {
        seq![s]
    } else {
        Seq::empty()
    });
    if b.len() == 0 {
        assert(a + b =~= a);
        assert(still_open(a + b, accepted, rejected, cancelled) =~= still_open(a, accepted, rejected, cancelled) + still_open(b, accepted, rejected, cancelled));
    } else {
        law_answered_requests_are_closed(a, b.drop_last(), s, accepted, rejected, cancelled);
        assert((a + b).drop_last() =~= a + b.drop_last());
        assert((a + b).last() == b.last());
        assert(still_open(a + b, accepted, rejected, cancelled) =~= still_open(a, accepted, rejected, cancelled) + still_open(b, accepted, rejected, cancelled));
    }
}

/// The Shares that the phone can reach are those that it bound to a folder.
pub proof fn law_bound_shares_are_reachable(a: Seq<DefinitionView>, b: Seq<DefinitionView>, s: DefinitionView, bindings: Map<Chars, Chars>)
    ensures
        bound_shares(a + b, bindings) == bound_shares(a, bindings) + bound_shares(b, bindings),
        bound_shares(seq![s], bindings) == if bindings.dom().contains(s.share_id) {
            seq![s.share_id]
        } else {
            Seq::empty()
        },
        bound_shares(Seq::empty(), bindings) == Seq::<Chars>::empty(),
    decreases b.len(),
{
    let one = seq![s];
    assert(one.drop_last() =~= Seq::empty());
    assert(bound_shares(one.drop_last(), bindings) == Seq::<Chars>::empty());
    assert(bound_shares(one, bindings) =~= if bindings.dom().contains(s.share_id) {
        seq![s.share_id]
    } else {
        Seq::empty()
    });
    if b.len() == 0 {
        assert(a + b =~= a);
        assert(bound_shares(a + b, bindings) =~= bound_shares(a, bindings) + bound_shares(b, bindings));
    } else {
        law_bound_shares_are_reachable(a, b.drop_last(), s, bindings);
        assert((a + b).drop_last() =~= a + b.drop_last());
        assert((a + b).last() == b.last());
        assert(bound_shares(a + b, bindings) =~= bound_shares(a, bindings) + bound_shares(b, bindings));
    }
}

/// A text has a line for each of its pieces.
proof fn lemma_piece_is_a_line(s: Chars, x: Chars)
    requires
        pieces(s, '\n').contains(x),
        x.len() > 0,
        x.last() != '\r',
    ensures
        lines_of(s).contains(x),
{
    lemma_pieces_shape(s, '\n');
    let p = pieces(s, '\n');
    let i = choose|i: int| 0 <= i < p.len() && p[i] == x;
    if i < p.len() - 1 {
        assert(p.drop_last()[i] == x);
        assert(without_return(x) == x);
        assert(lines_of(s)[i] == x);
    } else {
        assert(lines_of(s).last() == x);
    }
}

proof fn lemma_nested_piece(
    rules: Chars,
    order: Seq<Chars>,
    bindings: Map<Chars, Chars>,
    k: int,
)
    requires
        0 <= k < order.len(),
        forall|i: int|
            0 <= i < order.len() ==> forall|j: int|
                0 <= j < bindings[#[trigger] order[i]].len() ==> #[trigger] bindings[order[i]][j]
                    != '\n',
        bindings[order[k]].len() > 0,
    ensures
        pieces(rules + nested_rules(order, bindings), '\n').contains(
            bindings[order[k]].push('/'),
        ),
    decreases order.len(),
{
    reveal_strlit("\n");
    reveal_strlit("/");
    assert("\n"@ =~= seq!['\n']);
    assert("/"@ =~= seq!['/']);
    let less = order.drop_last();
    let n = order.len() - 1;
    let folder = bindings[order.last()];
    let before = rules + nested_rules(less, bindings);
    let all = rules + nested_rules(order, bindings);
    if folder.len() == 0 {
        assert(all =~= before);
        lemma_nested_piece(rules, less, bindings, k);
    } else {
        let line = folder.push('/');
        assert(all =~= before + seq!['\n'] + line);
        lemma_pieces_concat(before, line, '\n');
        assert(order[n] == order.last());
        assert forall|j: int| 0 <= j < line.len() implies line[j] != '\n' by {
            if j < folder.len() {
                assert(line[j] == bindings[order[n]][j]);
            }
        }
        lemma_no_separator(line, '\n');
        let p = pieces(before, '\n');
        let q = pieces(all, '\n');
        assert(q == p + seq![line]);
        if k == n {
            assert(q[p.len() as int] == line);
        } else {
            assert forall|i: int| 0 <= i < less.len() implies forall|j: int|
                0 <= j < bindings[#[trigger] less[i]].len() ==> #[trigger] bindings[less[i]][j]
                    != '\n' by {
                assert(less[i] == order[i]);
            }
            lemma_nested_piece(rules, less, bindings, k);
            let m = choose|m: int| 0 <= m < p.len() && p[m] == bindings[order[k]].push('/');
            assert(q[m] == p[m]);
        }
    }
}

/// A Share that is bound to the whole folder of the phone leaves the folders of
/// the other Shares alone, whatever lies in them; and its own rules still
/// count. Left out are folders whose names would not be read back as they are
/// from a line of a policy.
pub proof fn law_nested_shares_are_left_alone(
    rules: Chars,
    order: Seq<Chars>,
    bindings: Map<Chars, Chars>,
    k: int,
    rest: Chars,
    directory: bool,
)
    requires
        0 <= k < order.len(),
        bindings[order[k]].len() > 0,
        forall|i: int|
            0 <= i < order.len() ==> forall|j: int|
                0 <= j < bindings[#[trigger] order[i]].len() ==> #[trigger] bindings[order[i]][j]
                    != '\n',
        !bindings[order[k]].contains('*'),
        bindings[order[k]][0] != '#' && bindings[order[k]][0] != '/',
        bindings[order[k]].last() != '/',
        trimmed(bindings[order[k]].push('/')) == bindings[order[k]].push('/'),
    ensures
        ignored(
            patterns_of(lines_of(selected_policy(rules, Seq::empty(), order, bindings))),
            bindings[order[k]] + seq!['/'] + rest,
            directory,
        ),
        selected_policy(rules, bindings[order[k]], order, bindings) == rules,
{
    let folder = bindings[order[k]];
    let line = folder.push('/');
    let text = selected_policy(rules, Seq::empty(), order, bindings);
    let path = folder + seq!['/'] + rest;
    assert(text == rules + nested_rules(order, bindings));
    lemma_nested_piece(rules, order, bindings, k);
    lemma_piece_is_a_line(text, line);
    law_folder_pattern(folder, rest, directory);
    let lines = lines_of(text);
    let i = choose|i: int| 0 <= i < lines.len() && lines[i] == line;
    assert(trimmed(lines[i]) == line);
    law_every_line_counts(lines, path, directory);
}

/// While a round is served, the phone deals with the Shares of its queue in
/// their order: only the first may be chosen or skipped. A skipped Share leaves
/// the queue and its failure is kept; at the end the failures are reported, or
/// else what was done.
pub proof fn law_shares_are_served_in_order(
    s: SessionView,
    m: Message,
    t: SessionView,
    r: Result<Turn, ManagedError>,
)
    requires
        s.phase == Phase::Serving,
        reply(s, m, t, r),
    ensures
        m is SelectShare ==> (r is Ok <==> s.queue.len() > 0 && s.queue[0]
            == m->SelectShare_share_id@),
        m is SelectShare && r is Ok ==> t.queue == s.queue && t.phase == Phase::Selecting && r->Ok_0
            is Select && r->Ok_0->Select_0@ == s.queue[0],
        m is ShareSkipped ==> (r is Ok <==> s.queue.len() > 0 && s.queue[0]
            == m->ShareSkipped_share_id@),
        m is ShareSkipped && r is Ok ==> t.queue == s.queue.skip(1) && t.errors.len()
            == s.errors.len() + 1 && t.phase == Phase::Serving && t.errors.last() == s.queue[0]
            + ": "@ + m->reason@,
        m is SessionDone ==> (r is Ok <==> s.errors.len() == 0),
        m is SessionDone && r is Ok ==> r->Ok_0 is Finish && r->Ok_0->Finish_0.transferred
            == s.transferred && r->Ok_0->Finish_0.conflicts == s.conflicts
            && r->Ok_0->Finish_0.shares_processed == s.processed,
        m is RoundDeferred && r is Ok ==> r->Ok_0 is Finish && r->Ok_0->Finish_0.round_deferred,
        r is Err ==> t.phase == Phase::Closed,
        !(m is SelectShare) && !(m is ShareSkipped) && !(m is SessionDone) && !(m is RoundDeferred)
            ==> r is Err,
{
}

proof fn lemma_shares_sound(ids: Seq<Chars>, i: int)
    requires
        0 <= i <= ids.len(),
    ensures
        shares_fault_from(ids, i) is None <==> forall|k: int|
            i <= k < ids.len() ==> valid_hash(#[trigger] ids[k]) && !ids.take(k).contains(ids[k]),
    decreases ids.len() - i,
{
    if i < ids.len() {
        lemma_shares_sound(ids, i + 1);
        if shares_fault_from(ids, i) is None {
            assert forall|k: int| i <= k < ids.len() implies valid_hash(#[trigger] ids[k])
                && !ids.take(k).contains(ids[k]) by {}
        }
    }
}

/// The PC's Shares are taken exactly where there are at most two hundred and
/// fifty-six, with sound identities, each of them once.
pub proof fn law_sound_shares_are_taken(shares: Seq<DefinitionView>)
    ensures
        shares_fault(shares) is None <==> shares.len() <= 256 && (forall|i: int|
            0 <= i < shares.len() ==> valid_hash((#[trigger] shares[i]).share_id)) && (forall|
            i: int,
            j: int,
        | #![trigger shares[i], shares[j]]
            0 <= i < j < shares.len() ==> shares[i].share_id != shares[j].share_id),
{
    let ids = share_ids(shares);
    lemma_shares_sound(ids, 0);
    if shares_fault(shares) is None {
        assert forall|i: int| 0 <= i < shares.len() implies valid_hash(
            (#[trigger] shares[i]).share_id,
        ) by {
            assert(ids[i] == shares[i].share_id);
        }
        assert forall|i: int, j: int| #![trigger shares[i], shares[j]]
            0 <= i < j < shares.len() implies shares[i].share_id != shares[j].share_id by {
            assert(ids[j] == shares[j].share_id);
            assert(ids.take(j)[i] == shares[i].share_id);
        }
    } else if shares.len() <= 256 {
        let k = choose|k: int|
            0 <= k < ids.len() && !(valid_hash(#[trigger] ids[k]) && !ids.take(k).contains(ids[k]));
        assert(ids[k] == shares[k].share_id);
        if ids.take(k).contains(ids[k]) {
            let m = choose|m: int| 0 <= m < ids.take(k).len() && ids.take(k)[m] == ids[k];
            assert(shares[m].share_id == shares[k].share_id);
        }
    }
}

proof fn lemma_available(shares: Seq<DefinitionView>, available: Seq<Chars>, i: int)
    requires
        0 <= i,
    ensures
        available_fault(shares, available, i) is None <==> forall|k: int|
            i <= k < available.len() ==> valid_hash(#[trigger] available[k]) && share_ids(
                shares,
            ).contains(available[k]),
    decreases available.len() - i,
{
    if i < available.len() {
        lemma_available(shares, available, i + 1);
        if available_fault(shares, available, i) is None {
            assert forall|k: int| i <= k < available.len() implies valid_hash(
                #[trigger] available[k],
            ) && share_ids(shares).contains(available[k]) by {}
        }
    }
}

/// The phone answers exactly where it names sound identities, and reaches only
/// Shares that the PC has.
pub proof fn law_phone_reaches_known_shares(shares: Seq<DefinitionView>, c: ClientView)
    ensures
        answer_fault(shares, c) is None <==> (c.focus is Some ==> forall|i: int|
            0 <= i < c.focus->0.len() ==> valid_hash(#[trigger] c.focus->0[i])) && forall|k: int|
            0 <= k < c.available.len() ==> valid_hash(#[trigger] c.available[k]) && exists|i: int|
                0 <= i < shares.len() && (#[trigger] shares[i]).share_id == c.available[k],
{
    lemma_available(shares, c.available, 0);
    let ids = share_ids(shares);
    assert forall|id: Chars| #[trigger] ids.contains(id) <==> exists|i: int|
        0 <= i < shares.len() && (#[trigger] shares[i]).share_id == id by {
        if ids.contains(id) {
            let i = choose|i: int| 0 <= i < ids.len() && ids[i] == id;
            assert(shares[i].share_id == id);
        }
        if exists|i: int| 0 <= i < shares.len() && (#[trigger] shares[i]).share_id == id {
            let i = choose|i: int| 0 <= i < shares.len() && (#[trigger] shares[i]).share_id == id;
            assert(ids[i] == id);
        }
    }
}

/// A wake that arrives early is remembered until the end of the session and
/// told there; so are the Shares that a deferred round leaves.
pub proof fn law_wakes_are_remembered(
    s: SessionView,
    m: Message,
    t: SessionView,
    r: Result<Turn, ManagedError>,
)
    requires
        reply(s, m, t, r),
    ensures
        s.phase == Phase::Shares && m is WakeShare ==> t.wakes.contains(m->WakeShare_share_id@)
            && s.wakes.subset_of(t.wakes) && r is Ok && t.phase == Phase::Shares,
        s.phase == Phase::Serving && m is SessionDone && r is Ok ==> forall|id: Chars| #[trigger]
            s.wakes.contains(id) ==> views(r->Ok_0->Finish_0.pending_wakes@).contains(id),
        s.phase == Phase::Serving && m is RoundDeferred && r is Ok ==> (forall|id: Chars| #[trigger]
            s.wakes.contains(id) ==> views(r->Ok_0->Finish_0.pending_wakes@).contains(id)) && forall|
            i: int,
        |
            0 <= i < m->RoundDeferred_shares@.len() ==> views(
                r->Ok_0->Finish_0.pending_wakes@,
            ).contains(#[trigger] views(m->RoundDeferred_shares@)[i]),
{
    if s.phase == Phase::Serving && m is RoundDeferred && r is Ok {
        let ids = views(m->RoundDeferred_shares@);
        let all = s.wakes.union(ids.to_set());
        assert(lists(views(r->Ok_0->Finish_0.pending_wakes@), all));
        assert forall|id: Chars| #[trigger] s.wakes.contains(id) implies views(
            r->Ok_0->Finish_0.pending_wakes@,
        ).contains(id) by {
            assert(all.contains(id));
        }
        assert forall|i: int| 0 <= i < ids.len() implies views(
            r->Ok_0->Finish_0.pending_wakes@,
        ).contains(#[trigger] ids[i]) by {
            assert(ids.contains(ids[i]));
            assert(all.contains(ids[i]));
        }
    }
}

} // verus!
