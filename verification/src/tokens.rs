//! The token that two rounds of a Share have in common: it is a hint that the
//! sides may exchange single paths, and any interruption takes it away.

use crate::config::RemapPolicy;
use crate::model::valid_hash;
use crate::opening::{opened, opening_after, OpeningStep, OpeningView, Sighted};
use crate::protocol::Message;
use crate::sync::{
    all_sound, delta_sound, responder_after, task_for, ResponderView, StateView, SyncError, Task,
    MAX_DELTA_PATHS,
};
use crate::text::Chars;
use vstd::prelude::*;

verus! {

/// What happens to the phone's side of the rounds of a Share.
pub enum PhoneEvent {
    /// A message of the Share was taken.
    Took(Message),
    /// A round failed.
    Failed,
}

/// The phone's side after an event.
pub open spec fn phone_after(v: ResponderView, share: Chars, e: PhoneEvent) -> ResponderView {
    match e {
        PhoneEvent::Took(m) => responder_after(v, share, m),
        PhoneEvent::Failed => ResponderView { token: None, ..v },
    }
}

/// The phone's side after some events.
pub open spec fn phone_run(v: ResponderView, share: Chars, events: Seq<PhoneEvent>) -> ResponderView
    decreases events.len(),
{
    if events.len() == 0 {
        v
    } else {
        phone_after(phone_run(v, share, events.drop_last()), share, events.last())
    }
}

/// An event that takes the phone's token away.
pub open spec fn withdraws(e: PhoneEvent) -> bool {
    match e {
        PhoneEvent::Took(m) => m is Scan || m is DeltaScan,
        PhoneEvent::Failed => true,
    }
}

/// The end of a round.
pub open spec fn concludes(e: PhoneEvent) -> bool {
    e matches PhoneEvent::Took(m) && m is Done
}

/// What happens to the token that the PC holds.
pub enum PcEvent {
    /// A round begins.
    Began,
    /// The end of a round was sent with this token.
    Sent(Chars),
}

/// The token that the PC holds after some events.
pub open spec fn held_run(held: Option<Chars>, events: Seq<PcEvent>) -> Option<Chars> {
    if events.len() == 0 {
        held
    } else {
        match events.last() {
            PcEvent::Began => None,
            PcEvent::Sent(token) => Some(token),
        }
    }
}

proof fn lemma_no_token(v: ResponderView, share: Chars, events: Seq<PhoneEvent>, at: int)
    requires
        0 <= at < events.len(),
        withdraws(events[at]),
        forall|i: int| at < i < events.len() ==> !concludes(#[trigger] events[i]),
    ensures
        phone_run(v, share, events).token is None,
    decreases events.len(),
{
    if at < events.len() - 1 {
        let less = events.drop_last();
        assert(less[at] == events[at]);
        assert forall|i: int| at < i < less.len() implies !concludes(#[trigger] less[i]) by {
            assert(less[i] == events[i]);
        }
        lemma_no_token(v, share, less, at);
        assert(events.last() == events[events.len() - 1]);
    }
}

/// An exchange that was interrupted leads to a full scan: once a round has asked
/// for files or has failed, and until one ends, the phone holds no token. It then
/// answers every request for single paths with the wish for a full scan, and the
/// PC scans both sides.
pub proof fn law_interrupted_exchange_means_a_full_scan(
    v: ResponderView,
    share: Chars,
    events: Seq<PhoneEvent>,
    at: int,
    request: Message,
    r: Result<Task, SyncError>,
    pc: OpeningView,
    s: StateView,
)
    requires
        0 <= at < events.len(),
        withdraws(events[at]),
        forall|i: int| at < i < events.len() ==> !concludes(#[trigger] events[i]),
        request is DeltaScan,
        task_for(request, phone_run(v, share, events).token, r),
        pc.step == OpeningStep::Ask,
    ensures
        phone_run(v, share, events).token is None,
        r == Ok::<Task, SyncError>(Task::Reply { message: Message::NeedFullScan }),
        opening_after(pc, s, Sighted::Answer(None)).step == OpeningStep::ScanAll,
{
    lemma_no_token(v, share, events, at);
}

/// A round whose end was not sent leads to a full scan: the PC holds no token
/// any more, and the next round begins with a scan of both sides.
pub proof fn law_unfinished_round_means_a_full_scan(
    held: Option<Chars>,
    events: Seq<PcEvent>,
    s: StateView,
    remap: Option<RemapPolicy>,
)
    requires
        events.len() > 0,
        events.last() is Began,
    ensures
        held_run(held, events) is None,
        opened(s, held_run(held, events), remap).step == OpeningStep::ScanAll,
{
}

/// A round that ended on both sides leaves them the same token, so that the
/// phone looks at its own paths when the PC asks for a few sound ones.
pub proof fn law_finished_round_leaves_a_token(
    v: ResponderView,
    share: Chars,
    events: Seq<PhoneEvent>,
    done: Message,
    held: Option<Chars>,
    sent: Seq<PcEvent>,
    request: Message,
    r: Result<Task, SyncError>,
)
    requires
        events.len() > 0,
        events.last() == PhoneEvent::Took(done),
        done is Done,
        valid_hash(done->Done_base_token@),
        sent.len() > 0,
        sent.last() == PcEvent::Sent(done->Done_base_token@),
        request is DeltaScan,
        Some(request->DeltaScan_base_token@) == held_run(held, sent),
        request->DeltaScan_paths@.len() <= MAX_DELTA_PATHS,
        all_sound(request->DeltaScan_paths@),
        task_for(request, phone_run(v, share, events).token, r),
    ensures
        phone_run(v, share, events).token == held_run(held, sent),
        r is Ok && r->Ok_0 is LookAtOwn,
{
    assert(delta_sound(
        phone_run(v, share, events).token,
        request->DeltaScan_base_token@,
        request->DeltaScan_paths@,
    ));
}

} // verus!
