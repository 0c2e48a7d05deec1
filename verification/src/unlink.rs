//! How the PC ends a pairing: the phone is told and has to confirm, then the
//! PC's identity is replaced, and then the phone learns that it is done.

use crate::app::{revoked_config, IdentityView};
use crate::device::ConfigView;
use crate::protocol::Message;
use crate::session::{unlink_acknowledged, SessionError};
use vstd::prelude::*;

verus! {

/// What the PC does next to end a pairing.
#[derive(Clone, Copy, Debug, PartialEq, Eq, Structural)]
pub enum UnlinkStep {
    /// Tell the phone.
    Tell,
    /// Wait for the phone's word.
    Await,
    /// Replace the identity.
    Revoke,
    /// Tell the phone that it is done.
    Confirm,
    /// The pairing has ended.
    Done,
    /// The pairing goes on: the phone did not confirm.
    Abandoned,
}

/// What came of a step.
pub enum UnlinkEvent {
    /// The message was sent.
    Sent,
    /// The phone answered.
    Answer(Message),
    /// The identity was replaced.
    Revoked,
}

/// How the end of a pairing goes on. What answers another step than the one
/// that was asked for changes nothing.
pub open spec fn unlink_after(step: UnlinkStep, e: UnlinkEvent) -> UnlinkStep {
    match (step, e) {
        (UnlinkStep::Tell, UnlinkEvent::Sent) => UnlinkStep::Await,
        (UnlinkStep::Await, UnlinkEvent::Answer(m)) => if m is UnlinkAck {
            UnlinkStep::Revoke
        } else {
            UnlinkStep::Abandoned
        },
        (UnlinkStep::Revoke, UnlinkEvent::Revoked) => UnlinkStep::Confirm,
        (UnlinkStep::Confirm, UnlinkEvent::Sent) => UnlinkStep::Done,
        _ => step,
    }
}

/// The message that is to be sent at a step, if one is.
pub open spec fn unlink_message(step: UnlinkStep) -> Option<Message> {
    match step {
        UnlinkStep::Tell => Some(Message::DeviceUnlinked),
        UnlinkStep::Confirm => Some(Message::UnlinkComplete),
        _ => None,
    }
}

/// The end of a pairing on the PC.
pub struct Unlink {
    step: UnlinkStep,
}

impl View for Unlink {
    type V = UnlinkStep;

    closed spec fn view(&self) -> UnlinkStep {
        self.step
    }
}

impl Unlink {
    /// Begins to end a pairing.
    pub fn begin() -> (r: Self)
        ensures
            r@ == UnlinkStep::Tell,
    {
        Unlink { step: UnlinkStep::Tell }
    }

    /// What is to be done next.
    pub fn step(&self) -> (r: UnlinkStep)
        ensures
            r == self@,
    {
        self.step
    }

    /// The message that is to be sent next, if one is.
    pub fn message(&self) -> (r: Option<Message>)
        ensures
            r == unlink_message(self@),
    {
        match self.step {
            UnlinkStep::Tell => Some(Message::DeviceUnlinked),
            UnlinkStep::Confirm => Some(Message::UnlinkComplete),
            _ => None,
        }
    }

    /// Takes note of what came of a step. An answer that is not the phone's
    /// word ends the attempt.
    pub fn take(&mut self, event: UnlinkEvent) -> (r: Result<(), SessionError>)
        ensures
            final(self)@ == unlink_after(old(self)@, event),
            r is Err <==> old(self)@ == UnlinkStep::Await && event is Answer
                && !(event->Answer_0 is UnlinkAck),
            r is Err ==> r->Err_0 == SessionError::UnlinkUnacknowledged,
    {
        let step = self.step;
        match event {
            UnlinkEvent::Sent => {
                if step == UnlinkStep::Tell {
                    self.step = UnlinkStep::Await;
                }
                if step == UnlinkStep::Confirm {
                    self.step = UnlinkStep::Done;
                }
                Ok(())
            },
            UnlinkEvent::Answer(message) => {
                if step != UnlinkStep::Await {
                    return Ok(());
                }
                let r = unlink_acknowledged(&message);
                self.step = if r.is_ok() {
                    UnlinkStep::Revoke
                } else {
                    UnlinkStep::Abandoned
                };
                r
            },
            UnlinkEvent::Revoked => {
                if step == UnlinkStep::Revoke {
                    self.step = UnlinkStep::Confirm;
                }
                Ok(())
            },
        }
    }
}

/// The end of a pairing after some events.
pub open spec fn unlink_run(events: Seq<UnlinkEvent>) -> UnlinkStep
    decreases events.len(),
{
    if events.len() == 0 {
        UnlinkStep::Tell
    } else {
        unlink_after(unlink_run(events.drop_last()), events.last())
    }
}

/// The PC's configuration after some events: the identity is replaced where
/// the step asks for it.
pub open spec fn config_during(c: ConfigView, id: IdentityView, events: Seq<UnlinkEvent>) -> ConfigView
    decreases events.len(),
{
    if events.len() == 0 {
        c
    } else {
        let before = config_during(c, id, events.drop_last());
        if unlink_run(events.drop_last()) == UnlinkStep::Revoke && events.last() is Revoked {
            revoked_config(before, id)
        } else {
            before
        }
    }
}

/// The phone has confirmed.
pub open spec fn confirms(e: UnlinkEvent) -> bool {
    e matches UnlinkEvent::Answer(m) && m is UnlinkAck
}

proof fn lemma_unlink(c: ConfigView, id: IdentityView, events: Seq<UnlinkEvent>)
    ensures
        ({
            let step = unlink_run(events);
            let revoked = step == UnlinkStep::Confirm || step == UnlinkStep::Done;
            &&& config_during(c, id, events) == if revoked {
                revoked_config(c, id)
            } else {
                c
            }
            &&& step == UnlinkStep::Revoke || revoked ==> exists|i: int|
                0 <= i < events.len() && confirms(#[trigger] events[i])
        }),
    decreases events.len(),
{
    if events.len() > 0 {
        let less = events.drop_last();
        lemma_unlink(c, id, less);
        assert(events.last() == events[events.len() - 1]);
        let step = unlink_run(less);
        if step == UnlinkStep::Revoke || step == UnlinkStep::Confirm || step == UnlinkStep::Done {
            let i = choose|i: int| 0 <= i < less.len() && confirms(#[trigger] less[i]);
            assert(confirms(events[i]));
        } else if unlink_run(events) == UnlinkStep::Revoke {
            assert(confirms(events[events.len() - 1]));
        }
    }
}

/// Wherever the end of a pairing is interrupted, the PC keeps its credentials
/// unless the phone has confirmed; and the phone learns that it is done only
/// after they were replaced.
pub proof fn law_interrupted_unlink_keeps_the_credentials(
    c: ConfigView,
    id: IdentityView,
    events: Seq<UnlinkEvent>,
)
    ensures
        (forall|i: int| 0 <= i < events.len() ==> !confirms(#[trigger] events[i]))
            ==> config_during(c, id, events) == c,
        unlink_run(events) == UnlinkStep::Abandoned ==> config_during(c, id, events) == c,
        unlink_message(unlink_run(events)) == Some(Message::UnlinkComplete) ==> config_during(
            c,
            id,
            events,
        ) == revoked_config(c, id),
        unlink_run(events) == UnlinkStep::Done ==> config_during(c, id, events) == revoked_config(
            c,
            id,
        ),
{
    lemma_unlink(c, id, events);
}

/// A pairing does end: once the phone was told, has confirmed, the identity was
/// replaced and the phone heard of it, the PC has the new identity and knows no
/// phone.
pub proof fn law_unlink_comes_to_its_end(c: ConfigView, id: IdentityView, ack: Message)
    requires
        ack is UnlinkAck,
    ensures
        ({
            let events = seq![
                UnlinkEvent::Sent,
                UnlinkEvent::Answer(ack),
                UnlinkEvent::Revoked,
                UnlinkEvent::Sent,
            ];
            &&& unlink_run(events) == UnlinkStep::Done
            &&& config_during(c, id, events).peer_device is None
            &&& config_during(c, id, events).secret == id.secret
            &&& unlink_message(unlink_run(Seq::empty())) == Some(Message::DeviceUnlinked)
            &&& unlink_message(unlink_run(events.take(3))) == Some(Message::UnlinkComplete)
            &&& unlink_message(unlink_run(events.take(1))) is None
        }),
{
    let events = seq![
        UnlinkEvent::Sent,
        UnlinkEvent::Answer(ack),
        UnlinkEvent::Revoked,
        UnlinkEvent::Sent,
    ];
    let e3 = events.drop_last();
    let e2 = e3.drop_last();
    let e1 = e2.drop_last();
    let e0 = e1.drop_last();
    assert(e3 =~= events.take(3));
    assert(e1 =~= events.take(1));
    assert(e0 =~= Seq::empty());
    assert(unlink_run(e0) == UnlinkStep::Tell);
    assert(unlink_run(e1) == UnlinkStep::Await);
    assert(unlink_run(e2) == UnlinkStep::Revoke);
    assert(unlink_run(e3) == UnlinkStep::Confirm);
    assert(unlink_run(events) == UnlinkStep::Done);
    lemma_unlink(c, id, events);
}

} // verus!
