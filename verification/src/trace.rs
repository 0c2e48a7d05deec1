//! The trace of the rounds: which events are written, and how.

use crate::config::owned_text;
use crate::primitives::{hasher_finish, hasher_new, hasher_update, hex_encode, hex_text, sha256_of};
use crate::text::Chars;
use vstd::prelude::*;
use vstd::utf8::encode_utf8;

verus! {

/// The bytes that stand for a file in the trace.
pub open spec fn file_bytes(share: Chars, path: Chars) -> Seq<u8> {
    encode_utf8(share) + seq![0u8] + encode_utf8(path)
}

/// What stands for a file in the trace, instead of its path.
pub open spec fn file_mark(share: Chars, path: Chars) -> Chars {
    hex_text(sha256_of(file_bytes(share, path)).take(8))
}

/// What stands for a file in the trace, instead of its path.
pub fn file_id(share: &str, path: &str) -> (r: String)
    ensures
        r@ == file_mark(share@, path@),
{
    let mut hash = hasher_new();
    hasher_update(&mut hash, share.as_bytes());
    let zero: Vec<u8> = vec![0];
    assert(zero@ =~= seq![0u8]);
    hasher_update(&mut hash, zero.as_slice());
    hasher_update(&mut hash, path.as_bytes());
    proof {
        assert(crate::primitives::absorbed(hash) =~= file_bytes(share@, path@));
    }
    let digest = hasher_finish(hash);
    let first = crate::primitives::copy_bytes(digest.as_slice(), 0, 8);
    assert(first@ =~= digest@.take(8));
    hex_encode(first.as_slice())
}

/// An event as it is written.
pub struct Event {
    pub wall_ms: u128,
    pub elapsed_us: u128,
    pub side: String,
    pub component: String,
    pub event: String,
    pub share_id: Option<String>,
    pub file_id: Option<String>,
    pub bytes: Option<u64>,
    pub duration_us: Option<u128>,
    pub detail: Option<String>,
}

/// An [`Event`] as a mathematical value.
#[verifier::ext_equal]
pub struct EventView {
    pub wall_ms: u128,
    pub elapsed_us: u128,
    pub side: Chars,
    pub component: Chars,
    pub event: Chars,
    pub share_id: Option<Chars>,
    pub file_id: Option<Chars>,
    pub bytes: Option<u64>,
    pub duration_us: Option<u128>,
    pub detail: Option<Chars>,
}

impl View for Event {
    type V = EventView;

    open spec fn view(&self) -> EventView {
        EventView {
            wall_ms: self.wall_ms,
            elapsed_us: self.elapsed_us,
            side: self.side@,
            component: self.component@,
            event: self.event@,
            share_id: owned_text(self.share_id),
            file_id: owned_text(self.file_id),
            bytes: self.bytes,
            duration_us: self.duration_us,
            detail: owned_text(self.detail),
        }
    }
}

/// What happened.
pub struct Happening<'a> {
    pub component: &'a str,
    pub name: &'a str,
    pub share_id: Option<&'a str>,
    pub path: Option<&'a str>,
    pub bytes: Option<u64>,
    /// When it began, where it took time.
    pub began_us: Option<u128>,
    pub detail: Option<&'a str>,
}

/// An optional text as a mathematical value.
pub open spec fn lent_text(s: Option<&str>) -> Option<Chars> {
    match s {
        Some(t) => Some(t@),
        None => None,
    }
}

fn own(s: Option<&str>) -> (r: Option<String>)
    ensures
        owned_text(r) == lent_text(s),
{
    match s {
        Some(t) => Some(t.to_string()),
        None => None,
    }
}

/// The time between two moments; none where the later one comes first.
pub open spec fn span(later: u128, earlier: u128) -> u128 {
    if later < earlier {
        0
    } else {
        (later - earlier) as u128
    }
}

fn between(later: u128, earlier: u128) -> (r: u128)
    ensures
        r == span(later, earlier),
{
    if later < earlier {
        0
    } else {
        later - earlier
    }
}

/// An event as it is written.
pub open spec fn written(side: Chars, began: u128, h: Happening, wall_ms: u128, now_us: u128) -> EventView {
    EventView {
        wall_ms,
        elapsed_us: span(now_us, began),
        side,
        component: h.component@,
        event: h.name@,
        share_id: lent_text(h.share_id),
        file_id: match (h.share_id, h.path) {
            (Some(share), Some(path)) => Some(file_mark(share@, path@)),
            _ => None,
        },
        bytes: h.bytes,
        duration_us: match h.began_us {
            Some(t) => Some(span(now_us, t)),
            None => None,
        },
        detail: lent_text(h.detail),
    }
}

/// The trace: off, or on since some moment.
pub struct Trace {
    session: Option<(String, u128)>,
}

impl View for Trace {
    type V = Option<(Chars, u128)>;

    closed spec fn view(&self) -> Option<(Chars, u128)> {
        match self.session {
            Some(s) => Some((s.0@, s.1)),
            None => None,
        }
    }
}

impl Trace {
    /// The trace is off.
    pub fn new() -> (r: Self)
        ensures
            r@ is None,
    {
        Trace { session: None }
    }

    /// Whether the trace is on.
    pub fn enabled(&self) -> (r: bool)
        ensures
            r == (self@ is Some),
    {
        self.session.is_some()
    }

    /// The file of the trace was made anew: the trace is on from now.
    pub fn enable(&mut self, side: &str, now_us: u128)
        ensures
            final(self)@ == Some((side@, now_us)),
    {
        self.session = Some((side.to_string(), now_us));
    }

    /// Whether there is something to be written out.
    pub fn flush(&self) -> (r: bool)
        ensures
            r == (self@ is Some),
    {
        self.session.is_some()
    }

    /// The trace is off from now; the result says whether there is something
    /// to be written out.
    pub fn disable(&mut self) -> (r: bool)
        ensures
            final(self)@ is None,
            r == (old(self)@ is Some),
    {
        let was = self.session.is_some();
        self.session = None;
        was
    }

    /// What is written of something that happened; nothing while the trace is
    /// off.
    pub fn event(&self, what: &Happening, wall_ms: u128, now_us: u128) -> (r: Option<Event>)
        ensures
            match self@ {
                None => r is None,
                Some((side, began)) => r is Some && r->0@ == written(
                    side,
                    began,
                    *what,
                    wall_ms,
                    now_us,
                ),
            },
    {
        match &self.session {
            None => None,
            Some(session) => {
                let mark = match (what.share_id, what.path) {
                    (Some(share), Some(path)) => Some(file_id(share, path)),
                    _ => None,
                };
                let duration_us = match what.began_us {
                    Some(t) => Some(between(now_us, t)),
                    None => None,
                };
                Some(
                    Event {
                        wall_ms,
                        elapsed_us: between(now_us, session.1),
                        side: session.0.clone(),
                        component: what.component.to_string(),
                        event: what.name.to_string(),
                        share_id: own(what.share_id),
                        file_id: mark,
                        bytes: what.bytes,
                        duration_us,
                        detail: own(what.detail),
                    },
                )
            },
        }
    }
}

/// Events are written in the order of their times.
pub proof fn law_elapsed_in_order(side: Chars, began: u128, a: Happening, b: Happening, wall: u128, first: u128, second: u128)
    requires
        first <= second,
    ensures
        written(side, began, a, wall, first).elapsed_us <= written(
            side,
            began,
            b,
            wall,
            second,
        ).elapsed_us,
{
}

/// An event is written with what happened: its part of the program, its name,
/// its size and what is said of it, the time since the trace began, and how
/// long it took if its beginning is known. A file is written by a mark that
/// does not tell its name, and only where its Share is known.
pub proof fn law_event_is_written_as_it_happened(
    side: Chars,
    began: u128,
    h: Happening,
    wall_ms: u128,
    now_us: u128,
)
    ensures
        ({
            let e = written(side, began, h, wall_ms, now_us);
            &&& e.side == side && e.wall_ms == wall_ms && e.component == h.component@ && e.event
                == h.name@ && e.bytes == h.bytes
            &&& began <= now_us ==> e.elapsed_us == now_us - began
            &&& e.duration_us is Some <==> h.began_us is Some
            &&& h.began_us is Some && h.began_us->0 <= now_us ==> e.duration_us == Some(
                (now_us - h.began_us->0) as u128,
            )
            &&& e.file_id is Some <==> h.share_id is Some && h.path is Some
            &&& h.share_id is None ==> e.share_id is None
            &&& h.share_id is Some ==> e.share_id == Some(h.share_id->0@)
            &&& h.detail is Some ==> e.detail == Some(h.detail->0@)
            &&& h.detail is None ==> e.detail is None
        }),
{
}

} // verus!
