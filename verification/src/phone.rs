//! The phone's side of a session: its wishes, what it remembers between
//! rounds, and the call to wake up.

use crate::app::colon_text;
use crate::collections::{Duplicate, StringMap};
use crate::config::{lemma_seen_push, owned_text, seen, ShareRequest};
use crate::invitation::{
    decoded, encoded, invitation_fault, Invitation, InvitationError, InvitationView,
    LegacyInvitation,
};
use crate::primitives::{hex_bytes, hex_digit, hex_text, sha256_of};
use crate::protocol::{Message, StoreMetrics};
use crate::text::{
    chars_of, join, joined, lemma_views_push, same, string_of, views, Chars,
};
use vstd::prelude::*;

verus! {

/// A wish as the phone keeps it, with what could be read of it.
pub struct LocalRequest {
    /// Its state, where it has one; without one it is pending.
    pub state: Option<String>,
    pub request_id: Option<String>,
    /// The wish itself, where it can be read.
    pub request: Option<ShareRequest>,
}

/// Why the phone does not take part.
#[derive(Clone, Copy, Debug, PartialEq, Eq, Structural)]
pub enum PhoneError {
    /// A wish has a state that is not known.
    UnknownState,
    /// A pending wish cannot be read.
    UnreadableRequest,
    /// A wish that was taken back has no identity.
    CancelWithoutId,
    Cancelled,
}

/// A wish's state.
pub open spec fn wish_state(q: LocalRequest) -> Chars {
    match owned_text(q.state) {
        Some(s) => s,
        None => "pending"@,
    }
}

/// A state that is known.
pub open spec fn known_state(s: Chars) -> bool {
    s == "pending"@ || s == "cancelled"@
}

/// The wishes that are pending.
pub open spec fn pending_wishes(all: Seq<LocalRequest>) -> Seq<LocalRequest>
    decreases all.len(),
{
    if all.len() == 0 {
        Seq::empty()
    } else if wish_state(all.last()) == "pending"@ {
        pending_wishes(all.drop_last()).push(all.last())
    } else {
        pending_wishes(all.drop_last())
    }
}

/// The wishes that were taken back.
pub open spec fn cancelled_wishes(all: Seq<LocalRequest>) -> Seq<LocalRequest>
    decreases all.len(),
{
    if all.len() == 0 {
        Seq::empty()
    } else if wish_state(all.last()) == "cancelled"@ {
        cancelled_wishes(all.drop_last()).push(all.last())
    } else {
        cancelled_wishes(all.drop_last())
    }
}

/// What is wrong with the wishes, if anything is.
pub open spec fn wishes_fault(all: Seq<LocalRequest>) -> Option<PhoneError> {
    if exists|i: int| 0 <= i < all.len() && !known_state(wish_state(#[trigger] all[i])) {
        Some(PhoneError::UnknownState)
    } else if exists|i: int|
        0 <= i < pending_wishes(all).len() && (#[trigger] pending_wishes(all)[i]).request is None {
        Some(PhoneError::UnreadableRequest)
    } else if exists|i: int|
        0 <= i < cancelled_wishes(all).len() && (#[trigger] cancelled_wishes(
            all,
        )[i]).request_id is None {
        Some(PhoneError::CancelWithoutId)
    } else {
        None
    }
}

/// What the phone asks for and what it takes back.
pub struct Wishes {
    pub share_requests: Vec<ShareRequest>,
    pub cancel_intents: Vec<String>,
}

fn is_pending(q: &LocalRequest) -> (r: bool)
    ensures
        r == (wish_state(*q) == "pending"@),
{
    match &q.state {
        Some(s) => same(s.as_str(), "pending"),
        None => true,
    }
}

fn is_cancelled(q: &LocalRequest) -> (r: bool)
    ensures
        r == (wish_state(*q) == "cancelled"@),
{
    match &q.state {
        Some(s) => same(s.as_str(), "cancelled"),
        None => {
            proof {
                reveal_strlit("pending");
                reveal_strlit("cancelled");
                assert("pending"@.len() == 7 && "cancelled"@.len() == 9);
            }
            false
        },
    }
}

fn pending_of(all: &Vec<LocalRequest>) -> (r: Option<Vec<ShareRequest>>)
    ensures
        r is None <==> exists|i: int|
            0 <= i < pending_wishes(all@).len() && (#[trigger] pending_wishes(
                all@,
            )[i]).request is None,
        r is Some ==> seen(r->0@) == pending_wishes(all@).map_values(
            |q: LocalRequest| q.request->0@,
        ),
{
    let mut out: Vec<ShareRequest> = Vec::new();
    let mut good = true;
    let mut i: usize = 0;
    let ghost picked = pending_wishes(all@);
    assert(all@.take(0) =~= Seq::<LocalRequest>::empty());
    assert(seen(out@) =~= pending_wishes(all@.take(0)).map_values(|q: LocalRequest| q.request->0@));
    while i < all.len()
        invariant
            i <= all@.len(),
            good <==> forall|k: int|
                0 <= k < pending_wishes(all@.take(i as int)).len() ==> (
                #[trigger] pending_wishes(all@.take(i as int))[k]).request is Some,
            good ==> seen(out@) == pending_wishes(all@.take(i as int)).map_values(
                |q: LocalRequest| q.request->0@,
            ),
        decreases all@.len() - i,
    {
        let ghost part = pending_wishes(all@.take(i as int));
        let ghost now = pending_wishes(all@.take(i + 1));
        proof {
            assert(all@.take(i + 1).drop_last() =~= all@.take(i as int));
            assert(all@.take(i + 1).last() == all@[i as int]);
        }
        if is_pending(&all[i]) {
            assert(now == part.push(all@[i as int]));
            assert(forall|k: int| 0 <= k < part.len() ==> #[trigger] now[k] == part[k]);
            assert(now[part.len() as int] == all@[i as int]);
            match &all[i].request {
                Some(q) => {
                    let q = q.duplicate();
                    proof {
                        lemma_seen_push(out@, q);
                        if good {
                            assert(now.map_values(|q: LocalRequest| q.request->0@)
                                =~= part.map_values(|q: LocalRequest| q.request->0@).push(q@));
                        } else {
                            let k = choose|k: int|
                                0 <= k < part.len() && (#[trigger] part[k]).request is None;
                            assert(now[k].request is None);
                        }
                    }
                    out.push(q);
                },
                None => {
                    good = false;
                },
            }
        }
        i = i + 1;
    }
    assert(all@.take(i as int) =~= all@);
    if good {
        Some(out)
    } else {
        let ghost k = choose|k: int|
            0 <= k < picked.len() && (#[trigger] picked[k]).request is None;
        assert(pending_wishes(all@)[k].request is None);
        None
    }
}

fn cancelled_of(all: &Vec<LocalRequest>) -> (r: Option<Vec<String>>)
    ensures
        r is None <==> exists|i: int|
            0 <= i < cancelled_wishes(all@).len() && (#[trigger] cancelled_wishes(
                all@,
            )[i]).request_id is None,
        r is Some ==> views(r->0@) == cancelled_wishes(all@).map_values(
            |q: LocalRequest| q.request_id->0@,
        ),
{
    let mut out: Vec<String> = Vec::new();
    let mut good = true;
    let mut i: usize = 0;
    let ghost picked = cancelled_wishes(all@);
    assert(all@.take(0) =~= Seq::<LocalRequest>::empty());
    assert(views(out@) =~= cancelled_wishes(all@.take(0)).map_values(
        |q: LocalRequest| q.request_id->0@,
    ));
    while i < all.len()
        invariant
            i <= all@.len(),
            good <==> forall|k: int|
                0 <= k < cancelled_wishes(all@.take(i as int)).len() ==> (
                #[trigger] cancelled_wishes(all@.take(i as int))[k]).request_id is Some,
            good ==> views(out@) == cancelled_wishes(all@.take(i as int)).map_values(
                |q: LocalRequest| q.request_id->0@,
            ),
        decreases all@.len() - i,
    {
        let ghost part = cancelled_wishes(all@.take(i as int));
        let ghost now = cancelled_wishes(all@.take(i + 1));
        proof {
            assert(all@.take(i + 1).drop_last() =~= all@.take(i as int));
            assert(all@.take(i + 1).last() == all@[i as int]);
        }
        if is_cancelled(&all[i]) {
            assert(now == part.push(all@[i as int]));
            assert(forall|k: int| 0 <= k < part.len() ==> #[trigger] now[k] == part[k]);
            assert(now[part.len() as int] == all@[i as int]);
            match &all[i].request_id {
                Some(id) => {
                    let id = id.clone();
                    proof {
                        lemma_views_push(out@, id);
                        if good {
                            assert(now.map_values(|q: LocalRequest| q.request_id->0@)
                                =~= part.map_values(|q: LocalRequest| q.request_id->0@).push(id@));
                        } else {
                            let k = choose|k: int|
                                0 <= k < part.len() && (#[trigger] part[k]).request_id is None;
                            assert(now[k].request_id is None);
                        }
                    }
                    out.push(id);
                },
                None => {
                    good = false;
                },
            }
        }
        i = i + 1;
    }
    assert(all@.take(i as int) =~= all@);
    if good {
        Some(out)
    } else {
        let ghost k = choose|k: int|
            0 <= k < picked.len() && (#[trigger] picked[k]).request_id is None;
        assert(cancelled_wishes(all@)[k].request_id is None);
        None
    }
}

/// What the phone asks for and what it takes back.
pub fn session_wishes(records: &Vec<LocalRequest>) -> (r: Result<Wishes, PhoneError>)
    ensures
        match r {
            Ok(w) => wishes_fault(records@) is None && seen(w.share_requests@) == pending_wishes(
                records@,
            ).map_values(|q: LocalRequest| q.request->0@) && views(w.cancel_intents@)
                == cancelled_wishes(records@).map_values(|q: LocalRequest| q.request_id->0@),
            Err(e) => wishes_fault(records@) == Some(e),
        },
{
    let mut i: usize = 0;
    while i < records.len()
        invariant
            i <= records@.len(),
            forall|k: int| 0 <= k < i ==> known_state(wish_state(#[trigger] records@[k])),
        decreases records@.len() - i,
    {
        if !is_pending(&records[i]) && !is_cancelled(&records[i]) {
            assert(!known_state(wish_state(records@[i as int])));
            return Err(PhoneError::UnknownState);
        }
        i = i + 1;
    }
    let share_requests = match pending_of(records) {
        Some(list) => list,
        None => {
            return Err(PhoneError::UnreadableRequest);
        },
    };
    let cancel_intents = match cancelled_of(records) {
        Some(list) => list,
        None => {
            return Err(PhoneError::CancelWithoutId);
        },
    };
    Ok(Wishes { share_requests, cancel_intents })
}

/// A round goes on as long as nobody stopped it.
pub fn check_cancelled(cancelled: bool) -> (r: Result<(), PhoneError>)
    ensures
        r is Err <==> cancelled,
        r is Err ==> r->Err_0 == PhoneError::Cancelled,
{
    if cancelled {
        Err(PhoneError::Cancelled)
    } else {
        Ok(())
    }
}

/// Two texts with a bar between them.
pub open spec fn barred(a: Chars, b: Chars) -> Chars {
    a + "|"@ + b
}

/// Two texts with a bar between them: a Share and its folder, or an invitation
/// and a device.
pub fn key(a: &str, b: &str) -> (r: String)
    ensures
        r@ == barred(a@, b@),
{
    let mut r = a.to_string();
    r.append("|");
    r.append(b);
    r
}

/// Whether a connection can be used again: only for the same invitation and
/// device.
pub fn keeps_connection(current: Option<&str>, wanted: &str) -> (r: bool)
    ensures
        r == (current is Some && current->0@ == wanted@),
{
    match current {
        Some(known) => same(known, wanted),
        None => false,
    }
}

/// What the phone remembers of each Share's last round, by the Share and the
/// folder that it is bound to.
pub struct BaseTokens {
    tokens: StringMap<String>,
}

impl View for BaseTokens {
    type V = Map<Chars, Chars>;

    closed spec fn view(&self) -> Map<Chars, Chars> {
        self.tokens@
    }
}

impl BaseTokens {
    /// Nothing is remembered.
    pub fn new() -> (r: Self)
        ensures
            r@ == Map::<Chars, Chars>::empty(),
    {
        BaseTokens { tokens: StringMap::new() }
    }

    /// What is remembered; nothing before a Share is selected.
    pub fn base_token(&self, key: Option<&str>) -> (r: Option<String>)
        ensures
            owned_text(r) == match key {
                Some(k) => if self@.dom().contains(k@) {
                    Some(self@[k@])
                } else {
                    None
                },
                None => None,
            },
    {
        match key {
            Some(k) => {
                match self.tokens.get(k) {
                    Some(token) => Some(token.clone()),
                    None => None,
                }
            },
            None => None,
        }
    }

    /// Remembers a token, or forgets it.
    pub fn set_base_token(&mut self, key: Option<&str>, token: Option<String>)
        ensures
            final(self)@ == match (key, owned_text(token)) {
                (Some(k), Some(t)) => old(self)@.insert(k@, t),
                (Some(k), None) => old(self)@.remove(k@),
                (None, _) => old(self)@,
            },
    {
        if let Some(k) = key {
            match token {
                Some(t) => {
                    self.tokens.insert(k.to_string(), t);
                },
                None => {
                    self.tokens.remove(k);
                },
            }
        }
    }
}

/// What was counted, with what another scan counted.
pub fn add_scan(metrics: &mut StoreMetrics, enumerated: u64, hashed: u64, bytes: u64, full: bool)
    requires
        old(metrics).files_enumerated + enumerated <= u64::MAX,
        old(metrics).files_hashed + hashed <= u64::MAX,
        old(metrics).bytes_hashed + bytes <= u64::MAX,
        old(metrics).full_scans < u64::MAX,
    ensures
        *final(metrics) == (StoreMetrics {
            files_enumerated: (old(metrics).files_enumerated + enumerated) as u64,
            files_hashed: (old(metrics).files_hashed + hashed) as u64,
            bytes_hashed: (old(metrics).bytes_hashed + bytes) as u64,
            staging_copies: old(metrics).staging_copies,
            full_scans: (old(metrics).full_scans + if full {
                1int
            } else {
                0
            }) as u64,
        }),
{
    metrics.files_enumerated = metrics.files_enumerated + enumerated;
    metrics.files_hashed = metrics.files_hashed + hashed;
    metrics.bytes_hashed = metrics.bytes_hashed + bytes;
    if full {
        metrics.full_scans = metrics.full_scans + 1;
    }
}

/// What was waiting inside of a connection.
#[derive(Clone, Copy, Debug, PartialEq, Eq, Structural)]
pub enum Buffered {
    Byte,
    Nothing,
    Broken,
}

/// What a look at the line showed.
#[derive(Clone, Copy, Debug, PartialEq, Eq, Structural)]
pub enum Line {
    /// The other side closed it.
    Closed,
    /// Something came.
    Ready,
    /// Nothing came in time.
    Quiet,
    Broken,
}

/// What to do about a connection.
#[derive(Clone, Copy, Debug, PartialEq, Eq, Structural)]
pub enum Poll {
    /// Close it.
    Close,
    /// Nothing came.
    Wait,
    /// Read a message; its first byte may be there already.
    Read(bool),
}

/// What to do about a connection.
pub open spec fn polled(buffered: Buffered, line: Line) -> Poll {
    match buffered {
        Buffered::Byte => Poll::Read(true),
        Buffered::Broken => Poll::Close,
        Buffered::Nothing => match line {
            Line::Closed => Poll::Close,
            Line::Ready => Poll::Read(false),
            Line::Quiet => Poll::Wait,
            Line::Broken => Poll::Close,
        },
    }
}

/// What to do about a connection; the line counts where nothing was waiting.
pub fn poll(buffered: Buffered, line: Line) -> (r: Poll)
    ensures
        r == polled(buffered, line),
{
    match buffered {
        Buffered::Byte => Poll::Read(true),
        Buffered::Broken => Poll::Close,
        Buffered::Nothing => match line {
            Line::Closed => Poll::Close,
            Line::Ready => Poll::Read(false),
            Line::Quiet => Poll::Wait,
            Line::Broken => Poll::Close,
        },
    }
}

/// The Share that a message calls for; any other message, or none, closes the
/// connection.
pub fn wake(incoming: Option<Message>) -> (r: Option<String>)
    ensures
        match incoming {
            Some(Message::WakeShare { share_id }) => r is Some && r->0@ == share_id@,
            _ => r is None,
        },
{
    match incoming {
        Some(Message::WakeShare { share_id }) => Some(share_id),
        _ => None,
    }
}

/// Pairs of characters; an odd last one stands alone.
pub open spec fn pairs_of(s: Chars) -> Seq<Chars> {
    Seq::new(
        ((s.len() + 1) / 2) as nat,
        |i: int|
            s.subrange(
                2 * i,
                if 2 * i + 2 <= s.len() {
                    2 * i + 2
                } else {
                    s.len() as int
                },
            ),
    )
}

fn in_pairs(text: &str) -> (r: String)
    ensures
        r@ == joined(pairs_of(text@), ":"@),
{
    let chars = chars_of(text);
    let size: usize = chars.len();
    let ghost all = pairs_of(text@);
    let mut parts: Vec<String> = Vec::new();
    let mut i: usize = 0;
    assert(views(parts@) =~= all.take(0));
    while i < size
        invariant
            i <= size + 1,
            i <= usize::MAX,
            size == chars@.len(),
            chars@ == text@,
            all == pairs_of(text@),
            i < size ==> i % 2 == 0,
            i >= size ==> parts@.len() == all.len(),
            i < size ==> parts@.len() == i / 2,
            views(parts@) == all.take(parts@.len() as int),
            parts@.len() <= all.len(),
        decreases size - i,
    {
        let end: usize = if size - i < 2 {
            size
        } else {
            i + 2
        };
        let pair = string_of(&chars, i, end);
        proof {
            let k = (i / 2) as int;
            assert(2 * k == i);
            assert(all[k] == pair@);
            lemma_views_push(parts@, pair);
            assert(all.take(k + 1) =~= all.take(k).push(all[k]));
        }
        parts.push(pair);
        i = end;
    }
    assert(all.take(parts@.len() as int) =~= all);
    join(&parts, ":")
}

/// What a person is shown before an invitation is taken.
pub struct Preview {
    pub address: String,
    pub fingerprint: String,
    pub invitation: String,
}

/// The invitation that is taken, with another address where one is given.
pub open spec fn readdressed(v: InvitationView, address: Chars) -> InvitationView {
    if address.len() > 0 {
        InvitationView { address, ..v }
    } else {
        v
    }
}

/// Shows what an invitation says, before it is taken.
pub fn preview(text: &str, legacy: Option<LegacyInvitation>, address: &str) -> (r: Result<
    Preview,
    InvitationError,
>)
    ensures
        match decoded(
            text@,
            match legacy {
                Some(l) => Some(l@),
                None => None,
            },
        ) {
            Err(e) => r is Err && r->Err_0 == e,
            Ok(v) => match invitation_fault(readdressed(v, address@)) {
                Some(e) => r is Err && r->Err_0 == e,
                None => r is Ok && r->Ok_0.address@ == readdressed(v, address@).address
                    && r->Ok_0.fingerprint@ == colon_text(sha256_of(hex_bytes(v.cert_der)))
                    && r->Ok_0.invitation@ == encoded(readdressed(v, address@)),
            },
        },
{
    let mut invite = match Invitation::decode(text, legacy) {
        Ok(invite) => invite,
        Err(e) => {
            return Err(e);
        },
    };
    let ghost v = invite@;
    if address.unicode_len() > 0 {
        invite.address = address.to_string();
    }
    assert(invite@ =~= readdressed(v, address@));
    if let Err(e) = invite.validate() {
        return Err(e);
    }
    let digits = match invite.fingerprint() {
        Ok(digits) => digits,
        Err(e) => {
            return Err(e);
        },
    };
    let fingerprint = in_pairs(digits.as_str());
    proof {
        law_fingerprints_agree(sha256_of(hex_bytes(v.cert_der)));
    }
    match invite.encode() {
        Ok(invitation) => Ok(Preview { address: invite.address, fingerprint, invitation }),
        Err(e) => Err(e),
    }
}

/// The phone shows a fingerprint just as the PC does, so that a person can hold
/// one against the other.
pub proof fn law_fingerprints_agree(digest: Seq<u8>)
    ensures
        joined(pairs_of(hex_text(digest)), ":"@) == colon_text(digest),
{
    let text = hex_text(digest);
    let ours = pairs_of(text);
    let theirs = Seq::new(digest.len(), |i: int| hex_text(seq![digest[i]]));
    assert(text.len() == 2 * digest.len());
    assert(ours.len() == digest.len());
    assert forall|i: int| 0 <= i < ours.len() implies ours[i] == #[trigger] theirs[i] by {
        assert(2 * i + 2 <= text.len());
        let pair = text.subrange(2 * i, 2 * i + 2);
        assert((2 * i) / 2 == i && (2 * i) % 2 == 0);
        assert((2 * i + 1) / 2 == i && (2 * i + 1) % 2 == 1);
        assert(pair[0] == text[2 * i]);
        assert(pair[1] == text[2 * i + 1]);
        let one = hex_text(seq![digest[i]]);
        assert(one.len() == 2);
        assert(one[0] == hex_digit(digest[i] as int / 16));
        assert(one[1] == hex_digit(digest[i] as int % 16));
        assert(pair =~= one);
    }
    assert(ours =~= theirs);
}

/// The wishes that wait for an answer are those that say so, and those that say
/// nothing.
pub proof fn law_pending_wishes(a: Seq<LocalRequest>, b: Seq<LocalRequest>, s: LocalRequest)
    ensures
        pending_wishes(a + b) == pending_wishes(a) + pending_wishes(b),
        pending_wishes(seq![s]) == if owned_text(s.state) is None || owned_text(s.state) == Some("pending"@) {
            seq![s]
        } else {
            Seq::empty()
        },
        pending_wishes(Seq::empty()) == Seq::<LocalRequest>::empty(),
    decreases b.len(),
{
    let one = seq![s];
    assert(one.drop_last() =~= Seq::empty());
    assert(pending_wishes(one.drop_last()) == Seq::<LocalRequest>::empty());
    assert(pending_wishes(one) =~= if owned_text(s.state) is None || owned_text(s.state) == Some("pending"@) {
        seq![s]
    } else {
        Seq::empty()
    });
    if b.len() == 0 {
        assert(a + b =~= a);
        assert(pending_wishes(a + b) =~= pending_wishes(a) + pending_wishes(b));
    } else {
        law_pending_wishes(a, b.drop_last(), s);
        assert((a + b).drop_last() =~= a + b.drop_last());
        assert((a + b).last() == b.last());
        assert(pending_wishes(a + b) =~= pending_wishes(a) + pending_wishes(b));
    }
}

/// The wishes that are taken back are those that say so.
pub proof fn law_cancelled_wishes(a: Seq<LocalRequest>, b: Seq<LocalRequest>, s: LocalRequest)
    ensures
        cancelled_wishes(a + b) == cancelled_wishes(a) + cancelled_wishes(b),
        cancelled_wishes(seq![s]) == if owned_text(s.state) == Some("cancelled"@) {
            seq![s]
        } else {
            Seq::empty()
        },
        cancelled_wishes(Seq::empty()) == Seq::<LocalRequest>::empty(),
    decreases b.len(),
{
    lemma_states_differ();
    let one = seq![s];
    assert(one.drop_last() =~= Seq::empty());
    assert(cancelled_wishes(one.drop_last()) == Seq::<LocalRequest>::empty());
    assert(cancelled_wishes(one) =~= if owned_text(s.state) == Some("cancelled"@) {
        seq![s]
    } else {
        Seq::empty()
    });
    if b.len() == 0 {
        assert(a + b =~= a);
        assert(cancelled_wishes(a + b) =~= cancelled_wishes(a) + cancelled_wishes(b));
    } else {
        law_cancelled_wishes(a, b.drop_last(), s);
        assert((a + b).drop_last() =~= a + b.drop_last());
        assert((a + b).last() == b.last());
        assert(cancelled_wishes(a + b) =~= cancelled_wishes(a) + cancelled_wishes(b));
    }
}

/// Wishes are read where each says that it waits or is taken back, one that
/// waits has a request, and one that is taken back has an identity.
pub proof fn law_wishes_are_read(all: Seq<LocalRequest>)
    ensures
        wishes_fault(all) is None <==> forall|i: int| #![trigger all[i]]
            0 <= i < all.len() ==> {
                let state = owned_text(all[i].state);
                &&& state is None || state == Some("pending"@) || state == Some("cancelled"@)
                &&& state is None || state == Some("pending"@) ==> all[i].request is Some
                &&& state == Some("cancelled"@) ==> all[i].request_id is Some
            },
{
    lemma_states_differ();
    lemma_wishes(all);
    let waiting = pending_wishes(all);
    let gone = cancelled_wishes(all);
    if wishes_fault(all) is None {
        assert forall|i: int| #![trigger all[i]] 0 <= i < all.len() implies {
            let state = owned_text(all[i].state);
            &&& state is None || state == Some("pending"@) || state == Some("cancelled"@)
            &&& state is None || state == Some("pending"@) ==> all[i].request is Some
            &&& state == Some("cancelled"@) ==> all[i].request_id is Some
        } by {
            assert(known_state(wish_state(all[i])));
            assert(all.contains(all[i]));
            if wish_state(all[i]) == "pending"@ {
                assert(waiting.contains(all[i]));
                let k = choose|k: int| 0 <= k < waiting.len() && waiting[k] == all[i];
                assert(waiting[k].request is Some);
            } else {
                assert(gone.contains(all[i]));
                let k = choose|k: int| 0 <= k < gone.len() && gone[k] == all[i];
                assert(gone[k].request_id is Some);
            }
        }
    } else {
        if exists|i: int| 0 <= i < all.len() && !known_state(wish_state(#[trigger] all[i])) {
            let i = choose|i: int| 0 <= i < all.len() && !known_state(wish_state(#[trigger] all[i]));
            assert(!known_state(wish_state(all[i])));
        } else if exists|i: int|
            0 <= i < waiting.len() && (#[trigger] waiting[i]).request is None {
            let i = choose|i: int| 0 <= i < waiting.len() && (#[trigger] waiting[i]).request is None;
            assert(waiting.contains(waiting[i]));
            let k = choose|k: int| 0 <= k < all.len() && all[k] == waiting[i];
            assert(all[k].request is None);
        } else {
            let i = choose|i: int| 0 <= i < gone.len() && (#[trigger] gone[i]).request_id is None;
            assert(gone.contains(gone[i]));
            let k = choose|k: int| 0 <= k < all.len() && all[k] == gone[i];
            assert(all[k].request_id is None);
        }
    }
}

proof fn lemma_states_differ()
    ensures
        "pending"@ != "cancelled"@,
{
    reveal_strlit("pending");
    reveal_strlit("cancelled");
    assert("pending"@.len() != "cancelled"@.len());
}

proof fn lemma_wishes(all: Seq<LocalRequest>)
    ensures
        forall|q: LocalRequest| #[trigger]
            pending_wishes(all).contains(q) <==> all.contains(q) && wish_state(q) == "pending"@,
        forall|q: LocalRequest| #[trigger]
            cancelled_wishes(all).contains(q) <==> all.contains(q) && wish_state(q) == "cancelled"@,
    decreases all.len(),
{
    if all.len() > 0 {
        let less = all.drop_last();
        lemma_wishes(less);
        let n = all.len() - 1;
        let (w0, w) = (pending_wishes(less), pending_wishes(all));
        let (c0, c) = (cancelled_wishes(less), cancelled_wishes(all));
        assert forall|q: LocalRequest| all.contains(q) <==> less.contains(q) || q == all[n] by {
            if all.contains(q) {
                let k = choose|k: int| 0 <= k < all.len() && all[k] == q;
                if k < n {
                    assert(less[k] == q);
                }
            }
            if less.contains(q) {
                let k = choose|k: int| 0 <= k < less.len() && less[k] == q;
                assert(all[k] == q);
            }
        }
        assert forall|q: LocalRequest| #[trigger] w.contains(q) <==> all.contains(q) && wish_state(q)
            == "pending"@ by {
            assert(w.contains(q) <==> w0.contains(q) || (wish_state(all[n]) == "pending"@ && q
                == all[n])) by {
                lemma_member(w0, all[n], q);
            }
        }
        assert forall|q: LocalRequest| #[trigger] c.contains(q) <==> all.contains(q) && wish_state(q)
            == "cancelled"@ by {
            assert(c.contains(q) <==> c0.contains(q) || (wish_state(all[n]) == "cancelled"@ && q
                == all[n])) by {
                lemma_member(c0, all[n], q);
            }
        }
    }
}

proof fn lemma_member(s: Seq<LocalRequest>, x: LocalRequest, q: LocalRequest)
    ensures
        s.push(x).contains(q) <==> s.contains(q) || q == x,
{
    let t = s.push(x);
    if t.contains(q) {
        let k = choose|k: int| 0 <= k < t.len() && t[k] == q;
        if k < s.len() {
            assert(s[k] == q);
        }
    }
    if s.contains(q) {
        let k = choose|k: int| 0 <= k < s.len() && s[k] == q;
        assert(t[k] == q);
    }
    assert(t[s.len() as int] == x);
}

/// The phone reads what has arrived, closes where the line is closed or broken,
/// and waits otherwise; what was read already comes first.
pub proof fn law_line_is_watched(line: Line)
    ensures
        polled(Buffered::Byte, line) == Poll::Read(true),
        polled(Buffered::Broken, line) == Poll::Close,
        polled(Buffered::Nothing, line) == Poll::Read(false) <==> line == Line::Ready,
        polled(Buffered::Nothing, line) == Poll::Wait <==> line == Line::Quiet,
{
}

} // verus!
