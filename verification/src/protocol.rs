//! What the two devices say to each other: messages, their frames, the
//! transfer of a manifest in chunks and the proof of the shared secret.

use crate::collections::{lemma_take_contains, lists, Duplicate, StringMap, StringSet};
use crate::config::{ShareDefinition, ShareRequest};
use crate::model::{
    is_hash, manifest_fault, valid_hash, valid_manifest, validate_manifest, Entry, EntryView,
    Manifest, ModelError, MAX_FILE, MAX_FILES,
};
use crate::primitives::{
    be32, be_value, copy_bytes, hex_bytes, hex_decode, hex_encode, hex_text, hmac_of, hmac_sha256,
    hmac_verify, is_hex, push_be32, push_bytes, read_be32,
};
use crate::text::{decimal, number, same, Chars};
use vstd::prelude::*;

verus! {

/// The largest frame, in bytes.
pub const MAX_FRAME: usize = 16 * 1024 * 1024;

/// How many files one chunk of a manifest holds at most.
pub const MANIFEST_CHUNK_FILES: usize = 1024;

/// The version that both devices must speak.
pub const PROTOCOL_VERSION: u32 = 9;

/// What a store counted.
#[derive(Clone, Copy, Debug, PartialEq, Eq, Structural)]
pub struct StoreMetrics {
    pub files_enumerated: u64,
    pub files_hashed: u64,
    pub bytes_hashed: u64,
    pub staging_copies: u64,
    pub full_scans: u64,
}

/// Nothing counted.
pub open spec fn no_metrics() -> StoreMetrics {
    StoreMetrics {
        files_enumerated: 0,
        files_hashed: 0,
        bytes_hashed: 0,
        staging_copies: 0,
        full_scans: 0,
    }
}

impl Default for StoreMetrics {
    fn default() -> (r: Self)
        ensures
            r == no_metrics(),
    {
        StoreMetrics {
            files_enumerated: 0,
            files_hashed: 0,
            bytes_hashed: 0,
            staging_copies: 0,
            full_scans: 0,
        }
    }
}

/// A message.
#[allow(inconsistent_fields)]
pub enum Message {
    Scoped { share_id: String, message: Box<Message> },
    Shares { shares: Vec<ShareDefinition> },
    Capabilities {
        device_id: String,
        share_requests: Vec<ShareRequest>,
        cancel_intents: Vec<String>,
        available_shares: Vec<String>,
        requested_share_ids: Vec<String>,
        audit: bool,
        unlink_requested: bool,
    },
    ShareRequestStatus { accepted: Vec<String>, rejected: Vec<String>, cancelled: Vec<String> },
    DeviceUnlinked,
    UnlinkAck,
    UnlinkComplete,
    SelectShare { share_id: String },
    StartRound,
    WakeShare { share_id: String },
    ShareSkipped { share_id: String, reason: String },
    SessionDone,
    RoundDeferred { shares: Vec<String> },
    AckBatch { entries: Manifest },
    Hello { version: u32, pair_id: String, device_id: String },
    Challenge { nonce: String },
    Proof { mac: String },
    Ready,
    Scan,
    DeltaScan { base_token: String, paths: StringSet },
    DeltaManifest { paths: StringSet, files: Manifest, metrics: StoreMetrics },
    NeedFullScan,
    ManifestBegin { count: usize },
    ManifestChunk { files: Manifest },
    ManifestEnd { metrics: StoreMetrics },
    Get { path: String, entry: Entry },
    Blob { entry: Entry },
    Put { path: String, entry: Entry, expected: Option<String> },
    PutBatchEnd,
    Accept,
    Done { transferred: usize, conflicts: usize, base_token: String },
    Error { message: String },
}

/// Why a message is refused.
#[derive(Clone, Debug)]
pub enum ProtocolError {
    FrameTooLarge,
    /// The stream ended inside a frame or before an expected message.
    Ended,
    /// The other side reported an error.
    Peer(String),
    MissingContext,
    WrongContext,
    ExpectedBegin,
    TooManyFiles,
    ExpectedChunk,
    InvalidChunk,
    DuplicatePath(String),
    ExceedsCount,
    ExpectedEnd,
    Manifest(ModelError),
    FileTooLarge,
    /// Fewer bytes came than announced: how many, and of how many.
    Truncated(u64, u64),
    ExpectedHello,
    /// The other side speaks this version.
    Incompatible(u32),
    WrongPair,
    ExpectedChallenge,
    ExpectedProof,
    InvalidSecret,
    InvalidIdentity,
    InvalidProof,
    AuthenticationFailed,
    AuthenticationRejected,
}

/// A frame: the length of the payload in four bytes, then the payload.
pub open spec fn framed(payload: Seq<u8>) -> Seq<u8> {
    be32(payload.len() as int) + payload
}

/// Frames a payload for sending.
pub fn send(payload: &Vec<u8>) -> (r: Result<Vec<u8>, ProtocolError>)
    ensures
        r is Ok <==> payload@.len() <= MAX_FRAME,
        r is Ok ==> r->Ok_0@ == framed(payload@),
        r is Err ==> r->Err_0 is FrameTooLarge,
{
    if payload.len() > MAX_FRAME {
        return Err(ProtocolError::FrameTooLarge);
    }
    let mut out: Vec<u8> = Vec::new();
    push_be32(&mut out, payload.len() as u32);
    push_bytes(&mut out, payload.as_slice());
    assert(out@ =~= framed(payload@));
    Ok(out)
}

/// The length that the four bytes of a header announce.
pub fn frame_length(header: &[u8]) -> (r: Result<usize, ProtocolError>)
    ensures
        r is Ok <==> header@.len() >= 4 && be_value(header@.subrange(0, 4)) <= MAX_FRAME,
        r is Ok ==> r->Ok_0 == be_value(header@.subrange(0, 4)),
        r is Err ==> (r->Err_0 is Ended <==> header@.len() < 4),
        r is Err ==> (r->Err_0 is FrameTooLarge <==> header@.len() >= 4),
{
    if header.len() < 4 {
        return Err(ProtocolError::Ended);
    }
    let length: u32 = read_be32(header, 0);
    if length as u64 > MAX_FRAME as u64 {
        return Err(ProtocolError::FrameTooLarge);
    }
    Ok(length as usize)
}

/// The payload of the frame at the head of a stream.
pub fn receive(stream: &[u8]) -> (r: Result<Vec<u8>, ProtocolError>)
    ensures
        r is Ok <==> stream@.len() >= 4 && be_value(stream@.subrange(0, 4)) <= MAX_FRAME
            && stream@.len() >= 4 + be_value(stream@.subrange(0, 4)),
        r is Ok ==> r->Ok_0@ == stream@.subrange(4, 4 + be_value(stream@.subrange(0, 4))),
        r is Err ==> (r->Err_0 is FrameTooLarge <==> stream@.len() >= 4 && be_value(
            stream@.subrange(0, 4),
        ) > MAX_FRAME),
        r is Err ==> r->Err_0 is FrameTooLarge || r->Err_0 is Ended,
{
    let length: usize = match frame_length(stream) {
        Ok(n) => n,
        Err(e) => {
            return Err(e);
        },
    };
    if stream.len() - 4 < length {
        return Err(ProtocolError::Ended);
    }
    Ok(copy_bytes(stream, 4, 4 + length))
}

/// The payload of a frame whose first byte was read before the rest.
pub fn receive_after_first(first: u8, rest: &[u8]) -> (r: Result<Vec<u8>, ProtocolError>)
    requires
        rest@.len() < usize::MAX,
    ensures
        ({
            let stream = seq![first] + rest@;
            &&& r is Ok <==> stream.len() >= 4 && be_value(stream.subrange(0, 4)) <= MAX_FRAME
                && stream.len() >= 4 + be_value(stream.subrange(0, 4))
            &&& r is Ok ==> r->Ok_0@ == stream.subrange(4, 4 + be_value(stream.subrange(0, 4)))
            &&& r is Err ==> (r->Err_0 is FrameTooLarge <==> stream.len() >= 4 && be_value(
                stream.subrange(0, 4),
            ) > MAX_FRAME)
            &&& r is Err ==> r->Err_0 is FrameTooLarge || r->Err_0 is Ended
        }),
{
    let mut stream: Vec<u8> = Vec::new();
    stream.push(first);
    push_bytes(&mut stream, rest);
    assert(stream@ =~= seq![first] + rest@);
    receive(stream.as_slice())
}

/// Receiving a sent frame gives the payload back, whatever follows it.
pub proof fn law_frame_round_trip(payload: Seq<u8>, rest: Seq<u8>)
    requires
        payload.len() <= MAX_FRAME,
    ensures
        ({
            let stream = framed(payload) + rest;
            let n = be_value(stream.subrange(0, 4));
            n == payload.len() && stream.len() >= 4 + n && stream.subrange(4, 4 + n) == payload
        }),
{
    crate::primitives::lemma_be32(payload.len() as int);
    let stream = framed(payload) + rest;
    assert(stream.subrange(0, 4) =~= be32(payload.len() as int));
    assert(stream.subrange(4, 4 + payload.len() as int) =~= payload);
}

/// Turns an error reported by the other side into one of our own.
pub fn accept(message: Message) -> (r: Result<Message, ProtocolError>)
    ensures
        r is Err <==> message is Error,
        r is Ok ==> r->Ok_0 == message,
        r is Err ==> r->Err_0 is Peer && r->Err_0->Peer_0 == message->Error_message,
{
    match message {
        Message::Error { message } => Err(ProtocolError::Peer(message)),
        other => Ok(other),
    }
}

/// Puts a message into the context of a Share.
pub fn send_for(share_id: &str, message: Message) -> (r: Message)
    ensures
        r is Scoped,
        r->Scoped_share_id@ == share_id@,
        *r->Scoped_message == message,
{
    Message::Scoped { share_id: share_id.to_owned(), message: Box::new(message) }
}

/// The message that a Share is to take out of what arrived.
pub open spec fn body(m: Message, share: Chars) -> Option<Message> {
    match m {
        Message::Scoped { share_id, message } => if share_id@ == share && !(*message is Error) {
            Some(*message)
        } else {
            None
        },
        _ => None,
    }
}

/// The error for a message that a Share takes nothing out of.
pub open spec fn body_error(m: Message, share: Chars, e: ProtocolError) -> bool {
    match e {
        ProtocolError::Peer(text) => {
            ||| m is Error && text == m->Error_message
            ||| m is Scoped && m->Scoped_share_id@ == share && (*m->Scoped_message is Error)
                && text == (*m->Scoped_message)->Error_message
        },
        ProtocolError::MissingContext => !(m is Scoped) && !(m is Error),
        ProtocolError::WrongContext => m is Scoped && m->Scoped_share_id@ != share,
        _ => false,
    }
}

/// Takes a message out of the context of a Share.
pub fn receive_for(message: Message, share_id: &str) -> (r: Result<Message, ProtocolError>)
    ensures
        r is Ok <==> body(message, share_id@) is Some,
        r is Ok ==> Some(r->Ok_0) == body(message, share_id@),
        r is Err ==> body_error(message, share_id@, r->Err_0),
{
    match accept(message) {
        Err(e) => Err(e),
        Ok(Message::Scoped { share_id: actual, message }) => {
            if !same(actual.as_str(), share_id) {
                return Err(ProtocolError::WrongContext);
            }
            accept(*message)
        },
        Ok(_) => Err(ProtocolError::MissingContext),
    }
}

/// The entries of a map whose keys stand at `from..to` of an order.
pub open spec fn portion(
    order: Seq<Chars>,
    files: Map<Chars, EntryView>,
    from: int,
    to: int,
) -> Map<Chars, EntryView> {
    Map::new(|k: Chars| order.subrange(from, to).contains(k), |k: Chars| files[k])
}

/// How many chunks a number of files takes.
pub open spec fn chunk_count(n: int) -> int {
    (n + 1023) / 1024
}

/// Where chunk `i` of `n` files ends.
pub open spec fn chunk_end(n: int, i: int) -> int {
    if 1024 * (i + 1) <= n {
        1024 * (i + 1)
    } else {
        n
    }
}

/// The messages of a manifest: a beginning with the count, full chunks in
/// ascending order and a last one with what is left, an end with the metrics.
pub open spec fn manifest_messages(
    m: Seq<Message>,
    share: Chars,
    order: Seq<Chars>,
    files: Map<Chars, EntryView>,
    metrics: StoreMetrics,
) -> bool {
    let n = order.len() as int;
    let k = chunk_count(n);
    &&& m.len() == k + 2
    &&& body(m[0], share) matches Some(Message::ManifestBegin { count }) && count == n
    &&& forall|i: int|
        0 <= i < k ==> chunk_message(#[trigger] m[i + 1], share, order, files, 1024 * i, chunk_end(n, i))
    &&& body(m[k + 1], share) matches Some(Message::ManifestEnd { metrics: x }) && x == metrics
}

/// The message holds the files at `from..to`.
pub open spec fn chunk_message(
    m: Message,
    share: Chars,
    order: Seq<Chars>,
    files: Map<Chars, EntryView>,
    from: int,
    to: int,
) -> bool {
    body(m, share) matches Some(Message::ManifestChunk { files: c }) && c@ == portion(
        order,
        files,
        from,
        to,
    )
}

/// The messages that carry a manifest.
pub fn send_manifest(share_id: &str, files: &Manifest) -> (r: Result<Vec<Message>, ModelError>)
    ensures
        r is Ok <==> valid_manifest(files@),
        r is Err ==> Some(r->Err_0@) == manifest_fault(files.order(), files@),
        r is Ok ==> manifest_messages(
            r->Ok_0@,
            share_id@,
            files.order(),
            files@,
            no_metrics(),
        ),
{
    send_manifest_with_metrics(share_id, files, StoreMetrics::default())
}

/// The messages that carry a manifest and what a store counted.
pub fn send_manifest_with_metrics(share_id: &str, files: &Manifest, metrics: StoreMetrics) -> (r:
    Result<Vec<Message>, ModelError>)
    ensures
        r is Ok <==> valid_manifest(files@),
        r is Err ==> Some(r->Err_0@) == manifest_fault(files.order(), files@),
        r is Ok ==> manifest_messages(r->Ok_0@, share_id@, files.order(), files@, metrics),
{
    match validate_manifest(files) {
        Ok(()) => {},
        Err(e) => {
            return Err(e);
        },
    }
    let n: usize = files.len();
    let ghost order = files.order();
    let ghost all = files@;
    let mut out: Vec<Message> = Vec::new();
    out.push(send_for(share_id, Message::ManifestBegin { count: n }));
    let mut from: usize = 0;
    let ghost mut k: int = 0;
    while from < n
        invariant
            n <= MAX_FILES,
            order == files.order(),
            all == files@,
            n == order.len(),
            lists(order, all.dom()),
            k >= 0,
            from == (if 1024 * k <= n {
                1024 * k
            } else {
                n as int
            }),
            from < n ==> from == 1024 * k,
            from == n ==> k == chunk_count(n as int),
            out@.len() == k + 1,
            body(out@[0], share_id@) matches Some(Message::ManifestBegin { count }) && count == n,
            forall|i: int|
                0 <= i < k ==> chunk_message(
                    #[trigger] out@[i + 1],
                    share_id@,
                    order,
                    all,
                    1024 * i,
                    chunk_end(n as int, i),
                ),
        decreases n - from,
    {
        let to: usize = if n - from >= MANIFEST_CHUNK_FILES {
            from + MANIFEST_CHUNK_FILES
        } else {
            n
        };
        let chunk = copy_portion(files, from, to);
        let ghost was = out@;
        out.push(send_for(share_id, Message::ManifestChunk { files: chunk }));
        proof {
            assert(to == chunk_end(n as int, k));
            assert forall|i: int| 0 <= i < k + 1 implies chunk_message(
                #[trigger] out@[i + 1],
                share_id@,
                order,
                all,
                1024 * i,
                chunk_end(n as int, i),
            ) by {
                if i < k {
                    assert(out@[i + 1] == was[i + 1]);
                }
            }
            k = k + 1;
        }
        from = to;
    }
    out.push(send_for(share_id, Message::ManifestEnd { metrics }));
    assert(k == chunk_count(n as int));
    proof {
        assert forall|i: int| 0 <= i < k implies chunk_message(
            #[trigger] out@[i + 1],
            share_id@,
            order,
            all,
            1024 * i,
            chunk_end(n as int, i),
        ) by {}
    }
    Ok(out)
}

/// Copies the entries at `from..to`.
fn copy_portion(files: &Manifest, from: usize, to: usize) -> (r: Manifest)
    requires
        from <= to <= files.order().len(),
    ensures
        r@ == portion(files.order(), files@, from as int, to as int),
{
    let mut r: Manifest = StringMap::new();
    let ghost part = files.order().subrange(from as int, to as int);
    let mut i: usize = from;
    while i < to
        invariant
            from <= i <= to <= files.order().len(),
            part == files.order().subrange(from as int, to as int),
            forall|k: Chars| #[trigger] r@.dom().contains(k) <==> part.take(i - from).contains(k),
            forall|k: Chars| r@.dom().contains(k) ==> #[trigger] r@[k] == files@[k],
        decreases to - i,
    {
        let key = files.key_at(i).clone();
        let value = files.value_at(i).duplicate();
        proof {
            lemma_take_contains(part, i - from);
            assert(part[i - from] == files.order()[i as int]);
        }
        r.insert(key, value);
        i = i + 1;
    }
    assert(part.take(to - from) =~= part);
    assert(r@ =~= portion(files.order(), files@, from as int, to as int));
    r
}

/// How far a manifest has arrived.
#[verifier::ext_equal]
pub struct GatherView {
    pub count: Option<usize>,
    pub files: Map<Chars, EntryView>,
    pub metrics: Option<StoreMetrics>,
}

/// Nothing has arrived yet.
pub open spec fn nothing_gathered() -> GatherView {
    GatherView { count: None, files: Map::empty(), metrics: None }
}

/// What one more message brings: the count, then chunks with new paths until
/// the count is reached, then the metrics of a sound manifest. Nothing else
/// is taken.
pub open spec fn gather(s: GatherView, b: Option<Message>) -> Option<GatherView> {
    match s.count {
        None => match b {
            Some(Message::ManifestBegin { count }) => if count <= MAX_FILES {
                Some(GatherView { count: Some(count), ..s })
            } else {
                None
            },
            _ => None,
        },
        Some(count) => if s.files.dom().len() < count {
            match b {
                Some(Message::ManifestChunk { files }) => if 0 < files@.dom().len()
                    <= MANIFEST_CHUNK_FILES && files@.dom().disjoint(s.files.dom())
                    && s.files.dom().len() + files@.dom().len() <= count {
                    Some(GatherView { files: s.files.union_prefer_right(files@), ..s })
                } else {
                    None
                },
                _ => None,
            }
        } else {
            match b {
                Some(Message::ManifestEnd { metrics }) => if valid_manifest(s.files) {
                    Some(GatherView { metrics: Some(metrics), ..s })
                } else {
                    None
                },
                _ => None,
            }
        },
    }
}

/// What a sequence of messages brings, up to the end of the manifest.
pub open spec fn gathered(s: GatherView, m: Seq<Message>, share: Chars) -> Option<GatherView>
    decreases m.len(),
{
    if s.metrics is Some {
        Some(s)
    } else if m.len() == 0 {
        None
    } else {
        match gather(s, body(m[0], share)) {
            None => None,
            Some(t) => gathered(t, m.drop_first(), share),
        }
    }
}

/// The error for a message that [`gather`] does not take.
pub open spec fn gather_error(s: GatherView, b: Option<Message>, e: ProtocolError) -> bool {
    match e {
        ProtocolError::ExpectedBegin => b is Some && s.count is None && !(b->0 is ManifestBegin),
        ProtocolError::TooManyFiles => s.count is None && (b matches Some(
            Message::ManifestBegin { count },
        ) && count > MAX_FILES),
        ProtocolError::ExpectedChunk => b is Some && s.count is Some && s.files.dom().len()
            < s.count->0 && !(b->0 is ManifestChunk),
        ProtocolError::InvalidChunk => s.count is Some && s.files.dom().len() < s.count->0 && (
        b matches Some(Message::ManifestChunk { files }) && !(0 < files@.dom().len()
            <= MANIFEST_CHUNK_FILES)),
        ProtocolError::DuplicatePath(p) => s.count is Some && s.files.dom().len() < s.count->0 && (
        b matches Some(Message::ManifestChunk { files }) && 0 < files@.dom().len()
            <= MANIFEST_CHUNK_FILES && files@.dom().contains(p@) && s.files.dom().contains(p@)
            && forall|q: Chars| #[trigger]
            files@.dom().contains(q) && s.files.dom().contains(q) ==> q == p@
                || crate::text::before(p@, q)),
        ProtocolError::ExceedsCount => s.count is Some && s.files.dom().len() < s.count->0 && (
        b matches Some(Message::ManifestChunk { files }) && 0 < files@.dom().len()
            <= MANIFEST_CHUNK_FILES && files@.dom().disjoint(s.files.dom()) && s.files.dom().len() + files@.dom().len() > s.count->0),
        ProtocolError::ExpectedEnd => b is Some && s.count is Some && s.files.dom().len()
            >= s.count->0 && !(b->0 is ManifestEnd),
        ProtocolError::Manifest(e) => s.count is Some && s.files.dom().len() >= s.count->0 && b
            is Some && b->0 is ManifestEnd && crate::model::manifest_error(s.files, e@),
        _ => false,
    }
}

/// The error for a sequence of messages that is no manifest: that of the first
/// message that is not taken, or that they end too early.
pub open spec fn gathered_error(s: GatherView, m: Seq<Message>, share: Chars, e: ProtocolError) -> bool
    decreases m.len(),
{
    if s.metrics is Some {
        false
    } else if m.len() == 0 {
        e is Ended
    } else {
        match gather(s, body(m[0], share)) {
            None => if body(m[0], share) is None {
                body_error(m[0], share, e)
            } else {
                gather_error(s, body(m[0], share), e)
            },
            Some(t) => gathered_error(t, m.drop_first(), share, e),
        }
    }
}

/// A manifest on its way in.
pub struct ManifestReceiver {
    share_id: String,
    count: Option<usize>,
    files: Manifest,
    metrics: Option<StoreMetrics>,
}

impl View for ManifestReceiver {
    type V = GatherView;

    closed spec fn view(&self) -> GatherView {
        GatherView { count: self.count, files: self.files@, metrics: self.metrics }
    }
}

impl ManifestReceiver {
    /// The Share whose manifest arrives.
    pub closed spec fn share(&self) -> Chars {
        self.share_id@
    }

    /// Waits for the manifest of a Share.
    pub fn new(share_id: &str) -> (r: Self)
        ensures
            r@ == nothing_gathered(),
            r.share() == share_id@,
    {
        ManifestReceiver {
            share_id: share_id.to_owned(),
            count: None,
            files: StringMap::new(),
            metrics: None,
        }
    }

    /// Takes the next message. The result says whether the manifest is
    /// complete; a refused message changes nothing.
    pub fn take(&mut self, message: Message) -> (r: Result<bool, ProtocolError>)
        requires
            old(self)@.metrics is None,
        ensures
            final(self).share() == old(self).share(),
            r is Ok <==> gather(old(self)@, body(message, old(self).share())) is Some,
            r is Ok ==> Some(final(self)@) == gather(
                old(self)@,
                body(message, old(self).share()),
            ) && r->Ok_0 == (final(self)@.metrics is Some),
            r is Err ==> final(self)@ == old(self)@ && if body(message, old(self).share()) is None {
                body_error(message, old(self).share(), r->Err_0)
            } else {
                gather_error(old(self)@, body(message, old(self).share()), r->Err_0)
            },
    {
        let inner = match receive_for(message, self.share_id.as_str()) {
            Ok(m) => m,
            Err(e) => {
                return Err(e);
            },
        };
        let have: usize = self.files.len();
        match self.count {
            None => {
                match inner {
                    Message::ManifestBegin { count } => {
                        if count > MAX_FILES {
                            return Err(ProtocolError::TooManyFiles);
                        }
                        self.count = Some(count);
                        Ok(false)
                    },
                    _ => Err(ProtocolError::ExpectedBegin),
                }
            },
            Some(count) => {
                if have < count {
                    match inner {
                        Message::ManifestChunk { files } => self.take_chunk(files, count, have),
                        _ => Err(ProtocolError::ExpectedChunk),
                    }
                } else {
                    match inner {
                        Message::ManifestEnd { metrics } => {
                            match validate_manifest(&self.files) {
                                Ok(()) => {},
                                Err(e) => {
                                    return Err(ProtocolError::Manifest(e));
                                },
                            }
                            self.metrics = Some(metrics);
                            Ok(true)
                        },
                        _ => Err(ProtocolError::ExpectedEnd),
                    }
                }
            },
        }
    }

    fn take_chunk(&mut self, files: Manifest, count: usize, have: usize) -> (r: Result<
        bool,
        ProtocolError,
    >)
        requires
            old(self)@.count == Some(count),
            old(self)@.metrics is None,
            have == old(self)@.files.dom().len(),
            old(self)@.files.dom().finite(),
            have < count,
        ensures
            final(self).share() == old(self).share(),
            ({
                let b = Some(Message::ManifestChunk { files });
                &&& r is Ok <==> gather(old(self)@, b) is Some
                &&& r is Ok ==> Some(final(self)@) == gather(old(self)@, b) && !r->Ok_0
                &&& r is Err ==> final(self)@ == old(self)@ && gather_error(old(self)@, b, r->Err_0)
            }),
    {
        let n: usize = files.len();
        if n == 0 || n > MANIFEST_CHUNK_FILES {
            return Err(ProtocolError::InvalidChunk);
        }
        let ghost s = self@;
        let ghost order = files.order();
        let mut i: usize = 0;
        while i < n
            invariant
                s == self@,
                order == files.order(),
                n == order.len(),
                n == files@.dom().len(),
                0 < n <= MANIFEST_CHUNK_FILES,
                lists(order, files@.dom()),
                s.count == Some(count),
                s.files.dom().len() < count,
                i <= n,
                self.share() == old(self).share(),
                self@ == old(self)@,
                forall|j: int| 0 <= j < i ==> !s.files.dom().contains(#[trigger] order[j]),
            decreases n - i,
        {
            let path = files.key_at(i);
            if self.files.contains(path.as_str()) {
                proof {
                    assert forall|q: Chars| #[trigger]
                        files@.dom().contains(q) && s.files.dom().contains(q) implies q == path@
                        || crate::text::before(path@, q) by {
                        assert(order.contains(q));
                        let j = choose|j: int| 0 <= j < order.len() && order[j] == q;
                        assert(j >= i);
                    }
                }
                return Err(ProtocolError::DuplicatePath(path.clone()));
            }
            i = i + 1;
        }
        proof {
            assert(files@.dom().disjoint(s.files.dom())) by {
                assert forall|q: Chars| files@.dom().contains(q) implies !s.files.dom().contains(q) by {
                    assert(order.contains(q));
                    let j = choose|j: int| 0 <= j < order.len() && order[j] == q;
                    assert(!s.files.dom().contains(order[j]));
                }
            }
        }
        if count - have < n {
            return Err(ProtocolError::ExceedsCount);
        }
        i = 0;
        while i < n
            invariant
                order == files.order(),
                n == order.len(),
                lists(order, files@.dom()),
                i <= n,
                self.share() == old(self).share(),
                self@.count == s.count,
                self@.metrics == s.metrics,
                forall|k: Chars| #[trigger]
                    self@.files.dom().contains(k) <==> s.files.dom().contains(k) || order.take(
                        i as int,
                    ).contains(k),
                forall|k: Chars|
                    self@.files.dom().contains(k) ==> #[trigger] self@.files[k] == (if order.take(
                        i as int,
                    ).contains(k) {
                        files@[k]
                    } else {
                        s.files[k]
                    }),
            decreases n - i,
        {
            let key = files.key_at(i).clone();
            let value = files.value_at(i).duplicate();
            let ghost was = self@.files;
            proof {
                lemma_take_contains(order, i as int);
            }
            self.files.insert(key, value);
            proof {
                let at = order[i as int];
                assert(self@.files == was.insert(at, files@[at]));
                assert forall|k: Chars| #[trigger] self@.files.dom().contains(k) <==> s.files.dom().contains(
                    k,
                ) || order.take(i + 1).contains(k) by {
                    assert(was.dom().contains(k) || k == at <==> self@.files.dom().contains(k));
                }
            }
            i = i + 1;
        }
        proof {
            assert(order.take(n as int) =~= order);
            assert(self@.files =~= s.files.union_prefer_right(files@));
        }
        Ok(false)
    }

    /// The files that arrived.
    pub fn into_files(self) -> (r: Manifest)
        ensures
            r@ == self@.files,
    {
        self.files
    }
}

/// The manifest that a sequence of messages carries for a Share.
pub fn receive_manifest(messages: Vec<Message>, share_id: &str) -> (r: Result<
    Manifest,
    ProtocolError,
>)
    ensures
        r is Ok <==> gathered(nothing_gathered(), messages@, share_id@) is Some,
        r is Ok ==> r->Ok_0@ == gathered(nothing_gathered(), messages@, share_id@)->0.files,
        r is Err ==> gathered_error(nothing_gathered(), messages@, share_id@, r->Err_0),
{
    match receive_manifest_with_metrics(messages, share_id) {
        Ok((files, _)) => Ok(files),
        Err(e) => Err(e),
    }
}

/// The manifest and the metrics that a sequence of messages carries.
pub fn receive_manifest_with_metrics(messages: Vec<Message>, share_id: &str) -> (r: Result<
    (Manifest, StoreMetrics),
    ProtocolError,
>)
    ensures
        r is Ok <==> gathered(nothing_gathered(), messages@, share_id@) is Some,
        r is Ok ==> r->Ok_0.0@ == gathered(nothing_gathered(), messages@, share_id@)->0.files && Some(
            r->Ok_0.1,
        ) == gathered(nothing_gathered(), messages@, share_id@)->0.metrics,
        r is Err ==> gathered_error(nothing_gathered(), messages@, share_id@, r->Err_0),
{
    let mut rest = messages;
    let mut receiver = ManifestReceiver::new(share_id);
    while receiver.metrics.is_none()
        invariant
            receiver.share() == share_id@,
            gathered(receiver@, rest@, share_id@) == gathered(
                nothing_gathered(),
                messages@,
                share_id@,
            ),
            forall|e: ProtocolError| #[trigger]
                gathered_error(receiver@, rest@, share_id@, e) ==> gathered_error(
                    nothing_gathered(),
                    messages@,
                    share_id@,
                    e,
                ),
        decreases rest@.len(),
    {
        if rest.len() == 0 {
            assert(gathered_error(receiver@, rest@, share_id@, ProtocolError::Ended));
            return Err(ProtocolError::Ended);
        }
        let ghost before = rest@;
        let ghost was = receiver@;
        let message = rest.remove(0);
        assert(rest@ =~= before.drop_first());
        match receiver.take(message) {
            Ok(_) => {
                assert forall|e: ProtocolError| #[trigger]
                    gathered_error(receiver@, rest@, share_id@, e) implies gathered_error(
                    nothing_gathered(),
                    messages@,
                    share_id@,
                    e,
                ) by {
                    assert(gathered_error(was, before, share_id@, e));
                }
            },
            Err(e) => {
                assert(gathered_error(was, before, share_id@, e));
                return Err(e);
            },
        }
    }
    match receiver.metrics {
        Some(m) => Ok((receiver.into_files(), m)),
        None => Err(ProtocolError::Ended),
    }
}

/// The first `to` files, as a map.
spec fn head(order: Seq<Chars>, files: Map<Chars, EntryView>, to: int) -> Map<Chars, EntryView> {
    portion(order, files, 0, to)
}

proof fn lemma_portion(order: Seq<Chars>, files: Map<Chars, EntryView>, from: int, to: int)
    requires
        order.no_duplicates(),
        0 <= from <= to <= order.len(),
    ensures
        portion(order, files, from, to).dom().finite(),
        portion(order, files, from, to).dom().len() == to - from,
{
    let s = order.subrange(from, to);
    assert(s.no_duplicates());
    s.unique_seq_to_set();
    assert(portion(order, files, from, to).dom() =~= s.to_set());
}

proof fn lemma_chunks_arrive(
    m: Seq<Message>,
    share: Chars,
    order: Seq<Chars>,
    files: Map<Chars, EntryView>,
    metrics: StoreMetrics,
    i: int,
)
    requires
        manifest_messages(m, share, order, files, metrics),
        valid_manifest(files),
        lists(order, files.dom()),
        order.len() <= MAX_FILES,
        0 <= i <= chunk_count(order.len() as int),
    ensures
        ({
            let n = order.len() as int;
            let done = if 1024 * i <= n {
                1024 * i
            } else {
                n
            };
            gathered(
                GatherView {
                    count: Some(n as usize),
                    files: head(order, files, done),
                    metrics: None,
                },
                m.skip(i + 1),
                share,
            ) == Some(GatherView { count: Some(n as usize), files, metrics: Some(metrics) })
        }),
    decreases chunk_count(order.len() as int) - i,
{
    let n = order.len() as int;
    let k = chunk_count(n);
    let done = if 1024 * i <= n {
        1024 * i
    } else {
        n
    };
    crate::collections::lemma_ascending_distinct(order);
    lemma_portion(order, files, 0, done);
    let s = GatherView { count: Some(n as usize), files: head(order, files, done), metrics: None };
    let rest = m.skip(i + 1);
    assert(rest[0] == m[i + 1]);
    if i < k {
        assert(done == 1024 * i && done < n);
        let to = chunk_end(n, i);
        assert(chunk_message(m[i + 1], share, order, files, 1024 * i, to));
        lemma_portion(order, files, done, to);
        let c = portion(order, files, done, to);
        assert(c.dom().disjoint(s.files.dom())) by {
            assert forall|q: Chars| c.dom().contains(q) implies !s.files.dom().contains(q) by {
                let a = choose|a: int|
                    0 <= a < order.subrange(done, to).len() && order.subrange(done, to)[a] == q;
                if order.subrange(0, done).contains(q) {
                    let b = choose|b: int|
                        0 <= b < order.subrange(0, done).len() && order.subrange(0, done)[b] == q;
                    assert(order[done + a] == order[b]);
                }
            }
        }
        let t = GatherView { files: s.files.union_prefer_right(c), ..s };
        assert(gather(s, body(m[i + 1], share)) == Some(t));
        let next = if 1024 * (i + 1) <= n {
            1024 * (i + 1)
        } else {
            n
        };
        assert(next == to);
        assert(t.files =~= head(order, files, to)) by {
            assert forall|q: Chars| #[trigger] t.files.dom().contains(q) <==> head(
                order,
                files,
                to,
            ).dom().contains(q) by {
                if order.subrange(0, to).contains(q) {
                    let b = choose|b: int|
                        0 <= b < order.subrange(0, to).len() && order.subrange(0, to)[b] == q;
                    if b < done {
                        assert(order.subrange(0, done)[b] == q);
                    } else {
                        assert(order.subrange(done, to)[b - done] == q);
                    }
                }
                if order.subrange(0, done).contains(q) {
                    let b = choose|b: int|
                        0 <= b < order.subrange(0, done).len() && order.subrange(0, done)[b] == q;
                    assert(order.subrange(0, to)[b] == q);
                }
                if order.subrange(done, to).contains(q) {
                    let a = choose|a: int|
                        0 <= a < order.subrange(done, to).len() && order.subrange(done, to)[a] == q;
                    assert(order.subrange(0, to)[a + done] == q);
                }
            }
        }
        lemma_chunks_arrive(m, share, order, files, metrics, i + 1);
        assert(rest.drop_first() =~= m.skip(i + 2));
    } else {
        assert(done == n);
        assert(order.subrange(0, n) =~= order);
        assert(s.files =~= files);
        assert(rest[0] == m[k + 1]);
        let t = GatherView { metrics: Some(metrics), ..s };
        assert(gather(s, body(rest[0], share)) == Some(t));
        assert(gathered(t, rest.drop_first(), share) == Some(t));
    }
}

/// What is received of a sent manifest is the manifest and its metrics.
pub proof fn law_manifest_round_trip(
    m: Seq<Message>,
    share: Chars,
    order: Seq<Chars>,
    files: Map<Chars, EntryView>,
    metrics: StoreMetrics,
)
    requires
        manifest_messages(m, share, order, files, metrics),
        valid_manifest(files),
        lists(order, files.dom()),
        files.dom().finite(),
    ensures
        gathered(nothing_gathered(), m, share) == Some(
            GatherView { count: Some(order.len() as usize), files, metrics: Some(metrics) },
        ),
{
    crate::collections::lemma_ascending_distinct(order);
    order.unique_seq_to_set();
    assert(order.to_set() =~= files.dom());
    let n = order.len() as int;
    let s = GatherView { count: Some(n as usize), ..nothing_gathered() };
    assert(gather(nothing_gathered(), body(m[0], share)) == Some(s));
    lemma_chunks_arrive(m, share, order, files, metrics, 0);
    assert(head(order, files, 0) =~= Map::<Chars, EntryView>::empty());
    assert(m.drop_first() =~= m.skip(1));
}

/// Refuses to copy more than the largest file.
pub fn begin_copy(size: u64) -> (r: Result<(), ProtocolError>)
    ensures
        r is Ok <==> size <= MAX_FILE,
        r is Err ==> r->Err_0 is FileTooLarge,
{
    if size > MAX_FILE {
        Err(ProtocolError::FileTooLarge)
    } else {
        Ok(())
    }
}

/// Refuses a copy that ended before all announced bytes came.
pub fn end_copy(copied: u64, size: u64) -> (r: Result<(), ProtocolError>)
    ensures
        r is Ok <==> copied == size,
        r is Err ==> r->Err_0 == ProtocolError::Truncated(copied, size),
{
    if copied == size {
        Ok(())
    } else {
        Err(ProtocolError::Truncated(copied, size))
    }
}

/// Exactly the announced number of bytes from the head of a stream.
pub fn copy_exact(stream: &[u8], size: u64) -> (r: Result<Vec<u8>, ProtocolError>)
    ensures
        r is Ok <==> size <= MAX_FILE && size <= stream@.len(),
        r is Ok ==> r->Ok_0@ == stream@.take(size as int),
        r is Err ==> (r->Err_0 is FileTooLarge <==> size > MAX_FILE),
        r is Err && size <= MAX_FILE ==> r->Err_0 == ProtocolError::Truncated(
            stream@.len() as u64,
            size,
        ),
{
    match begin_copy(size) {
        Ok(()) => {},
        Err(e) => {
            return Err(e);
        },
    }
    let have: u64 = stream.len() as u64;
    if have < size {
        return Err(ProtocolError::Truncated(have, size));
    }
    let out = copy_bytes(stream, 0, size as usize);
    assert(out@ =~= stream@.take(size as int));
    Ok(out)
}

/// The label that keeps these proofs apart from other uses of the secret.
pub open spec fn auth_label() -> Seq<u8> {
    seq![114u8, 111, 119, 100, 45, 97, 117, 116, 104, 45, 118, 50, 0]
}

/// What a proof signs: the label and three identities of fixed length.
pub open spec fn auth_text(nonce: Chars, pair_id: Chars, device_id: Chars) -> Seq<u8> {
    auth_label() + hex_bytes(nonce) + hex_bytes(pair_id) + hex_bytes(device_id)
}

/// The proof of a secret for a nonce, a pair and a device.
pub open spec fn auth_tag(secret: Chars, nonce: Chars, pair_id: Chars, device_id: Chars) -> Seq<u8> {
    hmac_of(hex_bytes(secret), auth_text(nonce, pair_id, device_id))
}

/// The secret has 32 bytes.
pub open spec fn sound_secret(secret: Chars) -> bool {
    is_hex(secret) && hex_bytes(secret).len() == 32
}

/// The error for a secret or identities that cannot be used, if any.
pub open spec fn auth_fault(secret: Chars, nonce: Chars, pair_id: Chars, device_id: Chars) -> Option<
    ProtocolError,
> {
    if !sound_secret(secret) {
        Some(ProtocolError::InvalidSecret)
    } else if !valid_hash(nonce) || !valid_hash(pair_id) || !valid_hash(device_id) {
        Some(ProtocolError::InvalidIdentity)
    } else {
        None
    }
}

proof fn lemma_hash_hex(s: Chars)
    requires
        valid_hash(s),
    ensures
        is_hex(s),
        hex_bytes(s).len() == 32,
        hex_text(hex_bytes(s)) == s,
{
    assert forall|i: int| 0 <= i < s.len() implies crate::model::lower_hex(#[trigger] s[i]) by {}
    crate::invitation::lemma_lower_hex(s);
}

proof fn lemma_fields(label: Seq<u8>, a: Seq<u8>, b: Seq<u8>, c: Seq<u8>)
    requires
        label.len() == 13,
        a.len() == 32,
        b.len() == 32,
        c.len() == 32,
    ensures
        (label + a + b + c).subrange(13, 45) == a,
        (label + a + b + c).subrange(45, 77) == b,
        (label + a + b + c).subrange(77, 109) == c,
{
    let s = label + a + b + c;
    assert(s.subrange(13, 45) =~= a);
    assert(s.subrange(45, 77) =~= b);
    assert(s.subrange(77, 109) =~= c);
}

/// What is signed determines the nonce, the pair and the device.
pub proof fn law_proof_binds_identities(
    nonce: Chars,
    pair: Chars,
    device: Chars,
    nonce2: Chars,
    pair2: Chars,
    device2: Chars,
)
    requires
        valid_hash(nonce),
        valid_hash(pair),
        valid_hash(device),
        valid_hash(nonce2),
        valid_hash(pair2),
        valid_hash(device2),
        auth_text(nonce, pair, device) == auth_text(nonce2, pair2, device2),
    ensures
        nonce == nonce2,
        pair == pair2,
        device == device2,
{
    lemma_hash_hex(nonce);
    lemma_hash_hex(pair);
    lemma_hash_hex(device);
    lemma_hash_hex(nonce2);
    lemma_hash_hex(pair2);
    lemma_hash_hex(device2);
    lemma_fields(auth_label(), hex_bytes(nonce), hex_bytes(pair), hex_bytes(device));
    lemma_fields(auth_label(), hex_bytes(nonce2), hex_bytes(pair2), hex_bytes(device2));
}

/// The key and the text of a proof.
fn auth_parts(secret: &str, nonce: &str, pair_id: &str, device_id: &str) -> (r: Result<
    (Vec<u8>, Vec<u8>),
    ProtocolError,
>)
    ensures
        r is Ok <==> auth_fault(secret@, nonce@, pair_id@, device_id@) is None,
        r is Err ==> Some(r->Err_0) == auth_fault(secret@, nonce@, pair_id@, device_id@),
        r is Ok ==> r->Ok_0.0@ == hex_bytes(secret@) && r->Ok_0.1@ == auth_text(
            nonce@,
            pair_id@,
            device_id@,
        ),
{
    let key = match hex_decode(secret) {
        Some(k) => k,
        None => {
            return Err(ProtocolError::InvalidSecret);
        },
    };
    if key.len() != 32 {
        return Err(ProtocolError::InvalidSecret);
    }
    if !is_hash(nonce) || !is_hash(pair_id) || !is_hash(device_id) {
        return Err(ProtocolError::InvalidIdentity);
    }
    proof {
        lemma_hash_hex(nonce@);
        lemma_hash_hex(pair_id@);
        lemma_hash_hex(device_id@);
    }
    let mut text: Vec<u8> = Vec::new();
    push_bytes(&mut text, &[114u8, 111, 119, 100, 45, 97, 117, 116, 104, 45, 118, 50, 0]);
    assert(text@ =~= auth_label());
    match (hex_decode(nonce), hex_decode(pair_id), hex_decode(device_id)) {
        (Some(a), Some(b), Some(c)) => {
            push_bytes(&mut text, a.as_slice());
            push_bytes(&mut text, b.as_slice());
            push_bytes(&mut text, c.as_slice());
            assert(text@ =~= auth_text(nonce@, pair_id@, device_id@));
            Ok((key, text))
        },
        _ => Err(ProtocolError::InvalidIdentity),
    }
}

/// The proof that a device knows the secret.
pub fn auth_proof(secret: &str, nonce: &str, pair_id: &str, device_id: &str) -> (r: Result<
    Vec<u8>,
    ProtocolError,
>)
    ensures
        r is Ok <==> auth_fault(secret@, nonce@, pair_id@, device_id@) is None,
        r is Err ==> Some(r->Err_0) == auth_fault(secret@, nonce@, pair_id@, device_id@),
        r is Ok ==> r->Ok_0@ == auth_tag(secret@, nonce@, pair_id@, device_id@)
            && r->Ok_0@.len() == 32,
{
    match auth_parts(secret, nonce, pair_id, device_id) {
        Ok((key, text)) => Ok(hmac_sha256(key.as_slice(), text.as_slice())),
        Err(e) => Err(e),
    }
}

/// Accepts the right proof and nothing else.
pub fn auth_verify(secret: &str, nonce: &str, pair_id: &str, device_id: &str, proof_bytes: &[u8]) -> (r:
    Result<(), ProtocolError>)
    ensures
        r is Ok <==> auth_fault(secret@, nonce@, pair_id@, device_id@) is None && proof_bytes@
            == auth_tag(secret@, nonce@, pair_id@, device_id@),
        r is Err ==> r->Err_0 == (match auth_fault(secret@, nonce@, pair_id@, device_id@) {
            Some(e) => e,
            None => ProtocolError::AuthenticationFailed,
        }),
{
    match auth_parts(secret, nonce, pair_id, device_id) {
        Ok((key, text)) => {
            if hmac_verify(key.as_slice(), text.as_slice(), proof_bytes) {
                Ok(())
            } else {
                Err(ProtocolError::AuthenticationFailed)
            }
        },
        Err(e) => Err(e),
    }
}

/// The text of a version mismatch.
pub open spec fn version_text(received: u32) -> Chars {
    "incompatible protocol: expected "@ + decimal(PROTOCOL_VERSION as nat) + ", received "@
        + decimal(received as nat)
}

/// The text of a version mismatch.
fn version_message(received: u32) -> (r: String)
    ensures
        r@ == version_text(received),
{
    let mut r = String::from_str("incompatible protocol: expected ");
    r.append(number(PROTOCOL_VERSION as u64).as_str());
    r.append(", received ");
    r.append(number(received as u64).as_str());
    r
}

/// The PC's answer to a greeting.
#[allow(inconsistent_fields)]
pub enum Greeting {
    /// The device is asked to prove the secret for this nonce.
    Challenge { reply: Message, nonce: String, device_id: String },
    /// The device is turned away, perhaps with a reason.
    Refused { reply: Option<Message>, error: ProtocolError },
}

/// A phone of the pair greets, in the same version of the protocol.
pub open spec fn greets(message: Message, pair_id: Chars) -> bool {
    message matches Message::Hello { version, pair_id: peer, device_id } && version
        == PROTOCOL_VERSION && peer@ == pair_id
}

/// Why a phone is turned away, and what it is told.
pub open spec fn turned_away(
    message: Message,
    pair_id: Chars,
    reply: Option<Message>,
    error: ProtocolError,
) -> bool {
    match error {
        ProtocolError::Peer(text) => message is Error && text == message->Error_message && reply
            is None,
        ProtocolError::ExpectedHello => !(message is Hello) && !(message is Error) && reply is None,
        ProtocolError::Incompatible(v) => {
            &&& message is Hello && message->Hello_version == v && v != PROTOCOL_VERSION
            &&& reply is Some && reply->0 is Error && reply->0->Error_message@ == version_text(v)
        },
        ProtocolError::WrongPair => message is Hello && message->Hello_version == PROTOCOL_VERSION
            && message->Hello_pair_id@ != pair_id && reply is None,
        _ => false,
    }
}

/// The PC's answer to the first message of a phone, given a fresh nonce.
pub fn server_hello(message: Message, pair_id: &str, nonce: String) -> (r: Greeting)
    ensures
        r is Challenge <==> greets(message, pair_id@),
        match r {
            Greeting::Challenge { reply, nonce: n, device_id } => {
                &&& n@ == nonce@
                &&& reply is Challenge && reply->Challenge_nonce@ == nonce@
                &&& message is Hello && device_id == message->Hello_device_id
            },
            Greeting::Refused { reply, error } => turned_away(message, pair_id@, reply, error),
        },
{
    match accept(message) {
        Err(error) => Greeting::Refused { reply: None, error },
        Ok(Message::Hello { version, pair_id: peer, device_id }) => {
            if version != PROTOCOL_VERSION {
                return Greeting::Refused {
                    reply: Some(Message::Error { message: version_message(version) }),
                    error: ProtocolError::Incompatible(version),
                };
            }
            if !same(peer.as_str(), pair_id) {
                return Greeting::Refused { reply: None, error: ProtocolError::WrongPair };
            }
            Greeting::Challenge {
                reply: Message::Challenge { nonce: nonce.clone() },
                nonce,
                device_id,
            }
        },
        Ok(_) => Greeting::Refused { reply: None, error: ProtocolError::ExpectedHello },
    }
}

/// The PC's answer to the first message of a phone, with a nonce of its own. A
/// phone that is turned away is told so in any case; one that is to be asked
/// for its proof gets nothing where the system has no random bytes.
pub fn server_auth(message: Message, pair_id: &str) -> (r: Option<Greeting>)
    ensures
        !greets(message, pair_id@) ==> (r matches Some(Greeting::Refused { reply, error })
            && turned_away(message, pair_id@, reply, error)),
        greets(message, pair_id@) ==> match r {
            Some(Greeting::Challenge { reply, nonce, device_id }) => valid_hash(nonce@) && device_id
                == message->Hello_device_id && reply is Challenge && reply->Challenge_nonce@
                == nonce@,
            Some(Greeting::Refused { reply, error }) => false,
            None => true,
        },
{
    let welcome = match &message {
        Message::Hello { version, pair_id: peer, device_id } => *version == PROTOCOL_VERSION && same(
            peer.as_str(),
            pair_id,
        ),
        _ => false,
    };
    if !welcome {
        // No nonce is drawn for a phone that is turned away.
        return Some(server_hello(message, pair_id, String::new()));
    }
    match crate::primitives::random_id() {
        None => None,
        Some(nonce) => {
            proof {
                crate::model::lemma_hex_is_hash(hex_bytes(nonce@));
            }
            Some(server_hello(message, pair_id, nonce))
        },
    }
}

/// The PC's answer to a proof: ready exactly if it is the right one.
pub fn server_proof(message: Message, secret: &str, nonce: &str, pair_id: &str, device_id: &str) -> (r:
    Result<Message, ProtocolError>)
    ensures
        r is Ok <==> (message matches Message::Proof { mac } && is_hex(mac@) && auth_fault(
            secret@,
            nonce@,
            pair_id@,
            device_id@,
        ) is None && hex_bytes(mac@) == auth_tag(secret@, nonce@, pair_id@, device_id@)),
        r is Ok ==> r->Ok_0 is Ready,
        r is Err ==> match r->Err_0 {
            ProtocolError::Peer(text) => message is Error && text == message->Error_message,
            ProtocolError::ExpectedProof => !(message is Proof) && !(message is Error),
            ProtocolError::InvalidProof => message is Proof && !is_hex(message->Proof_mac@)
                && auth_fault(secret@, nonce@, pair_id@, device_id@) is None,
            ProtocolError::AuthenticationFailed => message is Proof && is_hex(
                message->Proof_mac@,
            ) && auth_fault(
                secret@,
                nonce@,
                pair_id@,
                device_id@,
            ) is None && hex_bytes(message->Proof_mac@) != auth_tag(
                secret@,
                nonce@,
                pair_id@,
                device_id@,
            ),
            e => message is Proof && Some(e) == auth_fault(secret@, nonce@, pair_id@, device_id@),
        },
{
    match accept(message) {
        Err(e) => Err(e),
        Ok(Message::Proof { mac }) => {
            match auth_parts(secret, nonce, pair_id, device_id) {
                Err(e) => {
                    return Err(e);
                },
                Ok(_) => {},
            }
            match hex_decode(mac.as_str()) {
                None => Err(ProtocolError::InvalidProof),
                Some(bytes) => {
                    match auth_verify(secret, nonce, pair_id, device_id, bytes.as_slice()) {
                        Ok(()) => Ok(Message::Ready),
                        Err(e) => Err(e),
                    }
                },
            }
        },
        Ok(_) => Err(ProtocolError::ExpectedProof),
    }
}

/// The phone's first message.
pub fn client_hello(pair_id: &str, device_id: &str) -> (r: Message)
    ensures
        r is Hello,
        r->Hello_version == PROTOCOL_VERSION,
        r->Hello_pair_id@ == pair_id@,
        r->Hello_device_id@ == device_id@,
{
    Message::Hello {
        version: PROTOCOL_VERSION,
        pair_id: pair_id.to_owned(),
        device_id: device_id.to_owned(),
    }
}

/// The phone's answer to a challenge.
pub fn client_auth(message: Message, pair_id: &str, secret: &str, device_id: &str) -> (r: Result<
    Message,
    ProtocolError,
>)
    ensures
        r is Ok <==> (message matches Message::Challenge { nonce } && auth_fault(
            secret@,
            nonce@,
            pair_id@,
            device_id@,
        ) is None),
        r is Ok ==> r->Ok_0 is Proof && r->Ok_0->Proof_mac@ == hex_text(
            auth_tag(secret@, message->Challenge_nonce@, pair_id@, device_id@),
        ),
        r is Err ==> match r->Err_0 {
            ProtocolError::Peer(text) => message is Error && text == message->Error_message,
            ProtocolError::ExpectedChallenge => !(message is Challenge) && !(message is Error),
            e => message is Challenge && Some(e) == auth_fault(
                secret@,
                message->Challenge_nonce@,
                pair_id@,
                device_id@,
            ),
        },
{
    match accept(message) {
        Err(e) => Err(e),
        Ok(Message::Challenge { nonce }) => {
            match auth_proof(secret, nonce.as_str(), pair_id, device_id) {
                Ok(tag) => Ok(Message::Proof { mac: hex_encode(tag.as_slice()) }),
                Err(e) => Err(e),
            }
        },
        Ok(_) => Err(ProtocolError::ExpectedChallenge),
    }
}

/// Whether the PC accepted the proof.
pub fn client_ready(message: Message) -> (r: Result<(), ProtocolError>)
    ensures
        r is Ok <==> message is Ready,
        r is Err ==> match r->Err_0 {
            ProtocolError::Peer(text) => message is Error && text == message->Error_message,
            ProtocolError::AuthenticationRejected => !(message is Ready) && !(message is Error),
            _ => false,
        },
{
    match accept(message) {
        Err(e) => Err(e),
        Ok(Message::Ready) => Ok(()),
        Ok(_) => Err(ProtocolError::AuthenticationRejected),
    }
}

/// A phone that knows the secret is let in: the proof it sends for a nonce is
/// the one that the PC accepts for that nonce.
pub proof fn law_own_proof_is_accepted(
    secret: Chars,
    nonce: Chars,
    pair_id: Chars,
    device_id: Chars,
)
    ensures
        ({
            let mac = hex_text(auth_tag(secret, nonce, pair_id, device_id));
            is_hex(mac) && hex_bytes(mac) == auth_tag(secret, nonce, pair_id, device_id)
        }),
{
    crate::primitives::lemma_hex_round_trip(auth_tag(secret, nonce, pair_id, device_id));
}

/// A message counts for a Share only if it names that Share; a message that
/// names another, or none, or reports an error, does not.
pub proof fn law_message_names_its_share(m: Message, share: Chars)
    ensures
        !(m is Scoped) ==> body(m, share) is None,
        m is Scoped && m->Scoped_share_id@ != share ==> body(m, share) is None,
        m is Scoped && (*m->Scoped_message) is Error ==> body(m, share) is None,
        m is Scoped && m->Scoped_share_id@ == share && !((*m->Scoped_message) is Error) ==> body(
            m,
            share,
        ) == Some(*m->Scoped_message),
{
}

proof fn lemma_gathered(s: GatherView, m: Seq<Message>, share: Chars)
    requires
        s.metrics is Some ==> valid_manifest(s.files),
        s.count is Some ==> s.count->0 <= 50_000,
        gathered(s, m, share) is Some,
    ensures
        ({
            let t = gathered(s, m, share)->0;
            &&& t.metrics is Some
            &&& valid_manifest(t.files)
            &&& t.count is Some ==> t.count->0 <= 50_000
            &&& forall|p: Chars| #[trigger]
                s.files.dom().contains(p) ==> t.files.dom().contains(p) && t.files[p] == s.files[p]
            &&& forall|p: Chars| #[trigger]
                t.files.dom().contains(p) ==> s.files.dom().contains(p) || exists|i: int|
                    #![trigger m[i]]
                    0 <= i < m.len() && body(m[i], share) is Some && (body(m[i], share)->0
                        is ManifestChunk) && body(m[i], share)->0->ManifestChunk_files@.dom().contains(
                        p,
                    ) && body(m[i], share)->0->ManifestChunk_files@[p] == t.files[p]
        }),
    decreases m.len(),
{
    if s.metrics is None {
        let b = body(m[0], share);
        let t = gather(s, b)->0;
        let rest = m.drop_first();
        lemma_gathered(t, rest, share);
        let u = gathered(s, m, share)->0;
        assert(u == gathered(t, rest, share)->0);
        assert forall|p: Chars| #[trigger] s.files.dom().contains(
            p,
        ) implies u.files.dom().contains(p) && u.files[p] == s.files[p] by {
            assert(t.files.dom().contains(p));
        }
        assert forall|p: Chars| #[trigger] u.files.dom().contains(p) implies s.files.dom().contains(p)
            || exists|i: int| #![trigger m[i]]
            0 <= i < m.len() && body(m[i], share) is Some && (body(m[i], share)->0
                is ManifestChunk) && body(m[i], share)->0->ManifestChunk_files@.dom().contains(p)
                && body(m[i], share)->0->ManifestChunk_files@[p] == u.files[p] by {
            if t.files.dom().contains(p) {
                if !s.files.dom().contains(p) {
                    assert(u.files[p] == t.files[p]);
                    assert(body(m[0], share)->0 is ManifestChunk);
                }
            } else {
                let i = choose|i: int| #![trigger rest[i]]
                    0 <= i < rest.len() && body(rest[i], share) is Some && (body(rest[i], share)->0
                        is ManifestChunk) && body(
                        rest[i],
                        share,
                    )->0->ManifestChunk_files@.dom().contains(p) && body(
                        rest[i],
                        share,
                    )->0->ManifestChunk_files@[p] == u.files[p];
                assert(m[i + 1] == rest[i]);
            }
        }
    }
}

/// A manifest that is taken is a valid one, of at most fifty thousand files,
/// and holds just what its chunks for that Share said.
pub proof fn law_taken_manifest_is_valid(m: Seq<Message>, share: Chars, p: Chars)
    requires
        gathered(nothing_gathered(), m, share) is Some,
    ensures
        ({
            let t = gathered(nothing_gathered(), m, share)->0;
            &&& valid_manifest(t.files)
            &&& t.metrics is Some
            &&& t.files.dom().contains(p) ==> exists|i: int| #![trigger m[i]]
                0 <= i < m.len() && body(m[i], share) is Some && (body(m[i], share)->0
                    is ManifestChunk) && body(m[i], share)->0->ManifestChunk_files@.dom().contains(p)
                    && body(m[i], share)->0->ManifestChunk_files@[p] == t.files[p]
        }),
{
    lemma_gathered(nothing_gathered(), m, share);
}

/// A proof of identity is made only with a whole secret and sound identities,
/// and a greeting counts only in the same version and for the same pairing.
pub proof fn law_greeting_and_proof_are_checked(
    secret: Chars,
    nonce: Chars,
    pair_id: Chars,
    device_id: Chars,
    m: Message,
)
    ensures
        auth_fault(secret, nonce, pair_id, device_id) is None <==> is_hex(secret) && hex_bytes(
            secret,
        ).len() == 32 && valid_hash(nonce) && valid_hash(pair_id) && valid_hash(device_id),
        !(m is Hello) ==> !greets(m, pair_id),
        m is Hello ==> (greets(m, pair_id) <==> m->Hello_version == 9 && m->Hello_pair_id@
            == pair_id),
{
}

/// A manifest arrives in its order, and each part is checked: a count of at
/// most fifty thousand, then chunks of one to a thousand and twenty-four files
/// that name no path twice and are no more than was said, then its end, once
/// all files are there and make a valid manifest. Anything else is refused.
pub proof fn law_chunks_are_checked(s: GatherView, b: Message, p: Chars)
    ensures
        s.count is None ==> (gather(s, Some(b)) is Some <==> b is ManifestBegin
            && b->ManifestBegin_count <= 50_000),
        s.count is Some && s.files.dom().len() < s.count->0 && !(b is ManifestChunk) ==> gather(
            s,
            Some(b),
        ) is None,
        s.count is Some && s.files.dom().len() < s.count->0 && b is ManifestChunk ==> {
            let files = b->ManifestChunk_files@;
            &&& files.dom().contains(p) && s.files.dom().contains(p) ==> gather(s, Some(b)) is None
            &&& files.dom().len() == 0 || files.dom().len() > 1024 ==> gather(s, Some(b)) is None
            &&& s.files.dom().len() + files.dom().len() > s.count->0 ==> gather(s, Some(b)) is None
            &&& gather(s, Some(b)) matches Some(t) ==> {
                &&& t.files.dom().contains(p) <==> s.files.dom().contains(p)
                    || files.dom().contains(p)
                &&& s.files.dom().contains(p) ==> t.files[p] == s.files[p]
                &&& files.dom().contains(p) ==> t.files[p] == files[p]
                &&& t.count == s.count && t.metrics is None == s.metrics is None
            }
            &&& 0 < files.dom().len() <= 1024 && files.dom().disjoint(s.files.dom())
                && s.files.dom().len() + files.dom().len() <= s.count->0 ==> gather(
                s,
                Some(b),
            ) is Some
        },
        s.count is Some && s.files.dom().len() >= s.count->0 ==> (gather(s, Some(b)) is Some <==> b
            is ManifestEnd && valid_manifest(s.files)),
        gather(s, None) is None,
{
}

/// What a proof of identity covers begins with a label that ends in a zero, and
/// goes on with the nonce, the pairing and the phone, each in full.
pub proof fn law_proof_covers_everything(nonce: Chars, pair_id: Chars, device_id: Chars)
    ensures
        auth_text(nonce, pair_id, device_id) == vstd::utf8::encode_utf8("rowd-auth-v2"@).push(0u8)
            + hex_bytes(nonce) + hex_bytes(pair_id) + hex_bytes(device_id),
{
    reveal_strlit("rowd-auth-v2");
    let s = "rowd-auth-v2"@;
    assert(vstd::utf8::is_ascii_chars(s));
    vstd::utf8::is_ascii_chars_encode_utf8(s);
    assert forall|i: int| 0 <= i < 12 implies vstd::utf8::encode_utf8(s)[i] == auth_label()[i] by {
        assert(s[i] as u8 == vstd::utf8::encode_utf8(s)[i]);
        assert(i == 0 || i == 1 || i == 2 || i == 3 || i == 4 || i == 5 || i == 6 || i == 7 || i == 8
            || i == 9 || i == 10 || i == 11);
    }
    assert(auth_label() =~= vstd::utf8::encode_utf8(s).push(0u8));
}

} // verus!
